//! A cookie jar.
//!
//! The jar stores cookies in a two-level trie: a tree over the reversed
//! labels of the domain (root, then top-level domain, then ever more
//! specific labels), each node of which carries a tree over path
//! segments; IP-literal hosts live in a side table of their own, since
//! they have no subdomain hierarchy.  A cookie is uniquely identified by
//! its (domain-or-host, path, name) triple; inserting at an existing
//! triple replaces the stored value.  Lookups walk from the node of the
//! request host up to the root: the exact node contributes all its
//! matching cookies, strict ancestors only those that are not host-only.

use vstd::prelude::*;

use crate::chars::{CharClass, char_in_class, run_len, scan_class, lemma_run_len};
use crate::cookie::{Attributes, Cookie, Host, HostView};
use crate::parse::{CookiePair, CookiePairView, text_eq};

verus! {

/// Something that produces the current UTC time, as seconds since the
/// Unix epoch.
pub trait Clock {
    /// The current UTC time.
    fn now(&self) -> i64;
}

/// The system wall clock.
pub struct SystemClock;

impl Clock for SystemClock {
    fn now(&self) -> i64 {
        crate::cookie::now_epoch()
    }
}

/// The non-empty pieces of a text between occurrences of a separator:
/// splitting drops empty pieces, so leading, trailing and doubled
/// separators leave no trace.  `cls` is the class of non-separator
/// characters.
pub open spec fn spec_split(s: Seq<char>, cls: CharClass) -> Seq<Seq<char>>
    decreases s.len(),
    via spec_split_dec
{
    if s.len() == 0 {
        Seq::empty()
    } else if !char_in_class(cls, s[0]) {
        spec_split(s.skip(1), cls)
    } else {
        seq![s.take(run_len(s, cls) as int)] + spec_split(s.skip(run_len(s, cls) as int), cls)
    }
}

#[via_fn]
proof fn spec_split_dec(s: Seq<char>, cls: CharClass) {
    lemma_run_len(s, cls);
}

/// The segments of a cookie or request path.
pub open spec fn spec_path_segments(p: Seq<char>) -> Seq<Seq<char>> {
    spec_split(p, CharClass::PathSegment)
}

/// The labels of a domain name, in written order.
pub open spec fn spec_domain_labels(d: Seq<char>) -> Seq<Seq<char>> {
    spec_split(d, CharClass::DomainLabel)
}

/// Splits a text at its separators, dropping empty pieces.
pub fn split_text(s: &str, cls: CharClass) -> (r: Vec<String>)
    ensures
        r.deep_view() == spec_split(s@, cls),
{
    let len = s.unicode_len();
    let mut out: Vec<String> = Vec::new();
    let mut i: usize = 0;
    proof {
        assert(out.deep_view() =~= Seq::<Seq<char>>::empty());
        assert(s@.skip(0) =~= s@);
        assert(spec_split(s@, cls) =~= out.deep_view() + spec_split(s@.skip(0), cls));
    }
    while i < len
        invariant
            0 <= i <= len,
            len == s@.len(),
            spec_split(s@, cls) == out.deep_view() + spec_split(s@.skip(i as int), cls),
        decreases len - i,
    {
        let c = s.get_char(i);
        if !crate::chars::check_char(cls, c) {
            proof {
                assert(s@.skip(i as int)[0] == s@[i as int]);
                assert(s@.skip(i as int).skip(1) =~= s@.skip(i + 1));
            }
            i = i + 1;
        } else {
            let rest = s.substring_char(i, len);
            proof {
                assert(rest@ =~= s@.skip(i as int));
            }
            let t = scan_class(rest, cls);
            proof {
                lemma_run_len(rest@, cls);
            }
            let piece = String::from_str(s.substring_char(i, i + t));
            proof {
                assert(piece@ =~= s@.skip(i as int).take(t as int));
                assert(s@.skip(i as int).skip(t as int) =~= s@.skip(i + t));
            }
            let ghost out0 = out.deep_view();
            out.push(piece);
            proof {
                assert(out.deep_view() =~= out0 + seq![piece@]);
                assert(out.deep_view() + spec_split(s@.skip(i + t), cls) =~= out0 + (seq![
                    s@.skip(i as int).take(t as int),
                ] + spec_split(s@.skip(i as int).skip(t as int), cls)));
            }
            i = i + t;
        }
    }
    proof {
        assert(out.deep_view() + spec_split(s@.skip(i as int), cls) =~= out.deep_view());
    }
    out
}

/// The value under the first occurrence of a key in an association list.
pub open spec fn assoc_find<V>(l: Seq<(String, V)>, key: Seq<char>) -> Option<V>
    decreases l.len(),
{
    if l.len() == 0 {
        None
    } else if l[0].0@ == key {
        Some(l[0].1)
    } else {
        assoc_find(l.drop_first(), key)
    }
}

/// No two entries of the list share a key.
pub open spec fn uniq_keys<V>(l: Seq<(String, V)>) -> bool {
    forall|i: int, j: int| 0 <= i < j < l.len() ==> l[i].0@ != l[j].0@
}

/// A list with no entry under a key finds nothing under it.
pub proof fn lemma_assoc_absent<V>(l: Seq<(String, V)>, key: Seq<char>)
    requires
        forall|i: int| 0 <= i < l.len() ==> l[i].0@ != key,
    ensures
        assoc_find(l, key) is None,
    decreases l.len(),
{
    if l.len() > 0 {
        assert(forall|i: int| 0 <= i < l.drop_first().len() ==> l.drop_first()[i] == l[i + 1]);
        lemma_assoc_absent(l.drop_first(), key);
    }
}

/// A first occurrence of a key is what the find yields.
pub proof fn lemma_assoc_at<V>(l: Seq<(String, V)>, j: int)
    requires
        0 <= j < l.len(),
        forall|i: int| 0 <= i < j ==> l[i].0@ != l[j].0@,
    ensures
        assoc_find(l, l[j].0@) == Some(l[j].1),
    decreases l.len(),
{
    if j > 0 {
        assert(forall|i: int| 0 <= i < l.drop_first().len() ==> l.drop_first()[i] == l[i + 1]);
        lemma_assoc_at(l.drop_first(), j - 1);
    }
}

/// Replacing the value under the first occurrence of a key changes the
/// find of that key and no other.
pub proof fn lemma_assoc_update<V>(l: Seq<(String, V)>, j: int, x: (String, V), k: Seq<char>)
    requires
        0 <= j < l.len(),
        x.0@ == l[j].0@,
        forall|i: int| 0 <= i < j ==> l[i].0@ != l[j].0@,
    ensures
        assoc_find(l.update(j, x), k) == if k == l[j].0@ {
            Some(x.1)
        } else {
            assoc_find(l, k)
        },
    decreases l.len(),
{
    let l2 = l.update(j, x);
    if j == 0 {
        assert(l2[0] == x);
        assert(l2.drop_first() =~= l.drop_first());
    } else {
        assert(l2[0] == l[0]);
        assert(l2.drop_first() =~= l.drop_first().update(j - 1, x));
        assert(forall|i: int| 0 <= i < l.drop_first().len() ==> l.drop_first()[i] == l[i + 1]);
        lemma_assoc_update(l.drop_first(), j - 1, x, k);
    }
}

/// Appending an entry adds its key where it was absent and shadows
/// nothing.
#[verifier::rlimit(50)]
pub proof fn lemma_assoc_push<V>(l: Seq<(String, V)>, x: (String, V), k: Seq<char>)
    ensures
        assoc_find(l.push(x), k) == if assoc_find(l, k) is Some {
            assoc_find(l, k)
        } else if x.0@ == k {
            Some(x.1)
        } else {
            None::<V>
        },
    decreases l.len(),
{
    if l.len() == 0 {
        assert(l.push(x)[0] == x);
        assert(l.push(x).drop_first() =~= Seq::<(String, V)>::empty());
        assert(assoc_find(l, k) is None);
        assert(assoc_find(Seq::<(String, V)>::empty(), k) is None);
        if x.0@ == k {
            assert(assoc_find(l.push(x), k) == Some(x.1));
        } else {
            assert(assoc_find(l.push(x), k) is None);
        }
    } else {
        assert(l.push(x)[0] == l[0]);
        assert(l.push(x).drop_first() =~= l.drop_first().push(x));
        lemma_assoc_push(l.drop_first(), x, k);
        if l[0].0@ == k {
            assert(assoc_find(l, k) == Some(l[0].1));
            assert(assoc_find(l.push(x), k) == Some(l[0].1));
        } else {
            assert(assoc_find(l, k) == assoc_find(l.drop_first(), k));
            assert(assoc_find(l.push(x), k) == assoc_find(l.drop_first().push(x), k));
        }
    }
}

/// Finds the first entry of the list whose key equals `key`.
fn assoc_index<V>(list: &Vec<(String, V)>, key: &str) -> (r: Option<usize>)
    ensures
        match r {
            Some(j) => {
                &&& j < list@.len()
                &&& list@[j as int].0@ == key@
                &&& forall|i: int| 0 <= i < j ==> list@[i].0@ != key@
            },
            None => forall|i: int| 0 <= i < list@.len() ==> list@[i].0@ != key@,
        },
{
    let n = list.len();
    let mut j: usize = 0;
    while j < n
        invariant
            0 <= j <= n,
            n == list@.len(),
            forall|i: int| 0 <= i < j ==> list@[i].0@ != key@,
        decreases n - j,
    {
        if text_eq(list[j].0.as_str(), key) {
            return Some(j);
        }
        j = j + 1;
    }
    None
}

/// A node of the path trie: the cookies stored at exactly this path,
/// keyed by name, and the children keyed by the next path segment.
pub struct PathNode {
    cookies: Vec<(String, Attributes)>,
    children: Vec<(String, PathNode)>,
}

/// A node of the domain trie: the path trie of cookies scoped to exactly
/// this domain, and the children keyed by the next, more specific label.
pub struct DomainNode {
    path: PathNode,
    children: Vec<(String, DomainNode)>,
}

/// Keys are unique at every level of the path trie.
pub closed spec fn pn_wf(n: PathNode) -> bool
    decreases n,
{
    &&& uniq_keys(n.cookies@)
    &&& uniq_keys(n.children@)
    &&& forall|i: int| 0 <= i < n.children@.len() ==> pn_wf(#[trigger] n.children@[i].1)
}

/// Keys are unique at every level of the domain trie, and every path
/// trie in it is well-formed.
pub closed spec fn dn_wf(n: DomainNode) -> bool
    decreases n,
{
    &&& pn_wf(n.path)
    &&& uniq_keys(n.children@)
    &&& forall|i: int| 0 <= i < n.children@.len() ==> dn_wf(#[trigger] n.children@[i].1)
}

/// The cookie stored in the path trie under the given path segments and
/// name, where one is stored.
pub closed spec fn pn_cookie(n: PathNode, segs: Seq<Seq<char>>, name: Seq<char>) -> Option<
    Attributes,
>
    decreases segs.len(),
{
    if segs.len() == 0 {
        assoc_find(n.cookies@, name)
    } else {
        match assoc_find(n.children@, segs[0]) {
            None => None,
            Some(c) => pn_cookie(c, segs.drop_first(), name),
        }
    }
}

/// The cookie stored in the domain trie under the given labels (in
/// written order), path segments and name, where one is stored.
pub closed spec fn dn_cookie(
    n: DomainNode,
    labels: Seq<Seq<char>>,
    segs: Seq<Seq<char>>,
    name: Seq<char>,
) -> Option<Attributes>
    decreases labels.len(),
{
    if labels.len() == 0 {
        pn_cookie(n.path, segs, name)
    } else {
        match assoc_find(n.children@, labels.last()) {
            None => None,
            Some(c) => dn_cookie(c, labels.drop_last(), segs, name),
        }
    }
}

impl PathNode {
    /// A node with nothing stored at or below it.
    fn empty() -> (r: PathNode)
        ensures
            pn_wf(r),
            forall|s: Seq<Seq<char>>, nm: Seq<char>| pn_cookie(r, s, nm) is None,
    {
        let r = PathNode { cookies: Vec::new(), children: Vec::new() };
        proof {
            assert forall|s: Seq<Seq<char>>, nm: Seq<char>| pn_cookie(r, s, nm) is None by {
                if s.len() == 0 {
                } else {
                }
            }
        }
        r
    }
}

/// Inserts a cookie into the path trie at `segs[i..]`, keyed by the name
/// of its pair: exactly that slot changes, every other stored cookie is
/// untouched.
fn pn_insert(node: PathNode, segs: &Vec<String>, i: usize, attrs: Attributes) -> (r: PathNode)
    requires
        i <= segs@.len(),
        pn_wf(node),
    ensures
        pn_wf(r),
        forall|s: Seq<Seq<char>>, nm: Seq<char>|
            #[trigger] pn_cookie(r, s, nm) == if s == segs.deep_view().skip(i as int) && nm
                == attrs@.pair.name {
                Some(attrs)
            } else {
                pn_cookie(node, s, nm)
            },
    decreases segs@.len() - i,
{
    let ghost n0 = node;
    let ghost tail = segs.deep_view().skip(i as int);
    let mut node = node;
    if i == segs.len() {
        proof {
            assert(tail =~= Seq::<Seq<char>>::empty());
        }
        let name = String::from_str(attrs.pair().name());
        let ghost c0 = n0.cookies@;
        let ghost entry = (name, attrs);
        match assoc_index(&node.cookies, name.as_str()) {
            Some(j) => {
                let _replaced = node.cookies.remove(j);
                node.cookies.insert(j, (name, attrs));
                proof {
                    assert(node.cookies@ =~= c0.update(j as int, entry));
                    assert(node.children@ == n0.children@);
                    assert(uniq_keys(node.cookies@)) by {
                        assert(forall|q: int|
                            0 <= q < c0.len() ==> node.cookies@[q].0@ == c0[q].0@);
                    }
                    assert forall|s: Seq<Seq<char>>, nm: Seq<char>|
                        #[trigger] pn_cookie(node, s, nm) == (if s == tail && nm
                            == attrs@.pair.name {
                            Some(attrs)
                        } else {
                            pn_cookie(n0, s, nm)
                        }) by {
                        if s.len() == 0 {
                            lemma_assoc_update(c0, j as int, entry, nm);
                            assert(s == tail);
                        } else {
                            assert(s != tail);
                        }
                    }
                }
            },
            None => {
                node.cookies.push((name, attrs));
                proof {
                    assert(node.cookies@ =~= c0.push(entry));
                    assert(node.children@ == n0.children@);
                    assert(uniq_keys(node.cookies@)) by {
                        assert(forall|q: int|
                            0 <= q < c0.len() ==> node.cookies@[q].0@ == c0[q].0@);
                        assert(node.cookies@[c0.len() as int].0@ == name@);
                    }
                    assert forall|s: Seq<Seq<char>>, nm: Seq<char>|
                        #[trigger] pn_cookie(node, s, nm) == (if s == tail && nm
                            == attrs@.pair.name {
                            Some(attrs)
                        } else {
                            pn_cookie(n0, s, nm)
                        }) by {
                        if s.len() == 0 {
                            lemma_assoc_push(c0, entry, nm);
                            lemma_assoc_absent(c0, name@);
                            assert(s == tail);
                        } else {
                            assert(s != tail);
                        }
                    }
                }
            },
        }
        node
    } else {
        let ghost ch0 = n0.children@;
        let key = &segs[i];
        proof {
            assert(tail[0] == segs.deep_view()[i as int]);
            assert(segs.deep_view()[i as int] == segs@[i as int]@);
            assert(tail.drop_first() =~= segs.deep_view().skip(i + 1));
        }
        match assoc_index(&node.children, key.as_str()) {
            Some(j) => {
                let (kstr, child) = node.children.remove(j);
                let ghost child0 = child;
                let child2 = pn_insert(child, segs, i + 1, attrs);
                node.children.insert(j, (kstr, child2));
                proof {
                    let ghost entry = (kstr, child2);
                    assert(node.children@ =~= ch0.update(j as int, entry));
                    assert(node.cookies@ == n0.cookies@);
                    assert(uniq_keys(node.children@)) by {
                        assert(forall|q: int|
                            0 <= q < ch0.len() ==> node.children@[q].0@ == ch0[q].0@);
                    }
                    assert(pn_wf(node)) by {
                        assert(forall|q: int|
                            0 <= q < node.children@.len() && q != j ==> node.children@[q]
                                == ch0[q]);
                    }
                    lemma_assoc_at(ch0, j as int);
                    assert(tail.len() == segs@.len() - i);
                    assert forall|s: Seq<Seq<char>>, nm: Seq<char>|
                        #[trigger] pn_cookie(node, s, nm) == (if s == tail && nm
                            == attrs@.pair.name {
                            Some(attrs)
                        } else {
                            pn_cookie(n0, s, nm)
                        }) by {
                        if s.len() == 0 {
                            assert(s != tail);
                            assert(pn_cookie(node, s, nm) == assoc_find(n0.cookies@, nm));
                            assert(pn_cookie(n0, s, nm) == assoc_find(n0.cookies@, nm));
                        } else {
                            lemma_assoc_update(ch0, j as int, entry, s[0]);
                            assert(node.children@ == ch0.update(j as int, entry));
                            if s[0] == ch0[j as int].0@ {
                                assert(assoc_find(node.children@, s[0]) == Some(child2));
                                assert(pn_cookie(node, s, nm) == pn_cookie(
                                    child2,
                                    s.drop_first(),
                                    nm,
                                ));
                                assert(assoc_find(n0.children@, s[0]) == Some(child0));
                                assert(pn_cookie(n0, s, nm) == pn_cookie(
                                    child0,
                                    s.drop_first(),
                                    nm,
                                ));
                                if s == tail {
                                    assert(s.drop_first() == tail.drop_first());
                                } else {
                                    if s.drop_first() == tail.drop_first() && s[0] == tail[0] {
                                        assert(s.len() == tail.len());
                                        assert forall|q: int| 0 <= q < s.len() implies s[q]
                                            == tail[q] by {
                                            if q > 0 {
                                                assert(s[q] == s.drop_first()[q - 1]);
                                                assert(tail[q] == tail.drop_first()[q - 1]);
                                            }
                                        }
                                        assert(s =~= tail);
                                    }
                                }
                            } else {
                                assert(s != tail);
                                assert(assoc_find(node.children@, s[0]) == assoc_find(
                                    n0.children@,
                                    s[0],
                                ));
                            }
                        }
                    }
                }
            },
            None => {
                let fresh = PathNode::empty();
                let child = pn_insert(fresh, segs, i + 1, attrs);
                let kstr = key.clone();
                node.children.push((kstr, child));
                proof {
                    let ghost entry = (kstr, child);
                    assert(node.children@ =~= ch0.push(entry));
                    assert(node.cookies@ == n0.cookies@);
                    lemma_assoc_absent(ch0, kstr@);
                    assert(uniq_keys(node.children@)) by {
                        assert(forall|q: int|
                            0 <= q < ch0.len() ==> node.children@[q].0@ == ch0[q].0@);
                        assert(node.children@[ch0.len() as int].0@ == kstr@);
                    }
                    assert(pn_wf(node)) by {
                        assert(forall|q: int|
                            0 <= q < ch0.len() ==> node.children@[q] == ch0[q]);
                    }
                    assert(tail.len() == segs@.len() - i);
                    assert forall|s: Seq<Seq<char>>, nm: Seq<char>|
                        #[trigger] pn_cookie(node, s, nm) == (if s == tail && nm
                            == attrs@.pair.name {
                            Some(attrs)
                        } else {
                            pn_cookie(n0, s, nm)
                        }) by {
                        if s.len() == 0 {
                            assert(s != tail);
                            assert(pn_cookie(node, s, nm) == assoc_find(n0.cookies@, nm));
                            assert(pn_cookie(n0, s, nm) == assoc_find(n0.cookies@, nm));
                        } else {
                            lemma_assoc_push(ch0, entry, s[0]);
                            assert(node.children@ == ch0.push(entry));
                            if s[0] == kstr@ {
                                lemma_assoc_absent(ch0, s[0]);
                                assert(assoc_find(node.children@, s[0]) == Some(child));
                                assert(pn_cookie(node, s, nm) == pn_cookie(
                                    child,
                                    s.drop_first(),
                                    nm,
                                ));
                                assert(pn_cookie(n0, s, nm) is None);
                                if s == tail {
                                    assert(s.drop_first() == tail.drop_first());
                                } else {
                                    if s.drop_first() == tail.drop_first() && s[0] == tail[0] {
                                        assert(s.len() == tail.len());
                                        assert forall|q: int| 0 <= q < s.len() implies s[q]
                                            == tail[q] by {
                                            if q > 0 {
                                                assert(s[q] == s.drop_first()[q - 1]);
                                                assert(tail[q] == tail.drop_first()[q - 1]);
                                            }
                                        }
                                        assert(s =~= tail);
                                    }
                                    assert(pn_cookie(child, s.drop_first(), nm) == (
                                    if s.drop_first() == segs.deep_view().skip(i + 1) && nm
                                        == attrs@.pair.name {
                                        Some(attrs)
                                    } else {
                                        pn_cookie(fresh, s.drop_first(), nm)
                                    }));
                                }
                            } else {
                                assert(s != tail);
                                assert(assoc_find(node.children@, s[0]) == assoc_find(
                                    n0.children@,
                                    s[0],
                                ));
                            }
                        }
                    }
                }
            },
        }
        node
    }
}

/// Inserts a cookie into the domain trie at the label list
/// `labels[..j]`, walking from the most specific label: exactly the slot
/// at (labels, path segments, name) changes, every other stored cookie
/// is untouched.
fn dn_insert(
    node: DomainNode,
    labels: &Vec<String>,
    j: usize,
    segs: &Vec<String>,
    attrs: Attributes,
) -> (r: DomainNode)
    requires
        j <= labels@.len(),
        dn_wf(node),
    ensures
        dn_wf(r),
        forall|ls: Seq<Seq<char>>, s: Seq<Seq<char>>, nm: Seq<char>|
            #[trigger] dn_cookie(r, ls, s, nm) == if ls == labels.deep_view().take(j as int) && s
                == segs.deep_view() && nm == attrs@.pair.name {
                Some(attrs)
            } else {
                dn_cookie(node, ls, s, nm)
            },
    decreases j,
{
    let ghost n0 = node;
    let ghost head = labels.deep_view().take(j as int);
    let mut node = node;
    if j == 0 {
        proof {
            assert(head =~= Seq::<Seq<char>>::empty());
        }
        let mut path = PathNode::empty();
        std::mem::swap(&mut path, &mut node.path);
        let ghost path0 = path;
        let path2 = pn_insert(path, segs, 0, attrs);
        node.path = path2;
        proof {
            assert(segs.deep_view().skip(0) =~= segs.deep_view());
            assert(node.children@ == n0.children@);
            assert(path0 == n0.path);
            assert forall|ls: Seq<Seq<char>>, s: Seq<Seq<char>>, nm: Seq<char>|
                #[trigger] dn_cookie(node, ls, s, nm) == (if ls == head && s == segs.deep_view()
                    && nm == attrs@.pair.name {
                    Some(attrs)
                } else {
                    dn_cookie(n0, ls, s, nm)
                }) by {
                if ls.len() == 0 {
                    assert(ls == head);
                    assert(dn_cookie(node, ls, s, nm) == pn_cookie(path2, s, nm));
                    assert(dn_cookie(n0, ls, s, nm) == pn_cookie(n0.path, s, nm));
                } else {
                    assert(ls != head);
                    assert(dn_cookie(node, ls, s, nm) == dn_cookie(n0, ls, s, nm)) by {
                        assert(assoc_find(node.children@, ls.last()) == assoc_find(
                            n0.children@,
                            ls.last(),
                        ));
                    }
                }
            }
        }
        node
    } else {
        let ghost ch0 = n0.children@;
        let key = &labels[j - 1];
        proof {
            assert(head.last() == labels.deep_view()[j - 1]);
            assert(labels.deep_view()[j - 1] == labels@[j - 1]@);
            assert(head.drop_last() =~= labels.deep_view().take(j - 1));
            assert(head.len() == j);
        }
        match assoc_index(&node.children, key.as_str()) {
            Some(jj) => {
                let (kstr, child) = node.children.remove(jj);
                let ghost child0 = child;
                let child2 = dn_insert(child, labels, j - 1, segs, attrs);
                node.children.insert(jj, (kstr, child2));
                proof {
                    let ghost entry = (kstr, child2);
                    assert(node.children@ =~= ch0.update(jj as int, entry));
                    assert(node.path == n0.path);
                    assert(uniq_keys(node.children@)) by {
                        assert(forall|q: int|
                            0 <= q < ch0.len() ==> node.children@[q].0@ == ch0[q].0@);
                    }
                    assert(dn_wf(node)) by {
                        assert(forall|q: int|
                            0 <= q < node.children@.len() && q != jj ==> node.children@[q]
                                == ch0[q]);
                    }
                    lemma_assoc_at(ch0, jj as int);
                    assert forall|ls: Seq<Seq<char>>, s: Seq<Seq<char>>, nm: Seq<char>|
                        #[trigger] dn_cookie(node, ls, s, nm) == (if ls == head && s
                            == segs.deep_view() && nm == attrs@.pair.name {
                            Some(attrs)
                        } else {
                            dn_cookie(n0, ls, s, nm)
                        }) by {
                        if ls.len() == 0 {
                            assert(ls != head);
                            assert(dn_cookie(node, ls, s, nm) == pn_cookie(n0.path, s, nm));
                            assert(dn_cookie(n0, ls, s, nm) == pn_cookie(n0.path, s, nm));
                        } else {
                            lemma_assoc_update(ch0, jj as int, entry, ls.last());
                            assert(node.children@ == ch0.update(jj as int, entry));
                            if ls.last() == ch0[jj as int].0@ {
                                assert(assoc_find(node.children@, ls.last()) == Some(child2));
                                assert(dn_cookie(node, ls, s, nm) == dn_cookie(
                                    child2,
                                    ls.drop_last(),
                                    s,
                                    nm,
                                ));
                                assert(assoc_find(n0.children@, ls.last()) == Some(child0));
                                assert(dn_cookie(n0, ls, s, nm) == dn_cookie(
                                    child0,
                                    ls.drop_last(),
                                    s,
                                    nm,
                                ));
                                if ls == head {
                                    assert(ls.drop_last() == head.drop_last());
                                } else {
                                    if ls.drop_last() == head.drop_last() && ls.last()
                                        == head.last() {
                                        assert(ls.len() == head.len());
                                        assert forall|q: int| 0 <= q < ls.len() implies ls[q]
                                            == head[q] by {
                                            if q < ls.len() - 1 {
                                                assert(ls[q] == ls.drop_last()[q]);
                                                assert(head[q] == head.drop_last()[q]);
                                            }
                                        }
                                        assert(ls =~= head);
                                    }
                                }
                            } else {
                                assert(ls != head);
                                assert(assoc_find(node.children@, ls.last()) == assoc_find(
                                    n0.children@,
                                    ls.last(),
                                ));
                            }
                        }
                    }
                }
            },
            None => {
                let fresh = DomainNode::empty();
                let child = dn_insert(fresh, labels, j - 1, segs, attrs);
                let kstr = key.clone();
                node.children.push((kstr, child));
                proof {
                    let ghost entry = (kstr, child);
                    assert(node.children@ =~= ch0.push(entry));
                    assert(node.path == n0.path);
                    lemma_assoc_absent(ch0, kstr@);
                    assert(uniq_keys(node.children@)) by {
                        assert(forall|q: int|
                            0 <= q < ch0.len() ==> node.children@[q].0@ == ch0[q].0@);
                        assert(node.children@[ch0.len() as int].0@ == kstr@);
                    }
                    assert(dn_wf(node)) by {
                        assert(forall|q: int|
                            0 <= q < ch0.len() ==> node.children@[q] == ch0[q]);
                    }
                    assert forall|ls: Seq<Seq<char>>, s: Seq<Seq<char>>, nm: Seq<char>|
                        #[trigger] dn_cookie(node, ls, s, nm) == (if ls == head && s
                            == segs.deep_view() && nm == attrs@.pair.name {
                            Some(attrs)
                        } else {
                            dn_cookie(n0, ls, s, nm)
                        }) by {
                        if ls.len() == 0 {
                            assert(ls != head);
                            assert(dn_cookie(node, ls, s, nm) == pn_cookie(n0.path, s, nm));
                            assert(dn_cookie(n0, ls, s, nm) == pn_cookie(n0.path, s, nm));
                        } else {
                            lemma_assoc_push(ch0, entry, ls.last());
                            assert(node.children@ == ch0.push(entry));
                            if ls.last() == kstr@ {
                                lemma_assoc_absent(ch0, ls.last());
                                assert(assoc_find(node.children@, ls.last()) == Some(child));
                                assert(dn_cookie(node, ls, s, nm) == dn_cookie(
                                    child,
                                    ls.drop_last(),
                                    s,
                                    nm,
                                ));
                                assert(dn_cookie(n0, ls, s, nm) is None);
                                if ls == head {
                                    assert(ls.drop_last() == head.drop_last());
                                } else {
                                    if ls.drop_last() == head.drop_last() && ls.last()
                                        == head.last() {
                                        assert(ls.len() == head.len());
                                        assert forall|q: int| 0 <= q < ls.len() implies ls[q]
                                            == head[q] by {
                                            if q < ls.len() - 1 {
                                                assert(ls[q] == ls.drop_last()[q]);
                                                assert(head[q] == head.drop_last()[q]);
                                            }
                                        }
                                        assert(ls =~= head);
                                    }
                                    assert(dn_cookie(child, ls.drop_last(), s, nm) == (
                                    if ls.drop_last() == labels.deep_view().take(j - 1) && s
                                        == segs.deep_view() && nm == attrs@.pair.name {
                                        Some(attrs)
                                    } else {
                                        dn_cookie(fresh, ls.drop_last(), s, nm)
                                    }));
                                }
                            } else {
                                assert(ls != head);
                                assert(assoc_find(node.children@, ls.last()) == assoc_find(
                                    n0.children@,
                                    ls.last(),
                                ));
                            }
                        }
                    }
                }
            },
        }
        node
    }
}

impl DomainNode {
    /// A node with nothing stored at or below it.
    fn empty() -> (r: DomainNode)
        ensures
            dn_wf(r),
            forall|ls: Seq<Seq<char>>, s: Seq<Seq<char>>, nm: Seq<char>|
                dn_cookie(r, ls, s, nm) is None,
    {
        let r = DomainNode { path: PathNode::empty(), children: Vec::new() };
        proof {
            assert forall|ls: Seq<Seq<char>>, s: Seq<Seq<char>>, nm: Seq<char>|
                dn_cookie(r, ls, s, nm) is None by {
                if ls.len() == 0 {
                } else {
                }
            }
        }
        r
    }
}

/// A jar of cookies: the domain trie, the side table for IP-literal
/// hosts, and the injected clock.
pub struct Jar<T: Clock> {
    clock: T,
    domain: DomainNode,
    hosts: Vec<(String, PathNode)>,
}

/// The cookie a jar stores under a host, a stored path-segment list and
/// a name, where it stores one.  Hosts are keyed by their label list,
/// IP literals by their canonical text.
pub closed spec fn jar_cookie<T: Clock>(
    jar: Jar<T>,
    h: HostView,
    stored: Seq<Seq<char>>,
    name: Seq<char>,
) -> Option<Attributes> {
    match h {
        HostView::Domain(d) => dn_cookie(jar.domain, spec_domain_labels(d), stored, name),
        HostView::Ip(a) => match assoc_find(jar.hosts@, a) {
            None => None,
            Some(pn) => pn_cookie(pn, stored, name),
        },
    }
}

/// Two hosts address the same jar slot: domain names with the same label
/// list, or the same IP literal.
pub open spec fn same_host_key(a: HostView, b: HostView) -> bool {
    match (a, b) {
        (HostView::Domain(x), HostView::Domain(y)) => spec_domain_labels(x)
            == spec_domain_labels(y),
        (HostView::Ip(x), HostView::Ip(y)) => x == y,
        _ => false,
    }
}

/// What adding a cookie does to a jar: the slot under the cookie's host
/// key, path segments and name holds the cookie's attributes, and every
/// other slot is unchanged.
pub open spec fn jar_add_rel<T: Clock>(j0: Jar<T>, c: Cookie, j1: Jar<T>) -> bool {
    &&& forall|h: HostView, s: Seq<Seq<char>>, nm: Seq<char>|
        !(same_host_key(h, c@.host) && s == spec_path_segments(c@.path) && nm
            == c@.attributes.pair.name) ==> #[trigger] jar_cookie(j1, h, s, nm) == jar_cookie(
            j0,
            h,
            s,
            nm,
        )
    &&& forall|h: HostView|
        #![trigger same_host_key(h, c@.host)]
        same_host_key(h, c@.host) ==> {
            let found = jar_cookie(j1, h, spec_path_segments(c@.path), c@.attributes.pair.name);
            found matches Some(a) && a@ == c@.attributes
        }
}

impl<T: Clock> Jar<T> {
    /// Keys are unique at every level of both tries.  Every jar that the
    /// constructors and `add_cookie` can produce satisfies this.
    pub closed spec fn wf(self) -> bool {
        &&& dn_wf(self.domain)
        &&& uniq_keys(self.hosts@)
        &&& forall|i: int| 0 <= i < self.hosts@.len() ==> pn_wf(#[trigger] self.hosts@[i].1)
    }

    #[verifier::type_invariant]
    spec fn inv(self) -> bool {
        self.wf()
    }

    /// Creates an empty jar that reads the system clock.
    pub fn new() -> (r: Jar<SystemClock>)
        ensures
            r.wf(),
            forall|h: HostView, s: Seq<Seq<char>>, nm: Seq<char>|
                jar_cookie(r, h, s, nm) is None,
    {
        Jar::<SystemClock>::with_clock(SystemClock)
    }

    /// Creates an empty jar with the given time source.
    pub fn with_clock(clock: T) -> (r: Jar<T>)
        ensures
            r.wf(),
            forall|h: HostView, s: Seq<Seq<char>>, nm: Seq<char>|
                jar_cookie(r, h, s, nm) is None,
    {
        let r = Jar { clock, domain: DomainNode::empty(), hosts: Vec::new() };
        proof {
            assert forall|h: HostView, s: Seq<Seq<char>>, nm: Seq<char>|
                jar_cookie(r, h, s, nm) is None by {
                if h is Ip {
                    assert(assoc_find(r.hosts@, h->Ip_0) is None);
                }
            }
        }
        r
    }

    /// Adds a cookie to the jar: the slot under its host, path and name
    /// takes the cookie's attributes, replacing any earlier value there;
    /// every other slot is untouched.
    pub fn add_cookie(&mut self, cookie: Cookie)
        ensures
            final(self).wf(),
            jar_add_rel(*old(self), cookie, *final(self)),
    {
        proof {
            use_type_invariant(&*self);
        }
        let (host, path, attrs) = cookie.explode();
        let ghost attrs0 = attrs;
        let segs = split_text(path.as_str(), CharClass::PathSegment);
        match host {
            Host::Domain(d) => {
                let labels = split_text(d.as_str(), CharClass::DomainLabel);
                proof {
                    assert(labels.deep_view().take(labels@.len() as int) =~= labels.deep_view());
                }
                let mut dom = DomainNode::empty();
                std::mem::swap(&mut dom, &mut self.domain);
                let n = labels.len();
                let dom2 = dn_insert(dom, &labels, n, &segs, attrs);
                self.domain = dom2;
            },
            Host::Ip(a) => {
                let ghost hosts0 = self.hosts@;
                let mut hosts: Vec<(String, PathNode)> = Vec::new();
                std::mem::swap(&mut hosts, &mut self.hosts);
                match assoc_index(&hosts, a.as_str()) {
                    Some(j) => {
                        let (kstr, pn) = hosts.remove(j);
                        let ghost pn0 = pn;
                        let pn2 = pn_insert(pn, &segs, 0, attrs);
                        hosts.insert(j, (kstr, pn2));
                        self.hosts = hosts;
                        proof {
                            let ghost entry = (kstr, pn2);
                            assert(self.hosts@ =~= hosts0.update(j as int, entry));
                            assert(uniq_keys(self.hosts@)) by {
                                assert(forall|q: int|
                                    0 <= q < hosts0.len() ==> self.hosts@[q].0@ == hosts0[q].0@);
                            }
                            assert(forall|q: int|
                                0 <= q < self.hosts@.len() && q != j ==> self.hosts@[q]
                                    == hosts0[q]);
                            lemma_assoc_at(hosts0, j as int);
                            assert forall|k: Seq<char>| true implies #[trigger] assoc_find(
                                self.hosts@,
                                k,
                            ) == (if k == a@ {
                                Some(pn2)
                            } else {
                                assoc_find(hosts0, k)
                            }) by {
                                lemma_assoc_update(hosts0, j as int, entry, k);
                            }
                            assert(segs.deep_view().skip(0) =~= segs.deep_view());
                        }
                    },
                    None => {
                        let fresh = PathNode::empty();
                        let pn2 = pn_insert(fresh, &segs, 0, attrs);
                        hosts.push((a, pn2));
                        self.hosts = hosts;
                        proof {
                            let ghost entry = (a, pn2);
                            assert(self.hosts@ =~= hosts0.push(entry));
                            lemma_assoc_absent(hosts0, a@);
                            assert(uniq_keys(self.hosts@)) by {
                                assert(forall|q: int|
                                    0 <= q < hosts0.len() ==> self.hosts@[q].0@ == hosts0[q].0@);
                                assert(self.hosts@[hosts0.len() as int].0@ == a@);
                            }
                            assert(forall|q: int|
                                0 <= q < hosts0.len() ==> self.hosts@[q] == hosts0[q]);
                            assert forall|k: Seq<char>| true implies #[trigger] assoc_find(
                                self.hosts@,
                                k,
                            ) == (if k == a@ {
                                Some(pn2)
                            } else {
                                assoc_find(hosts0, k)
                            }) by {
                                lemma_assoc_push(hosts0, entry, k);
                                if k == a@ {
                                } else {
                                    if assoc_find(hosts0, k) is None {
                                    }
                                }
                            }
                            assert(segs.deep_view().skip(0) =~= segs.deep_view());
                        }
                    },
                }
            },
        }
    }
}

/// The pair views of the cookies of the list that the host filter
/// admits (`exact` requests admit everything, others only cookies that
/// are not host-only), in list order.
pub closed spec fn cookies_here(l: Seq<(String, Attributes)>, exact: bool) -> Seq<CookiePairView>
    decreases l.len(),
{
    if l.len() == 0 {
        Seq::empty()
    } else {
        cookies_here(l.drop_last(), exact) + if exact || !l.last().1@.host_only {
            seq![l.last().1@.pair]
        } else {
            Seq::empty()
        }
    }
}

/// The pairs a path trie contributes to a request: at each node along
/// the request's segment chain, the cookies the filter admits.
pub closed spec fn pn_collected(n: PathNode, req: Seq<Seq<char>>, exact: bool) -> Seq<
    CookiePairView,
>
    decreases req.len(),
{
    let here = cookies_here(n.cookies@, exact);
    if req.len() == 0 {
        here
    } else {
        match assoc_find(n.children@, req[0]) {
            None => here,
            Some(c) => here + pn_collected(c, req.drop_first(), exact),
        }
    }
}

/// The pairs a domain trie yields for a request: walking from the root
/// towards the node of the request's labels, every strict ancestor
/// contributes its non-host-only cookies, the exact node all of them.
pub closed spec fn dn_collected(
    d: DomainNode,
    labels: Seq<Seq<char>>,
    req: Seq<Seq<char>>,
) -> Seq<CookiePairView>
    decreases labels.len(),
{
    if labels.len() == 0 {
        pn_collected(d.path, req, true)
    } else {
        pn_collected(d.path, req, false) + match assoc_find(d.children@, labels.last()) {
            None => Seq::empty(),
            Some(c) => dn_collected(c, labels.drop_last(), req),
        }
    }
}

/// What a lookup for a request host and path yields: the pairs of every
/// stored cookie scoped to that request, in storage walk order.
pub closed spec fn jar_matches<T: Clock>(jar: Jar<T>, h: HostView, path: Seq<char>) -> Seq<
    CookiePairView,
> {
    match h {
        HostView::Domain(d) => dn_collected(
            jar.domain,
            spec_domain_labels(d),
            spec_path_segments(path),
        ),
        HostView::Ip(a) => match assoc_find(jar.hosts@, a) {
            None => Seq::empty(),
            Some(pn) => pn_collected(pn, spec_path_segments(path), true),
        },
    }
}

/// Collects the admitted cookies stored at this node.
fn collect_here(n: &PathNode, exact: bool, out: &mut Vec<CookiePair>)
    ensures
        final(out)@.len() == old(out)@.len() + cookies_here(n.cookies@, exact).len(),
        forall|q: int| 0 <= q < old(out)@.len() ==> final(out)@[q] == old(out)@[q],
        forall|q: int|
            0 <= q < cookies_here(n.cookies@, exact).len() ==> final(out)@[old(out)@.len() + q]@
                == cookies_here(n.cookies@, exact)[q],
{
    let len = n.cookies.len();
    let mut k: usize = 0;
    proof {
        assert(cookies_here(n.cookies@.take(0), exact) =~= Seq::<CookiePairView>::empty());
    }
    while k < len
        invariant
            0 <= k <= len,
            len == n.cookies@.len(),
            out@.len() == old(out)@.len() + cookies_here(n.cookies@.take(k as int), exact).len(),
            forall|q: int| 0 <= q < old(out)@.len() ==> out@[q] == old(out)@[q],
            forall|q: int|
                0 <= q < cookies_here(n.cookies@.take(k as int), exact).len() ==> out@[old(
                    out,
                )@.len() + q]@ == cookies_here(n.cookies@.take(k as int), exact)[q],
        decreases len - k,
    {
        proof {
            assert(n.cookies@.take(k + 1).drop_last() =~= n.cookies@.take(k as int));
            assert(n.cookies@.take(k + 1).last() == n.cookies@[k as int]);
        }
        let keep = exact || !n.cookies[k].1.host_only();
        if keep {
            out.push(n.cookies[k].1.pair().clone());
        }
        k = k + 1;
    }
    proof {
        assert(n.cookies@.take(len as int) =~= n.cookies@);
    }
}

/// Collects from the path trie everything it contributes to the request
/// segments `segs[i..]`.
fn pn_collect(n: &PathNode, segs: &Vec<String>, i: usize, exact: bool, out: &mut Vec<CookiePair>)
    requires
        i <= segs@.len(),
    ensures
        final(out)@.len() == old(out)@.len() + pn_collected(
            *n,
            segs.deep_view().skip(i as int),
            exact,
        ).len(),
        forall|q: int| 0 <= q < old(out)@.len() ==> final(out)@[q] == old(out)@[q],
        forall|q: int|
            0 <= q < pn_collected(*n, segs.deep_view().skip(i as int), exact).len()
                ==> final(out)@[old(out)@.len() + q]@ == pn_collected(
                *n,
                segs.deep_view().skip(i as int),
                exact,
            )[q],
    decreases segs@.len() - i,
{
    let ghost req = segs.deep_view().skip(i as int);
    collect_here(n, exact, out);
    if i < segs.len() {
        proof {
            assert(req[0] == segs.deep_view()[i as int]);
            assert(segs.deep_view()[i as int] == segs@[i as int]@);
            assert(req.drop_first() =~= segs.deep_view().skip(i + 1));
        }
        let key = &segs[i];
        match assoc_index(&n.children, key.as_str()) {
            Some(j) => {
                proof {
                    lemma_assoc_at(n.children@, j as int);
                }
                pn_collect(&n.children[j].1, segs, i + 1, exact, out);
            },
            None => {
                proof {
                    lemma_assoc_absent(n.children@, req[0]);
                }
            },
        }
    } else {
        proof {
            assert(req.len() == 0);
        }
    }
}

/// Collects from the domain trie everything it yields for the request:
/// walks towards the node of `labels[..j]`, taking at each node what the
/// host filter admits.
fn dn_collect(
    d: &DomainNode,
    labels: &Vec<String>,
    j: usize,
    segs: &Vec<String>,
    out: &mut Vec<CookiePair>,
)
    requires
        j <= labels@.len(),
    ensures
        final(out)@.len() == old(out)@.len() + dn_collected(
            *d,
            labels.deep_view().take(j as int),
            segs.deep_view(),
        ).len(),
        forall|q: int| 0 <= q < old(out)@.len() ==> final(out)@[q] == old(out)@[q],
        forall|q: int|
            0 <= q < dn_collected(*d, labels.deep_view().take(j as int), segs.deep_view()).len()
                ==> final(out)@[old(out)@.len() + q]@ == dn_collected(
                *d,
                labels.deep_view().take(j as int),
                segs.deep_view(),
            )[q],
    decreases j,
{
    let ghost head = labels.deep_view().take(j as int);
    proof {
        assert(segs.deep_view().skip(0) =~= segs.deep_view());
    }
    if j == 0 {
        proof {
            assert(head.len() == 0);
        }
        pn_collect(&d.path, segs, 0, true, out);
    } else {
        proof {
            assert(head.last() == labels.deep_view()[j - 1]);
            assert(labels.deep_view()[j - 1] == labels@[j - 1]@);
            assert(head.drop_last() =~= labels.deep_view().take(j - 1));
        }
        pn_collect(&d.path, segs, 0, false, out);
        let key = &labels[j - 1];
        match assoc_index(&d.children, key.as_str()) {
            Some(idx) => {
                proof {
                    lemma_assoc_at(d.children@, idx as int);
                }
                dn_collect(&d.children[idx].1, labels, j - 1, segs, out);
            },
            None => {
                proof {
                    lemma_assoc_absent(d.children@, head.last());
                }
            },
        }
    }
}

impl<T: Clock> Jar<T> {
    /// Returns the pairs of all stored cookies scoped to the request
    /// host and path, in storage walk order; the jar defines no
    /// precedence ordering among them.  `lemma_url_matches_complete`,
    /// `lemma_url_matches_sound` and `lemma_url_matches_injective` state
    /// what `jar_matches` holds: every scoped cookie appears, everything
    /// that appears comes from a scoped cookie, and no stored cookie
    /// contributes more than one pair.
    pub fn url_matches(&self, host: &Host, path: &str) -> (r: Vec<CookiePair>)
        ensures
            r@.len() == jar_matches(*self, host@, path@).len(),
            forall|q: int|
                0 <= q < r@.len() ==> r@[q]@ == jar_matches(*self, host@, path@)[q],
    {
        let segs = split_text(path, CharClass::PathSegment);
        let mut out: Vec<CookiePair> = Vec::new();
        match host {
            Host::Domain(d) => {
                let labels = split_text(d.as_str(), CharClass::DomainLabel);
                proof {
                    assert(labels.deep_view().take(labels@.len() as int) =~= labels.deep_view());
                }
                let n = labels.len();
                dn_collect(&self.domain, &labels, n, &segs, &mut out);
            },
            Host::Ip(a) => {
                match assoc_index(&self.hosts, a.as_str()) {
                    Some(j) => {
                        proof {
                            lemma_assoc_at(self.hosts@, j as int);
                        }
                        pn_collect(&self.hosts[j].1, &segs, 0, true, &mut out);
                        proof {
                            assert(segs.deep_view().skip(0) =~= segs.deep_view());
                        }
                    },
                    None => {
                        proof {
                            lemma_assoc_absent(self.hosts@, a@);
                        }
                    },
                }
            },
        }
        out
    }
}

/// `p` is a prefix of `w`, segment for segment.
pub open spec fn is_prefix(p: Seq<Seq<char>>, w: Seq<Seq<char>>) -> bool {
    p.len() <= w.len() && p == w.take(p.len() as int)
}

/// `sfx` is a suffix of `w`, segment for segment.
pub open spec fn is_suffix(sfx: Seq<Seq<char>>, w: Seq<Seq<char>>) -> bool {
    sfx.len() <= w.len() && sfx == w.skip(w.len() - sfx.len())
}

/// An element of the left part of a concatenation is in the whole.
proof fn lemma_contains_left<A>(a: Seq<A>, b: Seq<A>, x: A)
    requires
        a.contains(x),
    ensures
        (a + b).contains(x),
{
    let k = choose|k: int| 0 <= k < a.len() && a[k] == x;
    assert((a + b)[k] == x);
}

/// An element of the right part of a concatenation is in the whole.
proof fn lemma_contains_right<A>(a: Seq<A>, b: Seq<A>, x: A)
    requires
        b.contains(x),
    ensures
        (a + b).contains(x),
{
    let k = choose|k: int| 0 <= k < b.len() && b[k] == x;
    assert((a + b)[a.len() + k] == x);
}

/// A found value sits at some index of the list, under the key.
proof fn lemma_assoc_find_some<V>(l: Seq<(String, V)>, key: Seq<char>)
    requires
        assoc_find(l, key) is Some,
    ensures
        exists|i: int|
            0 <= i < l.len() && l[i].0@ == key && l[i].1 == assoc_find(l, key)->Some_0,
    decreases l.len(),
{
    if l.len() > 0 && l[0].0@ != key {
        lemma_assoc_find_some(l.drop_first(), key);
        let i = choose|i: int|
            0 <= i < l.drop_first().len() && l.drop_first()[i].0@ == key && l.drop_first()[i].1
                == assoc_find(l.drop_first(), key)->Some_0;
        assert(l[i + 1] == l.drop_first()[i]);
    }
}

/// A cookie of the list that the filter admits has its pair in the
/// node's contribution.
proof fn lemma_cookies_here_complete(l: Seq<(String, Attributes)>, exact: bool, i: int)
    requires
        0 <= i < l.len(),
        exact || !l[i].1@.host_only,
    ensures
        cookies_here(l, exact).contains(l[i].1@.pair),
    decreases l.len(),
{
    let pre = cookies_here(l.drop_last(), exact);
    if i == l.len() - 1 {
        assert(cookies_here(l, exact)[pre.len() as int] == l[i].1@.pair);
    } else {
        assert(l.drop_last()[i] == l[i]);
        lemma_cookies_here_complete(l.drop_last(), exact, i);
        let k = choose|k: int| 0 <= k < pre.len() && pre[k] == l[i].1@.pair;
        assert(cookies_here(l, exact)[k] == l[i].1@.pair);
    }
}


/// The index of the stored cookie that yields element `q` of a node's
/// contribution.
pub closed spec fn here_source(l: Seq<(String, Attributes)>, exact: bool, q: int) -> int
    decreases l.len(),
{
    if l.len() == 0 {
        0
    } else {
        let pre = cookies_here(l.drop_last(), exact);
        if q < pre.len() {
            here_source(l.drop_last(), exact, q)
        } else {
            l.len() - 1
        }
    }
}

/// Element `q` of a node's contribution is the pair of the cookie at its
/// source index, and the filter admits that cookie.
proof fn lemma_here_source(l: Seq<(String, Attributes)>, exact: bool, q: int)
    requires
        0 <= q < cookies_here(l, exact).len(),
    ensures
        0 <= here_source(l, exact, q) < l.len(),
        exact || !l[here_source(l, exact, q)].1@.host_only,
        cookies_here(l, exact)[q] == l[here_source(l, exact, q)].1@.pair,
    decreases l.len(),
{
    let pre = cookies_here(l.drop_last(), exact);
    if q < pre.len() {
        lemma_here_source(l.drop_last(), exact, q);
        assert(l.drop_last()[here_source(l, exact, q)] == l[here_source(l, exact, q)]);
        assert(cookies_here(l, exact)[q] == pre[q]);
    } else {
        assert(q == pre.len());
        assert(exact || !l[l.len() - 1].1@.host_only);
        assert(cookies_here(l, exact)[q] == l[l.len() - 1].1@.pair);
    }
}

/// Later elements of a node's contribution come from later list indices.
proof fn lemma_here_source_mono(l: Seq<(String, Attributes)>, exact: bool, q1: int, q2: int)
    requires
        0 <= q1 < q2 < cookies_here(l, exact).len(),
    ensures
        here_source(l, exact, q1) < here_source(l, exact, q2),
    decreases l.len(),
{
    let pre = cookies_here(l.drop_last(), exact);
    if q2 < pre.len() {
        lemma_here_source_mono(l.drop_last(), exact, q1, q2);
    } else {
        assert(q2 == pre.len());
        assert(q1 < pre.len());
        lemma_here_source(l.drop_last(), exact, q1);
        assert(here_source(l, exact, q1) < l.len() - 1);
    }
}

/// A cookie stored in the path trie at a prefix of the request path and
/// admitted by the host filter appears in the trie's contribution.
proof fn lemma_pn_complete(
    n: PathNode,
    req: Seq<Seq<char>>,
    exact: bool,
    stored: Seq<Seq<char>>,
    nm: Seq<char>,
)
    requires
        pn_wf(n),
        is_prefix(stored, req),
        pn_cookie(n, stored, nm) is Some,
        exact || !pn_cookie(n, stored, nm)->Some_0@.host_only,
    ensures
        pn_collected(n, req, exact).contains(pn_cookie(n, stored, nm)->Some_0@.pair),
    decreases stored.len(),
{
    let a = pn_cookie(n, stored, nm)->Some_0;
    let here = cookies_here(n.cookies@, exact);
    if stored.len() == 0 {
        lemma_assoc_find_some(n.cookies@, nm);
        let i = choose|i: int|
            0 <= i < n.cookies@.len() && n.cookies@[i].0@ == nm && n.cookies@[i].1 == a;
        lemma_cookies_here_complete(n.cookies@, exact, i);
        if req.len() == 0 {
        } else {
            match assoc_find(n.children@, req[0]) {
                None => {},
                Some(c) => {
                    lemma_contains_left(here, pn_collected(c, req.drop_first(), exact), a@.pair);
                },
            }
        }
    } else {
        assert(stored[0] == req.take(stored.len() as int)[0]);
        assert(stored[0] == req[0]);
        let c = assoc_find(n.children@, stored[0])->Some_0;
        lemma_assoc_find_some(n.children@, stored[0]);
        let i = choose|i: int|
            0 <= i < n.children@.len() && n.children@[i].0@ == stored[0] && n.children@[i].1 == c;
        assert(pn_wf(c));
        assert(is_prefix(stored.drop_first(), req.drop_first())) by {
            assert(stored.drop_first() =~= req.drop_first().take(stored.len() - 1)) by {
                assert(forall|k: int|
                    0 <= k < stored.len() - 1 ==> stored.drop_first()[k] == stored[k + 1]);
                assert(forall|k: int|
                    0 <= k < stored.len() - 1 ==> #[trigger] req.drop_first().take(
                        stored.len() - 1,
                    )[k] == req[k + 1]);
                assert(forall|k: int|
                    0 <= k < stored.len() ==> stored[k] == req.take(stored.len() as int)[k]);
            }
        }
        assert(pn_cookie(c, stored.drop_first(), nm) == Some(a));
        lemma_pn_complete(c, req.drop_first(), exact, stored.drop_first(), nm);
        lemma_contains_right(here, pn_collected(c, req.drop_first(), exact), a@.pair);
    }
}

/// A stored cookie of the path trie that explains one pair of its
/// contribution: its path is a prefix of the request path, the filter
/// admits it, and its pair is the one returned.
pub closed spec fn pn_match(
    n: PathNode,
    req: Seq<Seq<char>>,
    exact: bool,
    stored: Seq<Seq<char>>,
    nm: Seq<char>,
    p: CookiePairView,
) -> bool {
    is_prefix(stored, req) && match pn_cookie(n, stored, nm) {
        Some(a) => (exact || !a@.host_only) && p == a@.pair,
        None => false,
    }
}

/// The stored slot — path segments and name — that yields element `q`
/// of the path trie's contribution.
pub closed spec fn pn_source(n: PathNode, req: Seq<Seq<char>>, exact: bool, q: int) -> (
    Seq<Seq<char>>,
    Seq<char>,
)
    decreases req.len(),
{
    let here = cookies_here(n.cookies@, exact);
    if q < here.len() {
        (Seq::empty(), n.cookies@[here_source(n.cookies@, exact, q)].0@)
    } else if req.len() == 0 {
        (Seq::empty(), Seq::empty())
    } else {
        match assoc_find(n.children@, req[0]) {
            None => (Seq::empty(), Seq::empty()),
            Some(c) => {
                let sub = pn_source(c, req.drop_first(), exact, q - here.len());
                (seq![req[0]] + sub.0, sub.1)
            },
        }
    }
}

/// Element `q` of the path trie's contribution is explained by its
/// source slot.
proof fn lemma_pn_source(n: PathNode, req: Seq<Seq<char>>, exact: bool, q: int)
    requires
        pn_wf(n),
        0 <= q < pn_collected(n, req, exact).len(),
    ensures
        pn_match(
            n,
            req,
            exact,
            pn_source(n, req, exact, q).0,
            pn_source(n, req, exact, q).1,
            pn_collected(n, req, exact)[q],
        ),
    decreases req.len(),
{
    let col = pn_collected(n, req, exact);
    let here = cookies_here(n.cookies@, exact);
    if q < here.len() {
        assert(col[q] == here[q]);
        lemma_here_source(n.cookies@, exact, q);
        let i = here_source(n.cookies@, exact, q);
        lemma_assoc_at(n.cookies@, i);
        assert(req.take(0) =~= Seq::<Seq<char>>::empty());
        assert(pn_match(n, req, exact, Seq::empty(), n.cookies@[i].0@, col[q]));
    } else {
        let c = assoc_find(n.children@, req[0])->Some_0;
        lemma_assoc_find_some(n.children@, req[0]);
        let i = choose|i: int|
            0 <= i < n.children@.len() && n.children@[i].0@ == req[0] && n.children@[i].1 == c;
        assert(pn_wf(c));
        let sub = pn_collected(c, req.drop_first(), exact);
        assert(col[q] == sub[q - here.len()]);
        lemma_pn_source(c, req.drop_first(), exact, q - here.len());
        let src = pn_source(c, req.drop_first(), exact, q - here.len());
        let stored0 = src.0;
        let nm = src.1;
        let stored = seq![req[0]] + stored0;
        assert(stored[0] == req[0]);
        assert(stored.drop_first() =~= stored0);
        assert(pn_cookie(n, stored, nm) == pn_cookie(c, stored0, nm));
        assert(is_prefix(stored, req)) by {
            assert(stored =~= req.take(stored.len() as int)) by {
                assert(forall|k: int|
                    0 <= k < stored0.len() ==> stored0[k] == req.drop_first().take(
                        stored0.len() as int,
                    )[k]);
                assert(forall|k: int|
                    1 <= k < stored.len() ==> stored[k] == stored0[k - 1]);
                assert(forall|k: int|
                    1 <= k < stored.len() ==> #[trigger] req.take(stored.len() as int)[k]
                        == req.drop_first()[k - 1]);
            }
        }
        assert(pn_match(n, req, exact, stored, nm, col[q]));
    }
}

/// Distinct elements of the path trie's contribution come from distinct
/// stored slots.
proof fn lemma_pn_source_injective(n: PathNode, req: Seq<Seq<char>>, exact: bool, q1: int, q2: int)
    requires
        pn_wf(n),
        0 <= q1 < q2 < pn_collected(n, req, exact).len(),
    ensures
        pn_source(n, req, exact, q1) != pn_source(n, req, exact, q2),
    decreases req.len(),
{
    let col = pn_collected(n, req, exact);
    let here = cookies_here(n.cookies@, exact);
    if q2 < here.len() {
        lemma_here_source(n.cookies@, exact, q1);
        lemma_here_source(n.cookies@, exact, q2);
        lemma_here_source_mono(n.cookies@, exact, q1, q2);
        let i1 = here_source(n.cookies@, exact, q1);
        let i2 = here_source(n.cookies@, exact, q2);
        assert(n.cookies@[i1].0@ != n.cookies@[i2].0@);
    } else {
        let c = assoc_find(n.children@, req[0])->Some_0;
        lemma_assoc_find_some(n.children@, req[0]);
        let i = choose|i: int|
            0 <= i < n.children@.len() && n.children@[i].0@ == req[0] && n.children@[i].1 == c;
        assert(pn_wf(c));
        if q1 < here.len() {
            let sub = pn_source(c, req.drop_first(), exact, q2 - here.len());
            assert(pn_source(n, req, exact, q1).0.len() == 0);
            assert(pn_source(n, req, exact, q2).0 == seq![req[0]] + sub.0);
            assert(pn_source(n, req, exact, q2).0.len() >= 1);
        } else {
            lemma_pn_source_injective(c, req.drop_first(), exact, q1 - here.len(), q2 - here.len());
            let s1 = pn_source(c, req.drop_first(), exact, q1 - here.len());
            let s2 = pn_source(c, req.drop_first(), exact, q2 - here.len());
            if pn_source(n, req, exact, q1) == pn_source(n, req, exact, q2) {
                assert((seq![req[0]] + s1.0).drop_first() =~= s1.0);
                assert((seq![req[0]] + s2.0).drop_first() =~= s2.0);
                assert(s1.0 == s2.0);
                assert(s1.1 == s2.1);
                assert(s1 == s2);
            }
        }
    }
}


/// A stored cookie of the domain trie that explains one returned pair:
/// its domain labels are a suffix of the request's, its path a prefix of
/// the request path, and a host-only cookie sits at the exact node.
pub closed spec fn dn_match(
    d: DomainNode,
    labels: Seq<Seq<char>>,
    req: Seq<Seq<char>>,
    ls: Seq<Seq<char>>,
    ss: Seq<Seq<char>>,
    nm: Seq<char>,
    p: CookiePairView,
) -> bool {
    is_suffix(ls, labels) && is_prefix(ss, req) && match dn_cookie(d, ls, ss, nm) {
        Some(a) => (ls == labels || !a@.host_only) && p == a@.pair,
        None => false,
    }
}

/// A cookie stored in the domain trie under a suffix of the request's
/// labels — the whole label list for host-only cookies — and a prefix of
/// the request path appears in the lookup.
proof fn lemma_dn_complete(
    d: DomainNode,
    labels: Seq<Seq<char>>,
    req: Seq<Seq<char>>,
    ls: Seq<Seq<char>>,
    ss: Seq<Seq<char>>,
    nm: Seq<char>,
)
    requires
        dn_wf(d),
        is_suffix(ls, labels),
        is_prefix(ss, req),
        dn_cookie(d, ls, ss, nm) is Some,
        ls == labels || !dn_cookie(d, ls, ss, nm)->Some_0@.host_only,
    ensures
        dn_collected(d, labels, req).contains(dn_cookie(d, ls, ss, nm)->Some_0@.pair),
    decreases labels.len(),
{
    let a = dn_cookie(d, ls, ss, nm)->Some_0;
    if labels.len() == 0 {
        assert(ls =~= Seq::<Seq<char>>::empty());
        assert(ls == labels);
        lemma_pn_complete(d.path, req, true, ss, nm);
    } else {
        let here = pn_collected(d.path, req, false);
        if ls.len() == 0 {
            assert(ls != labels);
            lemma_pn_complete(d.path, req, false, ss, nm);
            match assoc_find(d.children@, labels.last()) {
                None => {
                    lemma_contains_left(here, Seq::<CookiePairView>::empty(), a@.pair);
                },
                Some(c) => {
                    lemma_contains_left(here, dn_collected(c, labels.drop_last(), req), a@.pair);
                },
            }
        } else {
            assert(ls.last() == labels.last()) by {
                assert(ls[ls.len() - 1] == labels.skip(labels.len() - ls.len())[ls.len() - 1]);
            }
            let c = assoc_find(d.children@, ls.last())->Some_0;
            lemma_assoc_find_some(d.children@, ls.last());
            let i = choose|i: int|
                0 <= i < d.children@.len() && d.children@[i].0@ == ls.last() && d.children@[i].1
                    == c;
            assert(dn_wf(c));
            assert(is_suffix(ls.drop_last(), labels.drop_last())) by {
                assert(ls.drop_last() =~= labels.drop_last().skip(
                    labels.len() - 1 - (ls.len() - 1),
                )) by {
                    assert(forall|k: int|
                        0 <= k < ls.len() ==> ls[k] == labels.skip(labels.len() - ls.len())[k]);
                    assert(forall|k: int|
                        0 <= k < ls.len() - 1 ==> #[trigger] labels.drop_last().skip(
                            labels.len() - ls.len(),
                        )[k] == labels[labels.len() - ls.len() + k]);
                }
            }
            if ls == labels {
                assert(ls.drop_last() =~= labels.drop_last());
            }
            if ls.drop_last() == labels.drop_last() {
                assert(ls =~= labels) by {
                    assert(forall|k: int|
                        0 <= k < ls.len() - 1 ==> ls[k] == ls.drop_last()[k]);
                    assert(forall|k: int|
                        0 <= k < labels.len() - 1 ==> labels[k] == labels.drop_last()[k]);
                }
            }
            assert(dn_cookie(c, ls.drop_last(), ss, nm) == Some(a));
            lemma_dn_complete(c, labels.drop_last(), req, ls.drop_last(), ss, nm);
            lemma_contains_right(here, dn_collected(c, labels.drop_last(), req), a@.pair);
        }
    }
}

/// The stored slot — domain labels, path segments and name — that
/// yields element `q` of the domain trie's lookup.
pub closed spec fn dn_source(d: DomainNode, labels: Seq<Seq<char>>, req: Seq<Seq<char>>, q: int)
    -> (Seq<Seq<char>>, Seq<Seq<char>>, Seq<char>)
    decreases labels.len(),
{
    if labels.len() == 0 {
        let sub = pn_source(d.path, req, true, q);
        (Seq::empty(), sub.0, sub.1)
    } else {
        let here = pn_collected(d.path, req, false);
        if q < here.len() {
            let sub = pn_source(d.path, req, false, q);
            (Seq::empty(), sub.0, sub.1)
        } else {
            match assoc_find(d.children@, labels.last()) {
                None => (Seq::empty(), Seq::empty(), Seq::empty()),
                Some(c) => {
                    let sub = dn_source(c, labels.drop_last(), req, q - here.len());
                    (sub.0.push(labels.last()), sub.1, sub.2)
                },
            }
        }
    }
}

/// Element `q` of the domain trie's lookup is explained by its source
/// slot.
proof fn lemma_dn_source(d: DomainNode, labels: Seq<Seq<char>>, req: Seq<Seq<char>>, q: int)
    requires
        dn_wf(d),
        0 <= q < dn_collected(d, labels, req).len(),
    ensures
        dn_match(
            d,
            labels,
            req,
            dn_source(d, labels, req, q).0,
            dn_source(d, labels, req, q).1,
            dn_source(d, labels, req, q).2,
            dn_collected(d, labels, req)[q],
        ),
    decreases labels.len(),
{
    let col = dn_collected(d, labels, req);
    if labels.len() == 0 {
        lemma_pn_source(d.path, req, true, q);
        let sub = pn_source(d.path, req, true, q);
        assert(labels.skip(0) =~= labels);
        assert(labels =~= Seq::<Seq<char>>::empty());
        assert(dn_match(d, labels, req, Seq::empty(), sub.0, sub.1, col[q]));
    } else {
        let here = pn_collected(d.path, req, false);
        if q < here.len() {
            assert(col[q] == here[q]);
            lemma_pn_source(d.path, req, false, q);
            let sub = pn_source(d.path, req, false, q);
            assert(is_suffix(Seq::empty(), labels)) by {
                assert(labels.skip(labels.len() as int) =~= Seq::<Seq<char>>::empty());
            }
            assert(dn_match(d, labels, req, Seq::empty(), sub.0, sub.1, col[q]));
        } else {
            let c = assoc_find(d.children@, labels.last())->Some_0;
            lemma_assoc_find_some(d.children@, labels.last());
            let i = choose|i: int|
                0 <= i < d.children@.len() && d.children@[i].0@ == labels.last()
                    && d.children@[i].1 == c;
            assert(dn_wf(c));
            let sub = dn_collected(c, labels.drop_last(), req);
            assert(col[q] == sub[q - here.len()]);
            lemma_dn_source(c, labels.drop_last(), req, q - here.len());
            let src = dn_source(c, labels.drop_last(), req, q - here.len());
            let ls0 = src.0;
            let ss = src.1;
            let nm = src.2;
            let ls = ls0.push(labels.last());
            assert(ls.last() == labels.last());
            assert(ls.drop_last() =~= ls0);
            assert(dn_cookie(d, ls, ss, nm) == dn_cookie(c, ls0, ss, nm));
            assert(is_suffix(ls, labels)) by {
                assert(ls =~= labels.skip(labels.len() - ls.len())) by {
                    assert(forall|k: int|
                        0 <= k < ls0.len() ==> ls0[k] == labels.drop_last().skip(
                            labels.len() - 1 - ls0.len(),
                        )[k]);
                    assert(forall|k: int|
                        0 <= k < ls0.len() ==> #[trigger] labels.drop_last().skip(
                            labels.len() - 1 - ls0.len(),
                        )[k] == labels[labels.len() - 1 - ls0.len() + k]);
                }
            }
            if ls0 == labels.drop_last() {
                assert(ls =~= labels) by {
                    assert(forall|k: int|
                        0 <= k < labels.len() - 1 ==> ls[k] == labels.drop_last()[k]);
                }
            }
            if ls == labels {
                assert(ls0 =~= labels.drop_last());
            }
            assert(dn_match(d, labels, req, ls, ss, nm, col[q]));
        }
    }
}

/// Distinct elements of the domain trie's lookup come from distinct
/// stored slots.
proof fn lemma_dn_source_injective(
    d: DomainNode,
    labels: Seq<Seq<char>>,
    req: Seq<Seq<char>>,
    q1: int,
    q2: int,
)
    requires
        dn_wf(d),
        0 <= q1 < q2 < dn_collected(d, labels, req).len(),
    ensures
        dn_source(d, labels, req, q1) != dn_source(d, labels, req, q2),
    decreases labels.len(),
{
    if labels.len() == 0 {
        lemma_pn_source_injective(d.path, req, true, q1, q2);
    } else {
        let here = pn_collected(d.path, req, false);
        if q2 < here.len() {
            lemma_pn_source_injective(d.path, req, false, q1, q2);
        } else {
            let c = assoc_find(d.children@, labels.last())->Some_0;
            lemma_assoc_find_some(d.children@, labels.last());
            let i = choose|i: int|
                0 <= i < d.children@.len() && d.children@[i].0@ == labels.last()
                    && d.children@[i].1 == c;
            assert(dn_wf(c));
            if q1 < here.len() {
                let sub = dn_source(c, labels.drop_last(), req, q2 - here.len());
                assert(dn_source(d, labels, req, q1).0.len() == 0);
                assert(dn_source(d, labels, req, q2).0 == sub.0.push(labels.last()));
                assert(dn_source(d, labels, req, q2).0.len() >= 1);
            } else {
                lemma_dn_source_injective(
                    c,
                    labels.drop_last(),
                    req,
                    q1 - here.len(),
                    q2 - here.len(),
                );
                let s1 = dn_source(c, labels.drop_last(), req, q1 - here.len());
                let s2 = dn_source(c, labels.drop_last(), req, q2 - here.len());
                if dn_source(d, labels, req, q1) == dn_source(d, labels, req, q2) {
                    assert(s1.0.push(labels.last()).drop_last() =~= s1.0);
                    assert(s2.0.push(labels.last()).drop_last() =~= s2.0);
                    assert(s1.0 == s2.0);
                    assert(s1.1 == s2.1);
                    assert(s1.2 == s2.2);
                    assert(s1 == s2);
                }
            }
        }
    }
}


/// The stored host is in scope for a request host: the same IP literal,
/// the same domain labels, or — only for cookies that are not host-only
/// — a label suffix of the request domain.
pub open spec fn host_in_scope(stored: HostView, req: HostView, host_only: bool) -> bool {
    match (stored, req) {
        (HostView::Domain(sd), HostView::Domain(rd)) => is_suffix(
            spec_domain_labels(sd),
            spec_domain_labels(rd),
        ) && (spec_domain_labels(sd) == spec_domain_labels(rd) || !host_only),
        (HostView::Ip(x), HostView::Ip(y)) => x == y,
        _ => false,
    }
}

/// LAW — scoping, completeness.  Every cookie the jar stores whose host
/// is in scope for the request (host-only cookies only at the exact
/// host, others at the named domain and every subdomain of it) and whose
/// stored path is a prefix of the request path appears in the lookup.
pub proof fn lemma_url_matches_complete<T: Clock>(
    jar: Jar<T>,
    reqh: HostView,
    path: Seq<char>,
    sh: HostView,
    ss: Seq<Seq<char>>,
    nm: Seq<char>,
)
    requires
        jar.wf(),
        jar_cookie(jar, sh, ss, nm) is Some,
        host_in_scope(sh, reqh, jar_cookie(jar, sh, ss, nm)->Some_0@.host_only),
        is_prefix(ss, spec_path_segments(path)),
    ensures
        jar_matches(jar, reqh, path).contains(jar_cookie(jar, sh, ss, nm)->Some_0@.pair),
{
    match (sh, reqh) {
        (HostView::Domain(sd), HostView::Domain(rd)) => {
            lemma_dn_complete(
                jar.domain,
                spec_domain_labels(rd),
                spec_path_segments(path),
                spec_domain_labels(sd),
                ss,
                nm,
            );
        },
        (HostView::Ip(x), HostView::Ip(y)) => {
            let pn = assoc_find(jar.hosts@, x)->Some_0;
            lemma_assoc_find_some(jar.hosts@, x);
            let i = choose|i: int|
                0 <= i < jar.hosts@.len() && jar.hosts@[i].0@ == x && jar.hosts@[i].1 == pn;
            assert(pn_wf(pn));
            lemma_pn_complete(pn, spec_path_segments(path), true, ss, nm);
        },
        _ => {},
    }
}

/// A stored cookie that explains one pair of a lookup's result: for a
/// domain request, a cookie at a label suffix of the request domain (the
/// whole label list where it is host-only); for an IP request, a cookie
/// of that exact host; in both cases at a stored path that is a prefix
/// of the request path, with the returned pair.
pub closed spec fn jar_match<T: Clock>(
    jar: Jar<T>,
    reqh: HostView,
    path: Seq<char>,
    ls: Seq<Seq<char>>,
    ss: Seq<Seq<char>>,
    nm: Seq<char>,
    p: CookiePairView,
) -> bool {
    match reqh {
        HostView::Domain(rd) => dn_match(
            jar.domain,
            spec_domain_labels(rd),
            spec_path_segments(path),
            ls,
            ss,
            nm,
            p,
        ),
        HostView::Ip(a) => ls == Seq::<Seq<char>>::empty() && match assoc_find(jar.hosts@, a) {
            Some(pn) => pn_match(pn, spec_path_segments(path), true, ss, nm, p),
            None => false,
        },
    }
}

/// LAW — scoping, soundness.  Everything a lookup returns comes from a
/// stored cookie scoped to the request: a host-only cookie only from the
/// exact host node, any other from the request domain or an ancestor
/// domain of it, and always from a stored path that is a prefix of the
/// request path.
/// The stored slot that yields element `q` of a lookup: the label list
/// of its domain (empty for an IP host), its stored path segments, and
/// its cookie name.
pub closed spec fn jar_source<T: Clock>(
    jar: Jar<T>,
    reqh: HostView,
    path: Seq<char>,
    q: int,
) -> (Seq<Seq<char>>, Seq<Seq<char>>, Seq<char>) {
    match reqh {
        HostView::Domain(rd) => dn_source(
            jar.domain,
            spec_domain_labels(rd),
            spec_path_segments(path),
            q,
        ),
        HostView::Ip(a) => match assoc_find(jar.hosts@, a) {
            Some(pn) => {
                let sub = pn_source(pn, spec_path_segments(path), true, q);
                (Seq::empty(), sub.0, sub.1)
            },
            None => (Seq::empty(), Seq::empty(), Seq::empty()),
        },
    }
}

pub proof fn lemma_url_matches_sound<T: Clock>(
    jar: Jar<T>,
    reqh: HostView,
    path: Seq<char>,
    q: int,
)
    requires
        jar.wf(),
        0 <= q < jar_matches(jar, reqh, path).len(),
    ensures
        jar_match(
            jar,
            reqh,
            path,
            jar_source(jar, reqh, path, q).0,
            jar_source(jar, reqh, path, q).1,
            jar_source(jar, reqh, path, q).2,
            jar_matches(jar, reqh, path)[q],
        ),
        exists|ls: Seq<Seq<char>>, ss: Seq<Seq<char>>, nm: Seq<char>|
            jar_match(jar, reqh, path, ls, ss, nm, jar_matches(jar, reqh, path)[q]),
{
    let col = jar_matches(jar, reqh, path);
    let src = jar_source(jar, reqh, path, q);
    match reqh {
        HostView::Domain(rd) => {
            lemma_dn_source(jar.domain, spec_domain_labels(rd), spec_path_segments(path), q);
            assert(jar_match(jar, reqh, path, src.0, src.1, src.2, col[q]));
        },
        HostView::Ip(a) => {
            let pn = assoc_find(jar.hosts@, a)->Some_0;
            lemma_assoc_find_some(jar.hosts@, a);
            let i = choose|i: int|
                0 <= i < jar.hosts@.len() && jar.hosts@[i].0@ == a && jar.hosts@[i].1 == pn;
            assert(pn_wf(pn));
            lemma_pn_source(pn, spec_path_segments(path), true, q);
            assert(jar_match(jar, reqh, path, src.0, src.1, src.2, col[q]));
        },
    }
}

/// LAW — multiplicity.  Distinct elements of a lookup's result come
/// from distinct stored slots.  With the soundness law, which attributes
/// each element to its source slot, no stored cookie contributes more
/// than one pair to a lookup.
pub proof fn lemma_url_matches_injective<T: Clock>(
    jar: Jar<T>,
    reqh: HostView,
    path: Seq<char>,
    q1: int,
    q2: int,
)
    requires
        jar.wf(),
        0 <= q1 < q2 < jar_matches(jar, reqh, path).len(),
    ensures
        jar_source(jar, reqh, path, q1) != jar_source(jar, reqh, path, q2),
{
    match reqh {
        HostView::Domain(rd) => {
            lemma_dn_source_injective(
                jar.domain,
                spec_domain_labels(rd),
                spec_path_segments(path),
                q1,
                q2,
            );
        },
        HostView::Ip(a) => {
            let pn = assoc_find(jar.hosts@, a)->Some_0;
            lemma_assoc_find_some(jar.hosts@, a);
            let i = choose|i: int|
                0 <= i < jar.hosts@.len() && jar.hosts@[i].0@ == a && jar.hosts@[i].1 == pn;
            assert(pn_wf(pn));
            lemma_pn_source_injective(pn, spec_path_segments(path), true, q1, q2);
            let s1 = pn_source(pn, spec_path_segments(path), true, q1);
            let s2 = pn_source(pn, spec_path_segments(path), true, q2);
            if jar_source(jar, reqh, path, q1) == jar_source(jar, reqh, path, q2) {
                assert(s1.0 == s2.0);
                assert(s1.1 == s2.1);
                assert(s1 == s2);
            }
        },
    }
}

/// LAW — replacement.  Adding two cookies that share their (domain or
/// host, path, name) triple leaves the jar exactly as adding the later
/// one alone would: only the later value stands at that slot, and no
/// other slot has changed.
pub proof fn lemma_replacement<T: Clock>(
    j0: Jar<T>,
    j1: Jar<T>,
    j2: Jar<T>,
    c1: Cookie,
    c2: Cookie,
)
    requires
        jar_add_rel(j0, c1, j1),
        jar_add_rel(j1, c2, j2),
        same_host_key(c1@.host, c2@.host),
        spec_path_segments(c1@.path) == spec_path_segments(c2@.path),
        c1@.attributes.pair.name == c2@.attributes.pair.name,
    ensures
        jar_add_rel(j0, c2, j2),
{
    assert forall|h: HostView, s: Seq<Seq<char>>, nm: Seq<char>|
        !(same_host_key(h, c2@.host) && s == spec_path_segments(c2@.path) && nm
            == c2@.attributes.pair.name) implies #[trigger] jar_cookie(j2, h, s, nm)
        == jar_cookie(j0, h, s, nm) by {
        assert(same_host_key(h, c1@.host) == same_host_key(h, c2@.host)) by {
            match (h, c1@.host, c2@.host) {
                (HostView::Domain(_), HostView::Domain(_), HostView::Domain(_)) => {},
                (HostView::Ip(_), HostView::Ip(_), HostView::Ip(_)) => {},
                _ => {},
            }
        }
        assert(jar_cookie(j2, h, s, nm) == jar_cookie(j1, h, s, nm));
        assert(jar_cookie(j1, h, s, nm) == jar_cookie(j0, h, s, nm));
    }
}

} // verus!
