//! An in-memory trie of values keyed by paths.
//!
//! A [`PathTree`] holds one value per node and a list of named subtrees.
//! `insert` descends along a path, default-initializing any missing
//! intermediate node, and overwrites the value at the path's end. Consuming
//! iteration hands out every node's accumulated path and value, children
//! kept on an explicit stack rather than visited by recursion, so that a
//! batch of sparse path-keyed edits can be replayed in one pass.

use vstd::prelude::*;

use crate::path::{is_path_prefix, MPath, MPathElement};
use vstd::multiset::Multiset;

verus! {

broadcast use vstd::multiset::group_multiset_axioms;

/// An in-memory trie of values keyed by paths.
pub struct PathTree<V> {
    /// The value at this node.
    pub value: V,
    /// The named subtrees of this node.
    pub subentries: Vec<(MPathElement, PathTree<V>)>,
}

/// The mapping from names to subtrees described by a subentry list; the
/// first entry with a name decides it.
pub open spec fn sub_view<V>(s: Seq<(MPathElement, PathTree<V>)>) -> Map<Seq<u8>, PathTree<V>>
    decreases s.len(),
{
    if s.len() == 0 {
        Map::empty()
    } else {
        sub_view(s.drop_first()).insert(s.first().0@, s.first().1)
    }
}

/// The value at path `p` below `t`, if every step of `p` exists.
pub open spec fn pt_get<V>(t: PathTree<V>, p: Seq<Seq<u8>>) -> Option<V>
    decreases p.len(),
{
    if p.len() == 0 {
        Some(t.value)
    } else {
        let m = sub_view(t.subentries@);
        if m.contains_key(p.first()) {
            pt_get(m[p.first()], p.drop_first())
        } else {
            None
        }
    }
}

impl<V: Default> Default for PathTree<V> {
    /// A leaf node holding the default value.
    fn default() -> (r: Self)
        ensures
            r.subentries@.len() == 0,
    {
        PathTree { value: V::default(), subentries: Vec::new() }
    }
}

/// Appending a fresh name maps it without touching the other names.
proof fn lemma_sub_view_push_fresh<V>(s: Seq<(MPathElement, PathTree<V>)>, x: (
    MPathElement,
    PathTree<V>,
))
    requires
        forall|i: int| 0 <= i < s.len() ==> (#[trigger] s[i].0)@ != x.0@,
    ensures
        sub_view(s.push(x)) == sub_view(s).insert(x.0@, x.1),
    decreases s.len(),
{
    if s.len() == 0 {
        assert(s.push(x).drop_first() =~= Seq::<(MPathElement, PathTree<V>)>::empty());
        assert(s.push(x).first() == x);
        assert(sub_view(Seq::<(MPathElement, PathTree<V>)>::empty()) =~= Map::<
            Seq<u8>,
            PathTree<V>,
        >::empty());
        assert(s =~= Seq::<(MPathElement, PathTree<V>)>::empty());
        assert(sub_view(s.push(x)) =~= sub_view(s).insert(x.0@, x.1));
    } else {
        assert(s.push(x).drop_first() =~= s.drop_first().push(x));
        assert(s.push(x).first() == s.first());
        lemma_sub_view_push_fresh(s.drop_first(), x);
        assert(s.first().0@ != x.0@);
        assert(sub_view(s.push(x)) =~= sub_view(s).insert(x.0@, x.1));
    }
}

/// Replacing the subtree of the first entry with a name updates that name
/// alone.
proof fn lemma_sub_view_update_first<V>(
    s: Seq<(MPathElement, PathTree<V>)>,
    k: int,
    c: PathTree<V>,
)
    requires
        0 <= k < s.len(),
        forall|j: int| 0 <= j < k ==> (#[trigger] s[j].0)@ != s[k].0@,
    ensures
        sub_view(s.update(k, (s[k].0, c))) == sub_view(s).insert(s[k].0@, c),
    decreases s.len(),
{
    let t = s.update(k, (s[k].0, c));
    if k == 0 {
        assert(t.drop_first() =~= s.drop_first());
        assert(t.first() == (s[0].0, c));
        assert(sub_view(t) =~= sub_view(s).insert(s[0].0@, c));
    } else {
        assert(t.drop_first() =~= s.drop_first().update(k - 1, (s[k].0, c)));
        assert(s.drop_first()[k - 1] == s[k]);
        assert(forall|j: int|
            0 <= j < k - 1 ==> (#[trigger] s.drop_first()[j].0)@ != s.drop_first()[k - 1].0@);
        lemma_sub_view_update_first(s.drop_first(), k - 1, c);
        assert(t.first() == s.first());
        assert(s[0].0@ != s[k].0@);
        assert(sub_view(t) =~= sub_view(s).insert(s[k].0@, c));
    }
}

/// The index of the first subentry named `name`, or the list's length.
fn find_name<V>(s: &Vec<(MPathElement, PathTree<V>)>, name: &MPathElement) -> (r: usize)
    ensures
        r <= s@.len(),
        r < s@.len() ==> (s@[r as int].0)@ == name@,
        forall|j: int| 0 <= j < r ==> (#[trigger] s@[j].0)@ != name@,
{
    let mut k: usize = 0;
    while k < s.len()
        invariant
            0 <= k <= s@.len(),
            forall|j: int| 0 <= j < k ==> (#[trigger] s@[j].0)@ != name@,
        decreases s@.len() - k,
    {
        if s[k].0 == *name {
            return k;
        }
        k = k + 1;
    }
    k
}

impl<V: Default> PathTree<V> {
    /// Set the value stored for the path suffix `elements[idx..]`,
    /// creating any missing intermediate node with a default value.
    fn insert_at(&mut self, elements: &Vec<MPathElement>, idx: usize, value: V)
        requires
            idx <= elements@.len(),
        ensures
            pt_get(*final(self), crate::path::path_view(elements@).subrange(
                idx as int,
                elements@.len() as int,
            )) == Some(value),
            final(self).value == old(self).value || idx == elements@.len(),
            forall|q: Seq<Seq<u8>>|
                q != crate::path::path_view(elements@).subrange(idx as int, elements@.len() as int)
                    && (#[trigger] pt_get(*old(self), q)) is Some ==> pt_get(*final(self), q)
                    == pt_get(*old(self), q),
            forall|q: Seq<Seq<u8>>|
                is_path_prefix(
                    q,
                    crate::path::path_view(elements@).subrange(idx as int, elements@.len() as int),
                ) ==> (#[trigger] pt_get(*final(self), q)) is Some,
            forall|q: Seq<Seq<u8>>|
                !is_path_prefix(
                    q,
                    crate::path::path_view(elements@).subrange(idx as int, elements@.len() as int),
                ) && (#[trigger] pt_get(*old(self), q)) is None ==> pt_get(*final(self), q)
                    is None,
        decreases elements@.len() - idx,
    {
        let ghost tail = crate::path::path_view(elements@).subrange(
            idx as int,
            elements@.len() as int,
        );
        if idx == elements.len() {
            self.value = value;
            proof {
                assert(tail =~= Seq::<Seq<u8>>::empty());
                assert forall|q: Seq<Seq<u8>>|
                    q != tail && (#[trigger] pt_get(*old(self), q)) is Some implies pt_get(
                    *final(self),
                    q,
                ) == pt_get(*old(self), q) by {
                    if q.len() == 0 {
                        assert(q =~= Seq::<Seq<u8>>::empty());
                    }
                }
                assert forall|q: Seq<Seq<u8>>| is_path_prefix(q, tail) implies (#[trigger] pt_get(
                    *final(self),
                    q,
                )) is Some by {
                    assert(q =~= Seq::<Seq<u8>>::empty());
                }
                assert forall|q: Seq<Seq<u8>>|
                    !is_path_prefix(q, tail) && (#[trigger] pt_get(*old(self), q))
                        is None implies pt_get(*final(self), q) is None by {
                    if q.len() == 0 {
                        assert(q =~= Seq::<Seq<u8>>::empty());
                        assert(q =~= tail.subrange(0, 0));
                    }
                }
            }
            return ;
        }
        let name = &elements[idx];
        let ghost tail1 = crate::path::path_view(elements@).subrange(
            idx as int + 1,
            elements@.len() as int,
        );
        proof {
            assert(tail.first() == name@);
            assert(tail.drop_first() =~= tail1);
        }
        let k = find_name(&self.subentries, name);
        if k < self.subentries.len() {
            proof {
                assert(self.subentries@[k as int].0@ == name@);
            }
            // `k` is the first entry carrying this name: descend into it.
            let ghost olds = self.subentries@;
            let mut pair = self.subentries.remove(k);
            let ghost oldchild = pair.1;
            pair.1.insert_at(elements, idx + 1, value);
            let ghost newchild = pair.1;
            self.subentries.insert(k, pair);
            proof {
                assert(self.subentries@ =~= olds.update(k as int, (olds[k as int].0, newchild)));
                lemma_sub_view_update_first(olds, k as int, newchild);
                let mnew = sub_view(self.subentries@);
                let mold = sub_view(olds);
                assert(mnew == mold.insert(name@, newchild));
                assert(mold.contains_key(name@) && mold[name@] == oldchild) by {
                    lemma_sub_view_update_first(olds, k as int, oldchild);
                    assert(olds.update(k as int, (olds[k as int].0, oldchild)) =~= olds);
                }
                assert(pt_get(*final(self), tail) == pt_get(newchild, tail1));
                assert forall|q: Seq<Seq<u8>>|
                    q != tail && (#[trigger] pt_get(*old(self), q)) is Some implies pt_get(
                    *final(self),
                    q,
                ) == pt_get(*old(self), q) by {
                    if q.len() > 0 {
                        if q.first() == name@ {
                            assert(q.drop_first() != tail1) by {
                                if q.drop_first() == tail1 {
                                    assert(q.len() == tail.len());
                                    assert forall|i: int| 0 <= i < q.len() implies q[i]
                                        == tail[i] by {
                                        if i > 0 {
                                            assert(q[i] == q.drop_first()[i - 1]);
                                            assert(tail[i] == tail.drop_first()[i - 1]);
                                        }
                                    }
                                    assert(q =~= tail);
                                }
                            }
                            assert(pt_get(*old(self), q) == pt_get(oldchild, q.drop_first()));
                            assert(pt_get(*final(self), q) == pt_get(newchild, q.drop_first()));
                        } else {
                            assert(mnew.contains_key(q.first()) == mold.contains_key(q.first()));
                            if mold.contains_key(q.first()) {
                                assert(mnew[q.first()] == mold[q.first()]);
                            }
                        }
                    }
                }
                assert forall|q: Seq<Seq<u8>>| is_path_prefix(q, tail) implies (#[trigger] pt_get(
                    *final(self),
                    q,
                )) is Some by {
                    if q.len() == 0 {
                        assert(q =~= Seq::<Seq<u8>>::empty());
                    } else {
                        assert(q[0] == tail.subrange(0, q.len() as int)[0]);
                        assert(q.first() == name@);
                        let q1 = q.drop_first();
                        assert(is_path_prefix(q1, tail1)) by {
                            assert forall|i: int| 0 <= i < q1.len() implies q1[i] == tail1[i] by {
                                assert(q1[i] == q[i + 1]);
                                assert(q[i + 1] == tail.subrange(0, q.len() as int)[i + 1]);
                                assert(tail[i + 1] == tail1[i]);
                            }
                            assert(q1 =~= tail1.subrange(0, q1.len() as int));
                        }
                        assert(pt_get(newchild, q1) is Some);
                        assert(pt_get(*final(self), q) == pt_get(newchild, q1));
                    }
                }
                assert forall|q: Seq<Seq<u8>>|
                    !is_path_prefix(q, tail) && (#[trigger] pt_get(*old(self), q))
                        is None implies pt_get(*final(self), q) is None by {
                    if q.len() == 0 {
                        assert(q =~= tail.subrange(0, 0));
                    } else if q.first() == name@ {
                        let q1 = q.drop_first();
                        assert(!is_path_prefix(q1, tail1)) by {
                            if is_path_prefix(q1, tail1) {
                                assert forall|i: int| 0 <= i < q.len() implies q[i] == tail[i] by {
                                    if i > 0 {
                                        assert(q[i] == q1[i - 1]);
                                        assert(q1[i - 1] == tail1.subrange(
                                            0,
                                            q1.len() as int,
                                        )[i - 1]);
                                        assert(tail[i] == tail1[i - 1]);
                                    }
                                }
                                assert(q =~= tail.subrange(0, q.len() as int));
                            }
                        }
                        assert(pt_get(*old(self), q) == pt_get(oldchild, q1));
                        assert(pt_get(*final(self), q) == pt_get(newchild, q1));
                    } else {
                        assert(mnew.contains_key(q.first()) == mold.contains_key(q.first()));
                        if mold.contains_key(q.first()) {
                            assert(mnew[q.first()] == mold[q.first()]);
                        }
                    }
                }
            }
        } else {
            // No entry carries this name: grow a fresh branch.
            let ghost olds = self.subentries@;
            let mut child: PathTree<V> = PathTree { value: V::default(), subentries: Vec::new() };
            let ghost fresh = child;
            proof {
                assert(fresh.subentries@ =~= Seq::<(MPathElement, PathTree<V>)>::empty());
                assert forall|q1: Seq<Seq<u8>>| q1.len() > 0 implies (#[trigger] pt_get(
                    fresh,
                    q1,
                )) is None by {
                    lemma_sub_view_absent(fresh.subentries@, q1.first());
                }
            }
            child.insert_at(elements, idx + 1, value);
            let ghost newchild = child;
            self.subentries.push((name.clone(), child));
            proof {
                let x = self.subentries@.last();
                assert(x.0@ == name@ && x.1 == newchild);
                assert(self.subentries@ =~= olds.push(x));
                lemma_sub_view_push_fresh(olds, x);
                let mnew = sub_view(self.subentries@);
                let mold = sub_view(olds);
                assert(mnew == mold.insert(name@, newchild));
                assert(!mold.contains_key(name@)) by {
                    lemma_sub_view_absent(olds, name@);
                }
                assert(pt_get(*final(self), tail) == pt_get(newchild, tail1));
                assert forall|q: Seq<Seq<u8>>|
                    q != tail && (#[trigger] pt_get(*old(self), q)) is Some implies pt_get(
                    *final(self),
                    q,
                ) == pt_get(*old(self), q) by {
                    if q.len() > 0 {
                        if q.first() == name@ {
                            assert(!mold.contains_key(q.first()));
                            assert(pt_get(*old(self), q) is None);
                        } else {
                            assert(mnew.contains_key(q.first()) == mold.contains_key(q.first()));
                            if mold.contains_key(q.first()) {
                                assert(mnew[q.first()] == mold[q.first()]);
                            }
                        }
                    }
                }
                assert forall|q: Seq<Seq<u8>>| is_path_prefix(q, tail) implies (#[trigger] pt_get(
                    *final(self),
                    q,
                )) is Some by {
                    if q.len() == 0 {
                        assert(q =~= Seq::<Seq<u8>>::empty());
                    } else {
                        assert(q[0] == tail.subrange(0, q.len() as int)[0]);
                        assert(q.first() == name@);
                        let q1 = q.drop_first();
                        assert(is_path_prefix(q1, tail1)) by {
                            assert forall|i: int| 0 <= i < q1.len() implies q1[i] == tail1[i] by {
                                assert(q1[i] == q[i + 1]);
                                assert(q[i + 1] == tail.subrange(0, q.len() as int)[i + 1]);
                                assert(tail[i + 1] == tail1[i]);
                            }
                            assert(q1 =~= tail1.subrange(0, q1.len() as int));
                        }
                        assert(pt_get(newchild, q1) is Some);
                        assert(pt_get(*final(self), q) == pt_get(newchild, q1));
                    }
                }
                assert forall|q: Seq<Seq<u8>>|
                    !is_path_prefix(q, tail) && (#[trigger] pt_get(*old(self), q))
                        is None implies pt_get(*final(self), q) is None by {
                    if q.len() == 0 {
                        assert(q =~= tail.subrange(0, 0));
                    } else if q.first() == name@ {
                        let q1 = q.drop_first();
                        assert(!is_path_prefix(q1, tail1)) by {
                            if is_path_prefix(q1, tail1) {
                                assert forall|i: int| 0 <= i < q.len() implies q[i] == tail[i] by {
                                    if i > 0 {
                                        assert(q[i] == q1[i - 1]);
                                        assert(q1[i - 1] == tail1.subrange(
                                            0,
                                            q1.len() as int,
                                        )[i - 1]);
                                        assert(tail[i] == tail1[i - 1]);
                                    }
                                }
                                assert(q =~= tail.subrange(0, q.len() as int));
                            }
                        }
                        assert(q1.len() > 0) by {
                            if q1.len() == 0 {
                                assert(q =~= tail.subrange(0, 1));
                            }
                        }
                        assert(pt_get(fresh, q1) is None);
                        assert(pt_get(newchild, q1) is None);
                        assert(pt_get(*final(self), q) == pt_get(newchild, q1));
                    } else {
                        assert(mnew.contains_key(q.first()) == mold.contains_key(q.first()));
                        if mold.contains_key(q.first()) {
                            assert(mnew[q.first()] == mold[q.first()]);
                        }
                    }
                }
            }
        }
    }

    /// Set the value stored at `path`, creating any missing intermediate
    /// node with a default value: afterwards every prefix of the path
    /// holds a node. Values stored elsewhere are untouched, and no path
    /// outside the inserted one gains a node.
    pub fn insert(&mut self, path: &MPath, value: V)
        ensures
            pt_get(*final(self), path@) == Some(value),
            forall|q: Seq<Seq<u8>>|
                q != path@ && (#[trigger] pt_get(*old(self), q)) is Some ==> pt_get(
                    *final(self),
                    q,
                ) == pt_get(*old(self), q),
            forall|q: Seq<Seq<u8>>|
                is_path_prefix(q, path@) ==> (#[trigger] pt_get(*final(self), q)) is Some,
            forall|q: Seq<Seq<u8>>|
                !is_path_prefix(q, path@) && (#[trigger] pt_get(*old(self), q)) is None
                    ==> pt_get(*final(self), q) is None,
    {
        let elements = path.elements();
        proof {
            assert(crate::path::path_view(elements@).subrange(
                0,
                elements@.len() as int,
            ) =~= path@);
        }
        self.insert_at(elements, 0, value);
    }

    /// Build a tree from a batch of path-keyed values: the default tree
    /// followed by one insert per pair, in order. For a path given more
    /// than once the last value wins, and no node appears off the
    /// inserted paths.
    pub fn from_iter(entries: Vec<(MPath, V)>) -> (r: Self)
        ensures
            entries@.len() == 0 ==> r.subentries@.len() == 0,
            forall|t: int|
                0 <= t < entries@.len() && (forall|j: int|
                    t < j < entries@.len() ==> (#[trigger] entries@[j].0)@ != entries@[t].0@)
                    ==> pt_get(r, (#[trigger] entries@[t]).0@) == Some(entries@[t].1),
            forall|q: Seq<Seq<u8>>|
                0 < q.len() && (forall|t: int|
                    0 <= t < entries@.len() ==> !is_path_prefix(q, (#[trigger] entries@[t].0)@))
                    ==> pt_get(r, q) is None,
    {
        let ghost ev = entries@;
        let mut tree = PathTree { value: V::default(), subentries: Vec::new() };
        let mut entries = entries;
        let mut i: usize = 0;
        let n = entries.len();
        proof {
            assert(tree.subentries@ =~= Seq::<(MPathElement, PathTree<V>)>::empty());
            assert forall|q: Seq<Seq<u8>>| 0 < q.len() implies (#[trigger] pt_get(tree, q))
                is None by {
                lemma_sub_view_absent(tree.subentries@, q.first());
            }
        }
        // consume the batch front to back, keeping insertion order
        while i < n
            invariant
                0 <= i <= n,
                n == ev.len(),
                entries@ =~= ev.subrange(i as int, n as int),
                n > 0 || tree.subentries@.len() == 0,
                forall|t: int|
                    0 <= t < i && (forall|j: int|
                        t < j < i ==> (#[trigger] ev[j].0)@ != ev[t].0@) ==> pt_get(
                        tree,
                        (#[trigger] ev[t]).0@,
                    ) == Some(ev[t].1),
                forall|q: Seq<Seq<u8>>|
                    0 < q.len() && (forall|t: int|
                        0 <= t < i ==> !is_path_prefix(q, (#[trigger] ev[t].0)@)) ==> (
                    #[trigger] pt_get(tree, q)) is None,
            decreases n - i,
        {
            let ghost before = tree;
            let (path, value) = entries.remove(0);
            proof {
                assert(ev.subrange(i as int, n as int).first() == ev[i as int]);
                assert(path == ev[i as int].0 && value == ev[i as int].1);
                assert(entries@ =~= ev.subrange(i as int + 1, n as int));
            }
            tree.insert(&path, value);
            proof {
                assert forall|t: int|
                    0 <= t < i + 1 && (forall|j: int|
                        t < j < i + 1 ==> (#[trigger] ev[j].0)@ != ev[t].0@) implies pt_get(
                    tree,
                    (#[trigger] ev[t]).0@,
                ) == Some(ev[t].1) by {
                    if t < i {
                        assert(ev[i as int].0@ != ev[t].0@);
                        assert(pt_get(before, ev[t].0@) == Some(ev[t].1));
                    }
                }
                assert forall|q: Seq<Seq<u8>>|
                    0 < q.len() && (forall|t: int|
                        0 <= t < i + 1 ==> !is_path_prefix(q, (#[trigger] ev[t].0)@)) implies (
                #[trigger] pt_get(tree, q)) is None by {
                    assert(!is_path_prefix(q, ev[i as int].0@));
                    assert(pt_get(before, q) is None);
                }
            }
            i = i + 1;
        }
        proof {
            assert(ev.subrange(0, n as int) =~= ev);
        }
        tree
    }
}

/// A name outside every entry of a list is not in its view.
proof fn lemma_sub_view_absent<V>(s: Seq<(MPathElement, PathTree<V>)>, name: Seq<u8>)
    requires
        forall|i: int| 0 <= i < s.len() ==> (#[trigger] s[i].0)@ != name,
    ensures
        !sub_view(s).contains_key(name),
    decreases s.len(),
{
    if s.len() > 0 {
        lemma_sub_view_absent(s.drop_first(), name);
    }
}

/// The multiset of nodes of a tree: each node's accumulated path (`None`
/// for the root the iteration started from) paired with its value.
pub open spec fn pt_nodes<V>(prefix: Option<Seq<Seq<u8>>>, t: PathTree<V>) -> Multiset<
    (Option<Seq<Seq<u8>>>, V),
>
    decreases t,
{
    Multiset::singleton((prefix, t.value)).add(pt_list_nodes(prefix, t.subentries@))
}

/// The nodes of a list of named subtrees below `prefix`.
pub open spec fn pt_list_nodes<V>(
    prefix: Option<Seq<Seq<u8>>>,
    s: Seq<(MPathElement, PathTree<V>)>,
) -> Multiset<(Option<Seq<Seq<u8>>>, V)>
    decreases s,
{
    if s.len() == 0 {
        Multiset::empty()
    } else {
        pt_nodes(extend_prefix(prefix, s.first().0@), s.first().1).add(
            pt_list_nodes(prefix, s.drop_first()),
        )
    }
}

/// The accumulated path of a child named `name` below `prefix`.
pub open spec fn extend_prefix(prefix: Option<Seq<Seq<u8>>>, name: Seq<u8>) -> Option<
    Seq<Seq<u8>>,
> {
    match prefix {
        None => Some(seq![name]),
        Some(p) => Some(p.push(name)),
    }
}

/// The view of an optional path.
pub open spec fn opt_path_view(p: Option<MPath>) -> Option<Seq<Seq<u8>>> {
    match p {
        None => None,
        Some(q) => Some(q@),
    }
}

/// The accumulated path of the parent of a non-root node's path: `None`
/// names the root the iteration started from.
pub open spec fn parent_path(p: Seq<Seq<u8>>) -> Option<Seq<Seq<u8>>>
    recommends
        p.len() > 0,
{
    if p.len() == 1 {
        None
    } else {
        Some(p.drop_last())
    }
}

/// Consuming iteration over a [`PathTree`], one node at a time.
pub struct PathTreeIter<V> {
    frames: Vec<(Option<MPath>, PathTree<V>)>,
    emitted: Ghost<Set<Option<Seq<Seq<u8>>>>>,
}

/// The nodes still to be handed out: those of every stacked frame.
pub open spec fn frames_nodes<V>(frames: Seq<(Option<MPath>, PathTree<V>)>) -> Multiset<
    (Option<Seq<Seq<u8>>>, V),
>
    decreases frames.len(),
{
    if frames.len() == 0 {
        Multiset::empty()
    } else {
        pt_nodes(opt_path_view(frames.last().0), frames.last().1).add(
            frames_nodes(frames.drop_last()),
        )
    }
}

/// Splitting a subtree list at its last entry splits its nodes.
proof fn lemma_pt_list_nodes_drop_last<V>(
    prefix: Option<Seq<Seq<u8>>>,
    s: Seq<(MPathElement, PathTree<V>)>,
)
    requires
        s.len() > 0,
    ensures
        pt_list_nodes(prefix, s) == pt_list_nodes(prefix, s.drop_last()).add(
            pt_nodes(extend_prefix(prefix, s.last().0@), s.last().1),
        ),
    decreases s.len(),
{
    if s.len() == 1 {
        assert(s.drop_last() =~= Seq::<(MPathElement, PathTree<V>)>::empty());
        assert(s.drop_first() =~= Seq::<(MPathElement, PathTree<V>)>::empty());
        assert(pt_list_nodes(prefix, s) =~= pt_list_nodes(prefix, s.drop_last()).add(
            pt_nodes(extend_prefix(prefix, s.last().0@), s.last().1),
        ));
    } else {
        lemma_pt_list_nodes_drop_last(prefix, s.drop_first());
        assert(s.drop_first().drop_last() =~= s.drop_last().drop_first());
        assert(s.drop_first().last() == s.last());
        assert(s.drop_last().first() == s.first());
        assert(pt_list_nodes(prefix, s) =~= pt_list_nodes(prefix, s.drop_last()).add(
            pt_nodes(extend_prefix(prefix, s.last().0@), s.last().1),
        ));
    }
}

impl<V> PathTreeIter<V> {
    /// The nodes this iteration has not yet handed out.
    pub closed spec fn remaining(&self) -> Multiset<(Option<Seq<Seq<u8>>>, V)> {
        frames_nodes(self.frames@)
    }

    /// The accumulated paths of the nodes already handed out.
    pub closed spec fn emitted_set(&self) -> Set<Option<Seq<Seq<u8>>>> {
        self.emitted@
    }

    /// The order discipline of the iteration: a node still stacked is
    /// either the parentless root, waiting while nothing was handed out
    /// yet, or a node whose parent has already been handed out.
    pub closed spec fn wf(&self) -> bool {
        forall|i: int|
            0 <= i < self.frames@.len() ==> match (#[trigger] self.frames@[i]).0 {
                None => self.emitted@.is_empty() && self.frames@.len() == 1,
                Some(p) => p@.len() > 0 && self.emitted@.contains(parent_path(p@)),
            }
    }

    /// Hand out one node: its accumulated path (`None` for the root the
    /// iteration started from) and its value. Children of the node are
    /// kept for later turns; `None` means every node has been handed out.
    ///
    /// The first node handed out is the root, and every other node comes
    /// only after the node its path descends from: parents before
    /// children.
    pub fn next(&mut self) -> (r: Option<(Option<MPath>, V)>)
        requires
            old(self).wf(),
        ensures
            final(self).wf(),
            match r {
                None => old(self).remaining() == Multiset::<(Option<Seq<Seq<u8>>>, V)>::empty()
                    && final(self).remaining() == old(self).remaining()
                    && final(self).emitted_set() == old(self).emitted_set(),
                Some((p, v)) => {
                    &&& old(self).remaining().count((opt_path_view(p), v)) > 0
                    &&& final(self).remaining() == old(self).remaining().remove(
                        (opt_path_view(p), v),
                    )
                    &&& final(self).remaining().len() == old(self).remaining().len() - 1
                    &&& final(self).emitted_set() == old(self).emitted_set().insert(
                        opt_path_view(p),
                    )
                    &&& match p {
                        None => old(self).emitted_set().is_empty(),
                        Some(pp) => old(self).emitted_set().contains(parent_path(pp@)),
                    }
                },
            },
    {
        let popped = self.frames.pop();
        match popped {
            None => {
                proof {
                    assert(old(self).frames@.len() == 0);
                    assert(self.frames@ =~= old(self).frames@);
                }
                None
            },
            Some((path, t)) => {
                let ghost pv = opt_path_view(path);
                let ghost tg = t;
                proof {
                    assert(old(self).frames@.last().0 == path);
                    match path {
                        None => {
                            assert(old(self).emitted@.is_empty());
                        },
                        Some(ref pp) => {
                            assert(pp@.len() > 0 && old(self).emitted@.contains(
                                parent_path(pp@),
                            ));
                        },
                    }
                }
                self.emitted = Ghost(self.emitted@.insert(pv));
                let PathTree { value, subentries } = t;
                let ghost allsubs = subentries@;
                proof {
                    assert(old(self).frames@.drop_last() =~= self.frames@);
                    assert forall|i: int| 0 <= i < self.frames@.len() implies match (
                    #[trigger] self.frames@[i]).0 {
                        None => false,
                        Some(p) => p@.len() > 0 && self.emitted@.contains(parent_path(p@)),
                    } by {
                        assert(self.frames@[i] == old(self).frames@[i]);
                        match old(self).frames@[i].0 {
                            None => {
                                assert(old(self).frames@.len() == 1);
                            },
                            Some(_) => {},
                        }
                    }
                }
                let mut subentries = subentries;
                while subentries.len() > 0
                    invariant
                        pv == opt_path_view(path),
                        self.emitted@ == old(self).emitted@.insert(pv),
                        match path {
                            None => old(self).emitted@.is_empty(),
                            Some(pp) => pp@.len() > 0 && old(self).emitted@.contains(
                                parent_path(pp@),
                            ),
                        },
                        frames_nodes(self.frames@).add(pt_list_nodes(pv, subentries@))
                            == frames_nodes(old(self).frames@.drop_last()).add(
                            pt_list_nodes(pv, allsubs),
                        ),
                        forall|i: int|
                            0 <= i < self.frames@.len() ==> match (#[trigger] self.frames@[i]).0 {
                                None => false,
                                Some(p) => p@.len() > 0 && self.emitted@.contains(parent_path(p@)),
                            },
                    decreases subentries@.len(),
                {
                    let ghost before_frames = self.frames@;
                    let ghost before_subs = subentries@;
                    let (name, sub) = subentries.pop().unwrap();
                    let ghost subg = sub;
                    let child_path = MPath::join_opt_element(path.as_ref(), &name);
                    let ghost cpv = child_path@;
                    self.frames.push((Some(child_path), sub));
                    proof {
                        lemma_pt_list_nodes_drop_last(pv, before_subs);
                        assert(subentries@ =~= before_subs.drop_last());
                        assert(self.frames@.drop_last() =~= before_frames);
                        assert(name@ == before_subs.last().0@);
                        assert(opt_path_view(self.frames@.last().0) == Some(cpv));
                        assert(Some(cpv) == extend_prefix(pv, before_subs.last().0@)) by {
                            match path {
                                Some(ref p) => {
                                    assert(pv == Some(p@));
                                    assert(cpv == p@ + seq![name@]);
                                    assert(p@ + seq![name@] =~= p@.push(name@));
                                },
                                None => {
                                    assert(pv is None);
                                    assert(cpv == seq![name@]);
                                },
                            }
                        }
                        assert(frames_nodes(self.frames@) == frames_nodes(before_frames).add(
                            pt_nodes(extend_prefix(pv, before_subs.last().0@), subg),
                        ));
                        assert(frames_nodes(before_frames).add(
                            pt_nodes(extend_prefix(pv, before_subs.last().0@), subg),
                        ) =~= pt_nodes(extend_prefix(pv, before_subs.last().0@), subg).add(
                            frames_nodes(before_frames),
                        ));
                        // the pushed child's parent is the node just handed out
                        assert(cpv.len() > 0 && parent_path(cpv) == pv) by {
                            match path {
                                Some(ref p) => {
                                    assert(cpv =~= p@.push(name@));
                                    assert(cpv.drop_last() =~= p@);
                                    assert(p@.len() > 0);
                                },
                                None => {
                                    assert(cpv =~= seq![name@]);
                                },
                            }
                        }
                        assert(self.emitted@.contains(pv));
                        assert forall|i: int| 0 <= i < self.frames@.len() implies match (
                        #[trigger] self.frames@[i]).0 {
                            None => false,
                            Some(p) => p@.len() > 0 && self.emitted@.contains(parent_path(p@)),
                        } by {
                            if i < self.frames@.len() - 1 {
                                assert(self.frames@[i] == before_frames[i]);
                            } else {
                                assert(opt_path_view(self.frames@[i].0) == Some(cpv));
                            }
                        }
                    }
                }
                proof {
                    assert(subentries@.len() == 0);
                    assert(pt_list_nodes(pv, subentries@) =~= Multiset::<
                        (Option<Seq<Seq<u8>>>, V),
                    >::empty());
                    let rest = frames_nodes(old(self).frames@.drop_last());
                    assert(old(self).remaining() == pt_nodes(pv, tg).add(rest));
                    assert(pt_nodes(pv, tg) == Multiset::singleton((pv, value)).add(
                        pt_list_nodes(pv, allsubs),
                    ));
                    assert(frames_nodes(self.frames@) == rest.add(pt_list_nodes(pv, allsubs)));
                    assert(old(self).remaining().count((pv, value)) > 0);
                    assert(self.remaining() =~= old(self).remaining().remove((pv, value)));
                }
                Some((path, value))
            },
        }
    }
}

impl<V> PathTree<V> {
    /// Start a consuming iteration over every node of this tree: nothing
    /// has been handed out yet.
    pub fn into_iter(self) -> (r: PathTreeIter<V>)
        ensures
            r.remaining() == pt_nodes(None, self),
            r.wf(),
            r.emitted_set() == Set::<Option<Seq<Seq<u8>>>>::empty(),
    {
        let ghost sg = self;
        let mut frames: Vec<(Option<MPath>, PathTree<V>)> = Vec::new();
        frames.push((None, self));
        proof {
            assert(frames@.drop_last() =~= Seq::<(Option<MPath>, PathTree<V>)>::empty());
            assert(frames@.last() == (None::<MPath>, sg));
            assert(frames_nodes(frames@.drop_last()) =~= Multiset::<
                (Option<Seq<Seq<u8>>>, V),
            >::empty());
            assert(pt_nodes(None, sg).add(Multiset::<(Option<Seq<Seq<u8>>>, V)>::empty())
                =~= pt_nodes(None, sg));
        }
        PathTreeIter { frames, emitted: Ghost(Set::empty()) }
    }
}

} // verus!
