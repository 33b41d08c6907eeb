//! Name-keyed association lists with a map view.
//!
//! Several structures of the crate keep their children as a vector of
//! `(name, value)` pairs with unique names. The helpers here give such a
//! list its mathematical view, a `Map` from name bytes to values in which
//! the first pair carrying a name decides it, and verified find, get and
//! upsert operations.

use vstd::prelude::*;

use crate::path::MPathElement;

verus! {

/// The mapping described by a name-keyed list; the first pair with a name
/// decides its value.
pub open spec fn nm_view<V>(s: Seq<(MPathElement, V)>) -> Map<Seq<u8>, V>
    decreases s.len(),
{
    if s.len() == 0 {
        Map::empty()
    } else {
        nm_view(s.drop_first()).insert(s.first().0@, s.first().1)
    }
}

/// True when no two pairs carry the same name.
pub open spec fn nm_unique<V>(s: Seq<(MPathElement, V)>) -> bool {
    forall|i: int, j: int|
        0 <= i < j < s.len() ==> (#[trigger] s[i].0)@ != (#[trigger] s[j].0)@
}

/// Appending a fresh name maps it without touching the other names.
pub proof fn lemma_nm_push_fresh<V>(s: Seq<(MPathElement, V)>, x: (MPathElement, V))
    requires
        forall|i: int| 0 <= i < s.len() ==> (#[trigger] s[i].0)@ != x.0@,
    ensures
        nm_view(s.push(x)) == nm_view(s).insert(x.0@, x.1),
    decreases s.len(),
{
    if s.len() == 0 {
        assert(s.push(x).drop_first() =~= Seq::<(MPathElement, V)>::empty());
        assert(s.push(x).first() == x);
        assert(nm_view(Seq::<(MPathElement, V)>::empty()) =~= Map::<Seq<u8>, V>::empty());
        assert(s =~= Seq::<(MPathElement, V)>::empty());
        assert(nm_view(s.push(x)) =~= nm_view(s).insert(x.0@, x.1));
    } else {
        assert(s.push(x).drop_first() =~= s.drop_first().push(x));
        assert(s.push(x).first() == s.first());
        lemma_nm_push_fresh(s.drop_first(), x);
        assert(s.first().0@ != x.0@);
        assert(nm_view(s.push(x)) =~= nm_view(s).insert(x.0@, x.1));
    }
}

/// Replacing the first pair with a name by one carrying the same name
/// updates that name alone.
pub proof fn lemma_nm_update_first<V>(s: Seq<(MPathElement, V)>, k: int, x: (MPathElement, V))
    requires
        0 <= k < s.len(),
        x.0@ == s[k].0@,
        forall|j: int| 0 <= j < k ==> (#[trigger] s[j].0)@ != s[k].0@,
    ensures
        nm_view(s.update(k, x)) == nm_view(s).insert(x.0@, x.1),
    decreases s.len(),
{
    let t = s.update(k, x);
    if k == 0 {
        assert(t.drop_first() =~= s.drop_first());
        assert(t.first() == x);
        assert(nm_view(t) =~= nm_view(s).insert(x.0@, x.1));
    } else {
        assert(t.drop_first() =~= s.drop_first().update(k - 1, x));
        assert(s.drop_first()[k - 1] == s[k]);
        assert(forall|j: int|
            0 <= j < k - 1 ==> (#[trigger] s.drop_first()[j].0)@ != s.drop_first()[k - 1].0@);
        lemma_nm_update_first(s.drop_first(), k - 1, x);
        assert(t.first() == s.first());
        assert(s[0].0@ != s[k].0@);
        assert(nm_view(t) =~= nm_view(s).insert(x.0@, x.1));
    }
}

/// A name outside every pair of a list is not in its view.
pub proof fn lemma_nm_absent<V>(s: Seq<(MPathElement, V)>, name: Seq<u8>)
    requires
        forall|i: int| 0 <= i < s.len() ==> (#[trigger] s[i].0)@ != name,
    ensures
        !nm_view(s).contains_key(name),
    decreases s.len(),
{
    if s.len() > 0 {
        lemma_nm_absent(s.drop_first(), name);
    }
}

/// Every name of a list is in its view, mapped by its first pair.
pub proof fn lemma_nm_present<V>(s: Seq<(MPathElement, V)>, k: int)
    requires
        0 <= k < s.len(),
        forall|j: int| 0 <= j < k ==> (#[trigger] s[j].0)@ != s[k].0@,
    ensures
        nm_view(s).contains_key(s[k].0@),
        nm_view(s)[s[k].0@] == s[k].1,
    decreases k,
{
    if k == 0 {
    } else {
        assert(s.drop_first()[k - 1] == s[k]);
        assert(forall|j: int|
            0 <= j < k - 1 ==> (#[trigger] s.drop_first()[j].0)@ != s.drop_first()[k - 1].0@);
        lemma_nm_present(s.drop_first(), k - 1);
        assert(s[0].0@ != s[k].0@);
    }
}

/// A list with unique names has as many pairs as its view has keys.
pub proof fn lemma_nm_len<V>(s: Seq<(MPathElement, V)>)
    requires
        nm_unique(s),
    ensures
        nm_view(s).dom().finite(),
        nm_view(s).dom().len() == s.len(),
    decreases s.len(),
{
    if s.len() == 0 {
    } else {
        assert(nm_unique(s.drop_first())) by {
            assert(forall|i: int, j: int|
                0 <= i < j < s.drop_first().len() ==> (#[trigger] s.drop_first()[i].0)@ != (
                #[trigger] s.drop_first()[j].0)@);
        }
        lemma_nm_len(s.drop_first());
        assert(forall|i: int| 0 <= i < s.drop_first().len() ==> (#[trigger] s.drop_first()[i].0)@
            != s.first().0@) by {
            assert(forall|i: int| 0 <= i < s.drop_first().len() ==> s.drop_first()[i] == s[i + 1]);
        }
        lemma_nm_absent(s.drop_first(), s.first().0@);
        assert(nm_view(s).dom() =~= nm_view(s.drop_first()).dom().insert(s.first().0@));
    }
}

/// The index of the first pair named `name`, or the list's length.
pub fn nm_find<V>(s: &Vec<(MPathElement, V)>, name: &MPathElement) -> (r: usize)
    ensures
        r <= s@.len(),
        r < s@.len() ==> (s@[r as int].0)@ == name@,
        forall|j: int| 0 <= j < r ==> (#[trigger] s@[j].0)@ != name@,
{
    let mut k: usize = 0;
    while k < s.len()
        invariant
            0 <= k <= s@.len(),
            forall|j: int| 0 <= j < k ==> (#[trigger] s@[j].0)@ != name@,
        decreases s@.len() - k,
    {
        if s[k].0 == *name {
            return k;
        }
        k = k + 1;
    }
    k
}

/// The value stored under `name`, if any.
pub fn nm_get<'a, V>(s: &'a Vec<(MPathElement, V)>, name: &MPathElement) -> (r: Option<&'a V>)
    ensures
        match r {
            Some(v) => nm_view(s@).contains_key(name@) && *v == nm_view(s@)[name@],
            None => !nm_view(s@).contains_key(name@),
        },
{
    let k = nm_find(s, name);
    if k < s.len() {
        proof {
            lemma_nm_present(s@, k as int);
        }
        Some(&s[k].1)
    } else {
        proof {
            lemma_nm_absent(s@, name@);
        }
        None
    }
}

/// Set the value stored under `name`, keeping names unique.
pub fn nm_set<V>(s: &mut Vec<(MPathElement, V)>, name: MPathElement, value: V)
    requires
        nm_unique(old(s)@),
    ensures
        nm_unique(final(s)@),
        nm_view(final(s)@) == nm_view(old(s)@).insert(name@, value),
        final(s)@.len() == old(s)@.len() || final(s)@.len() == old(s)@.len() + 1,
        (exists|k: int|
            0 <= k < old(s)@.len() && final(s)@ == old(s)@.update(k, (name, value))) || final(s)@
            == old(s)@.push((name, value)),
{
    let k = nm_find(s, &name);
    if k < s.len() {
        let ghost olds = s@;
        let ghost x = (name, value);
        let _ = s.remove(k);
        s.insert(k, (name, value));
        proof {
            assert(s@ =~= olds.update(k as int, x));
            lemma_nm_update_first(olds, k as int, x);
            assert(nm_unique(s@)) by {
                assert(forall|i: int|
                    0 <= i < s@.len() ==> (#[trigger] s@[i].0)@ == olds[i].0@);
            }
        }
    } else {
        let ghost olds = s@;
        s.push((name, value));
        proof {
            lemma_nm_push_fresh(olds, s@.last());
            assert(nm_unique(s@)) by {
                assert(forall|i: int| 0 <= i < olds.len() ==> s@[i] == olds[i]);
                assert(s@.last().0@ == name@);
            }
        }
    }
}

} // verus!
