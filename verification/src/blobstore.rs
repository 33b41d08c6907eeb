//! The key/value blob store contract and its in-memory reference
//! implementations.
//!
//! A blob store maps opaque string keys to immutable byte blobs. Every
//! higher layer of the crate is written against the [`Blobstore`] trait
//! alone: its contract is stated over a mathematical view of the store, a
//! `Map<Seq<char>, Seq<u8>>`, plus three mode predicates. `reliable()` marks
//! a store whose operations never fail; `reads_fail()` and `writes_fail()`
//! mark one that fails every read, or every write, with the injected error.
//! A store may be none of these, in which case each operation may fail or
//! succeed, and the contract pins the result only on success.

use vstd::prelude::*;

verus! {

/// The injected failure value handed out by a failing store wrapper.
#[derive(Clone, Copy, PartialEq, Eq, Structural, Debug)]
pub struct FailingBlobstoreError;

/// An error from a blob store operation.
#[derive(Clone, Copy, PartialEq, Eq, Structural, Debug)]
pub enum BlobError {
    /// A read or write failed in the underlying store.
    Injected(FailingBlobstoreError),
    /// `assert_present` found no value under the key.
    Missing,
}

/// An asynchronous-in-spirit key/value store of immutable blobs.
///
/// `contents()` is the logical mapping from keys to blobs. `put` extends it,
/// `get` reads it back; once the result of a `put` is observed, a `get` of
/// the same key through the same handle returns the written bytes.
pub trait Blobstore: Sized {
    /// The logical key to blob mapping held by the store.
    spec fn contents(&self) -> Map<Seq<char>, Seq<u8>>;

    /// True of a store whose operations never fail.
    spec fn reliable(&self) -> bool;

    /// True of a store that fails every read with an injected error.
    spec fn reads_fail(&self) -> bool;

    /// True of a store that fails every write with an injected error.
    spec fn writes_fail(&self) -> bool;

    /// Write `value` under `key`, overwriting any previous blob.
    fn put(&mut self, key: String, value: Vec<u8>) -> (r: Result<(), BlobError>)
        ensures
            final(self).reliable() == old(self).reliable(),
            final(self).reads_fail() == old(self).reads_fail(),
            final(self).writes_fail() == old(self).writes_fail(),
            match r {
                Ok(_) => final(self).contents() == old(self).contents().insert(key@, value@),
                Err(_) => final(self).contents() == old(self).contents(),
            },
            old(self).reliable() ==> r is Ok,
            old(self).writes_fail() ==> r == Err::<(), BlobError>(
                BlobError::Injected(FailingBlobstoreError),
            ),
    ;

    /// Read the blob under `key`, `None` when the key holds nothing.
    fn get(&self, key: &String) -> (r: Result<Option<Vec<u8>>, BlobError>)
        ensures
            match r {
                Ok(Some(v)) => self.contents().contains_key(key@) && v@ == self.contents()[key@],
                Ok(None) => !self.contents().contains_key(key@),
                Err(_) => true,
            },
            self.reliable() ==> r is Ok,
            self.reads_fail() ==> r == Err::<Option<Vec<u8>>, BlobError>(
                BlobError::Injected(FailingBlobstoreError),
            ),
    ;

    /// Report whether `key` holds a blob.
    fn is_present(&self, key: &String) -> (r: Result<bool, BlobError>)
        ensures
            match r {
                Ok(b) => b == self.contents().contains_key(key@),
                Err(_) => true,
            },
            self.reliable() ==> r is Ok,
            self.reads_fail() ==> r == Err::<bool, BlobError>(
                BlobError::Injected(FailingBlobstoreError),
            ),
    ;

    /// Fail unless `key` holds a blob.
    fn assert_present(&self, key: &String) -> (r: Result<(), BlobError>)
        ensures
            r is Ok ==> self.contents().contains_key(key@),
            self.reliable() && self.contents().contains_key(key@) ==> r is Ok,
            self.reads_fail() ==> r == Err::<(), BlobError>(
                BlobError::Injected(FailingBlobstoreError),
            ),
    ;
}

/// The key and blob views of an entry list.
pub open spec fn kv_view(s: Seq<(String, Vec<u8>)>) -> Seq<(Seq<char>, Seq<u8>)> {
    Seq::new(s.len(), |i: int| (s[i].0@, s[i].1@))
}

/// The mapping described by an entry list, later pairs overriding earlier
/// ones.
pub open spec fn assoc_map(s: Seq<(Seq<char>, Seq<u8>)>) -> Map<Seq<char>, Seq<u8>>
    decreases s.len(),
{
    if s.len() == 0 {
        Map::empty()
    } else {
        assoc_map(s.drop_last()).insert(s.last().0, s.last().1)
    }
}

/// A later entry list decides the keys it holds; the earlier list decides
/// the rest.
proof fn lemma_assoc_map_concat(p: Seq<(Seq<char>, Seq<u8>)>, q: Seq<(Seq<char>, Seq<u8>)>, key: Seq<
    char,
>)
    ensures
        assoc_map(q).contains_key(key) ==> assoc_map(p + q).contains_key(key) && assoc_map(p + q)[key]
            == assoc_map(q)[key],
        !assoc_map(q).contains_key(key) ==> assoc_map(p + q).contains_key(key) == assoc_map(
            p,
        ).contains_key(key) && (assoc_map(p).contains_key(key) ==> assoc_map(p + q)[key]
            == assoc_map(p)[key]),
    decreases q.len(),
{
    if q.len() == 0 {
        assert(p + q =~= p);
    } else {
        assert((p + q).drop_last() =~= p + q.drop_last());
        assert((p + q).last() == q.last());
        lemma_assoc_map_concat(p, q.drop_last(), key);
    }
}

/// Look up `key` in the entry list, preferring later pairs.
fn assoc_get(s: &Vec<(String, Vec<u8>)>, key: &String) -> (r: Option<Vec<u8>>)
    ensures
        match r {
            Some(v) => assoc_map(kv_view(s@)).contains_key(key@) && v@ == assoc_map(kv_view(s@))[key@],
            None => !assoc_map(kv_view(s@)).contains_key(key@),
        },
{
    let ghost full = kv_view(s@);
    let mut j: usize = s.len();
    proof {
        assert(full.subrange(0, j as int) =~= full);
    }
    while j > 0
        invariant
            0 <= j <= s@.len(),
            full == kv_view(s@),
            assoc_map(full).contains_key(key@) == assoc_map(full.subrange(0, j as int)).contains_key(
                key@,
            ),
            assoc_map(full).contains_key(key@) ==> assoc_map(full)[key@] == assoc_map(
                full.subrange(0, j as int),
            )[key@],
        decreases j,
    {
        j = j - 1;
        proof {
            assert(full.subrange(0, j as int + 1).drop_last() =~= full.subrange(0, j as int));
            assert(full.subrange(0, j as int + 1).last() == full[j as int]);
            assert(full[j as int] == (s@[j as int].0@, s@[j as int].1@));
        }
        if s[j].0 == *key {
            return Some(vstd::slice::slice_to_vec(s[j].1.as_slice()));
        }
    }
    proof {
        assert(full.subrange(0, 0) =~= Seq::<(Seq<char>, Seq<u8>)>::empty());
    }
    None
}

/// An in-memory blob store that performs each operation as it is called.
///
/// Reference implementation for testing callers; never fails.
pub struct EagerMemblob {
    entries: Vec<(String, Vec<u8>)>,
}

impl EagerMemblob {
    /// A fresh, empty in-memory store.
    pub fn new() -> (r: Self)
        ensures
            r.contents() == Map::<Seq<char>, Seq<u8>>::empty(),
            r.reliable(),
            !r.reads_fail(),
    {
        EagerMemblob { entries: Vec::new() }
    }
}

impl Blobstore for EagerMemblob {
    closed spec fn contents(&self) -> Map<Seq<char>, Seq<u8>> {
        assoc_map(kv_view(self.entries@))
    }

    open spec fn reliable(&self) -> bool {
        true
    }

    open spec fn reads_fail(&self) -> bool {
        false
    }

    open spec fn writes_fail(&self) -> bool {
        false
    }

    fn put(&mut self, key: String, value: Vec<u8>) -> (r: Result<(), BlobError>) {
        let ghost k = key@;
        let ghost v = value@;
        self.entries.push((key, value));
        proof {
            assert(kv_view(self.entries@).drop_last() =~= kv_view(old(self).entries@));
            assert(kv_view(self.entries@).last() == (k, v));
        }
        Ok(())
    }

    fn get(&self, key: &String) -> (r: Result<Option<Vec<u8>>, BlobError>) {
        Ok(assoc_get(&self.entries, key))
    }

    fn is_present(&self, key: &String) -> (r: Result<bool, BlobError>) {
        Ok(assoc_get(&self.entries, key).is_some())
    }

    fn assert_present(&self, key: &String) -> (r: Result<(), BlobError>) {
        match assoc_get(&self.entries, key) {
            Some(_) => Ok(()),
            None => Err(BlobError::Missing),
        }
    }
}

/// An in-memory blob store that defers the work of each write.
///
/// Observably equivalent to [`EagerMemblob`]: a write is only recorded in a
/// pending queue when `put` returns, and is consulted by later reads in
/// write order. The distinction exists for callers that test against both
/// execution orders.
pub struct LazyMemblob {
    settled: Vec<(String, Vec<u8>)>,
    pending: Vec<(String, Vec<u8>)>,
}

impl LazyMemblob {
    /// A fresh, empty in-memory store.
    pub fn new() -> (r: Self)
        ensures
            r.contents() == Map::<Seq<char>, Seq<u8>>::empty(),
            r.reliable(),
            !r.reads_fail(),
    {
        LazyMemblob { settled: Vec::new(), pending: Vec::new() }
    }
}

impl Blobstore for LazyMemblob {
    closed spec fn contents(&self) -> Map<Seq<char>, Seq<u8>> {
        assoc_map(kv_view(self.settled@) + kv_view(self.pending@))
    }

    open spec fn reliable(&self) -> bool {
        true
    }

    open spec fn reads_fail(&self) -> bool {
        false
    }

    open spec fn writes_fail(&self) -> bool {
        false
    }

    fn put(&mut self, key: String, value: Vec<u8>) -> (r: Result<(), BlobError>) {
        let ghost k = key@;
        let ghost v = value@;
        self.pending.push((key, value));
        proof {
            let all = kv_view(self.settled@) + kv_view(self.pending@);
            assert(all.drop_last() =~= kv_view(old(self).settled@) + kv_view(old(self).pending@));
            assert(all.last() == (k, v));
        }
        Ok(())
    }

    fn get(&self, key: &String) -> (r: Result<Option<Vec<u8>>, BlobError>) {
        proof {
            lemma_assoc_map_concat(kv_view(self.settled@), kv_view(self.pending@), key@);
        }
        match assoc_get(&self.pending, key) {
            Some(v) => Ok(Some(v)),
            None => Ok(assoc_get(&self.settled, key)),
        }
    }

    fn is_present(&self, key: &String) -> (r: Result<bool, BlobError>) {
        match self.get(key) {
            Ok(opt) => Ok(opt.is_some()),
            Err(e) => Err(e),
        }
    }

    fn assert_present(&self, key: &String) -> (r: Result<(), BlobError>) {
        match self.get(key) {
            Ok(Some(_)) => Ok(()),
            Ok(None) => Err(BlobError::Missing),
            Err(e) => Err(e),
        }
    }
}

} // verus!
