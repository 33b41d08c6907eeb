//! A blob store wrapper that injects random failures.
//!
//! Used to test upstream consistency logic, never in production: each read
//! and write succeeds only with a configured probability, given as a ratio,
//! and fails with an identifiable [`FailingBlobstoreError`] otherwise. A
//! wrapper whose read ratio is zero fails every read; one whose ratios are
//! both one never injects a failure.

use vstd::prelude::*;

use crate::blobstore::{BlobError, Blobstore, FailingBlobstoreError};
use rand::RngExt;

verus! {

/// Relies on rand's `RngExt::random_ratio` through a thread-local generator:
/// a coin that is true with probability `numerator / denominator`, documented
/// (and visible in `Bernoulli::from_ratio`) to be always false when the
/// numerator is zero and always true when numerator and denominator agree.
/// It panics when `denominator == 0` or `numerator > denominator`, so those
/// inputs are excluded.
#[verifier::external_body]
fn random_ratio(numerator: u32, denominator: u32) -> (r: bool)
    requires
        0 < denominator,
        numerator <= denominator,
    ensures
        numerator == 0 ==> r == false,
        numerator == denominator ==> r == true,
{
    rand::rng().random_ratio(numerator, denominator)
}

/// A store that randomly fails reads and writes of an inner store.
pub struct FailingBlobstore<B> {
    inner: B,
    read_success_numerator: u32,
    read_success_denominator: u32,
    write_success_numerator: u32,
    write_success_denominator: u32,
}

impl<B: Blobstore> FailingBlobstore<B> {
    /// Wrap `inner`, succeeding reads with probability
    /// `read_success_numerator / read_success_denominator` and writes with
    /// probability `write_success_numerator / write_success_denominator`.
    pub fn new(
        inner: B,
        read_success_numerator: u32,
        read_success_denominator: u32,
        write_success_numerator: u32,
        write_success_denominator: u32,
    ) -> (r: Self)
        requires
            0 < read_success_denominator,
            read_success_numerator <= read_success_denominator,
            0 < write_success_denominator,
            write_success_numerator <= write_success_denominator,
        ensures
            r.contents() == inner.contents(),
            r.reads_fail() == (read_success_numerator == 0),
            r.writes_fail() == (write_success_numerator == 0),
            r.reliable() == (inner.reliable() && read_success_numerator
                == read_success_denominator && write_success_numerator
                == write_success_denominator),
    {
        FailingBlobstore {
            inner,
            read_success_numerator,
            read_success_denominator,
            write_success_numerator,
            write_success_denominator,
        }
    }
}

impl<B: Blobstore> Blobstore for FailingBlobstore<B> {
    closed spec fn contents(&self) -> Map<Seq<char>, Seq<u8>> {
        self.inner.contents()
    }

    closed spec fn reliable(&self) -> bool {
        &&& self.inner.reliable()
        &&& 0 < self.read_success_denominator
        &&& self.read_success_numerator == self.read_success_denominator
        &&& 0 < self.write_success_denominator
        &&& self.write_success_numerator == self.write_success_denominator
    }

    closed spec fn reads_fail(&self) -> bool {
        ||| self.read_success_numerator == 0
        ||| self.read_success_denominator == 0
        ||| self.read_success_numerator > self.read_success_denominator
    }

    closed spec fn writes_fail(&self) -> bool {
        ||| self.write_success_numerator == 0
        ||| self.write_success_denominator == 0
        ||| self.write_success_numerator > self.write_success_denominator
    }

    fn put(&mut self, key: String, value: Vec<u8>) -> (r: Result<(), BlobError>) {
        if self.write_success_denominator == 0 || self.write_success_numerator
            > self.write_success_denominator {
            return Err(BlobError::Injected(FailingBlobstoreError));
        }
        if random_ratio(self.write_success_numerator, self.write_success_denominator) {
            self.inner.put(key, value)
        } else {
            Err(BlobError::Injected(FailingBlobstoreError))
        }
    }

    fn get(&self, key: &String) -> (r: Result<Option<Vec<u8>>, BlobError>) {
        if self.read_success_denominator == 0 || self.read_success_numerator
            > self.read_success_denominator {
            return Err(BlobError::Injected(FailingBlobstoreError));
        }
        if random_ratio(self.read_success_numerator, self.read_success_denominator) {
            self.inner.get(key)
        } else {
            Err(BlobError::Injected(FailingBlobstoreError))
        }
    }

    fn is_present(&self, key: &String) -> (r: Result<bool, BlobError>) {
        if self.read_success_denominator == 0 || self.read_success_numerator
            > self.read_success_denominator {
            return Err(BlobError::Injected(FailingBlobstoreError));
        }
        if random_ratio(self.read_success_numerator, self.read_success_denominator) {
            self.inner.is_present(key)
        } else {
            Err(BlobError::Injected(FailingBlobstoreError))
        }
    }

    fn assert_present(&self, key: &String) -> (r: Result<(), BlobError>) {
        if self.read_success_denominator == 0 || self.read_success_numerator
            > self.read_success_denominator {
            return Err(BlobError::Injected(FailingBlobstoreError));
        }
        if random_ratio(self.read_success_numerator, self.read_success_denominator) {
            self.inner.assert_present(key)
        } else {
            Err(BlobError::Injected(FailingBlobstoreError))
        }
    }
}

} // verus!
