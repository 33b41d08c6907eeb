//! Decoders of bundle parts and validation of part headers.
//!
//! A bookmarks part is framed as a big-endian length followed by that many
//! payload bytes; its unpacker consumes the length first and hands out the
//! payload once it has arrived whole, exactly once. A part header is
//! checked against the parameters each known part accepts; an unknown
//! mandatory part is an error, an unknown advisory part is skipped.

use vstd::prelude::*;

use crate::codec;

verus! {

/// The bytes a frozen buffer holds.
///
/// Relies on the bytes crate: `Bytes` is an immutable byte sequence.
pub uninterp spec fn bytes_view(b: bytes::Bytes) -> Seq<u8>;

/// The bytes a mutable buffer holds.
///
/// Relies on the bytes crate: `BytesMut` is a mutable byte sequence.
pub uninterp spec fn bytes_mut_view(b: bytes::BytesMut) -> Seq<u8>;

#[verifier::external_type_specification]
#[verifier::external_body]
pub struct ExBytes(bytes::Bytes);

#[verifier::external_type_specification]
#[verifier::external_body]
pub struct ExBytesMut(bytes::BytesMut);

/// Relies on `BytesMut::len`: the number of bytes the buffer holds.
#[verifier::external_body]
fn buf_len(b: &bytes::BytesMut) -> (r: usize)
    ensures
        r == bytes_mut_view(*b).len(),
{
    b.len()
}

/// Relies on `BytesMut::split_to`: the first `at` bytes leave the buffer
/// and are returned; the buffer keeps the rest. Panics when `at` exceeds
/// the length, so that is excluded.
#[verifier::external_body]
fn buf_split_to(b: &mut bytes::BytesMut, at: usize) -> (r: bytes::BytesMut)
    requires
        at <= bytes_mut_view(*old(b)).len(),
    ensures
        bytes_mut_view(r) == bytes_mut_view(*old(b)).subrange(0, at as int),
        bytes_mut_view(*final(b)) == bytes_mut_view(*old(b)).subrange(
            at as int,
            bytes_mut_view(*old(b)).len() as int,
        ),
{
    b.split_to(at)
}

/// Relies on `BytesMut::freeze`: the same bytes, immutable.
#[verifier::external_body]
fn buf_freeze(b: bytes::BytesMut) -> (r: bytes::Bytes)
    ensures
        bytes_view(r) == bytes_mut_view(b),
{
    b.freeze()
}

/// Relies on `<BytesMut as AsRef<[u8]>>::as_ref`: a copy of the bytes the
/// buffer holds.
#[verifier::external_body]
fn buf_to_vec(b: &bytes::BytesMut) -> (r: Vec<u8>)
    ensures
        r@ == bytes_mut_view(*b),
{
    b.as_ref().to_vec()
}

/// An error from decoding a bundle part or validating its header.
#[derive(Clone, Copy, PartialEq, Eq, Structural, Debug)]
pub enum BundleError {
    /// A mandatory part of an unknown type.
    UnknownPart,
    /// A known part carrying a parameter it does not accept.
    UnknownPartParams,
}

/// The unpacker of a bookmarks part: a big-endian length, then that many
/// payload bytes, handed out once.
pub struct InfinitepushBookmarksUnpacker {
    finished: bool,
    expected_len: Option<usize>,
}

impl InfinitepushBookmarksUnpacker {
    /// True once the payload has been handed out.
    pub closed spec fn spec_finished(&self) -> bool {
        self.finished
    }

    /// The payload length read from the frame, once it has arrived.
    pub closed spec fn spec_expected_len(&self) -> Option<usize> {
        self.expected_len
    }

    /// A fresh unpacker that has consumed nothing.
    pub fn new() -> (r: Self)
        ensures
            !r.spec_finished(),
            r.spec_expected_len() is None,
    {
        Self { finished: false, expected_len: None }
    }

    /// Consume what the buffer holds: first the four length bytes, then,
    /// once the whole payload has arrived, the payload itself, exactly
    /// once; `None` while more bytes are needed or after the payload.
    pub fn decode(&mut self, buf: &mut bytes::BytesMut) -> (r: Result<
        Option<bytes::Bytes>,
        BundleError,
    >)
        ensures
            ({
                let bv = bytes_mut_view(*old(buf));
                if old(self).spec_finished() {
                    &&& r == Ok::<Option<bytes::Bytes>, BundleError>(None)
                    &&& *final(self) == *old(self)
                    &&& bytes_mut_view(*final(buf)) == bv
                } else {
                    match old(self).spec_expected_len() {
                        Some(toread) => if bv.len() < toread {
                            &&& r == Ok::<Option<bytes::Bytes>, BundleError>(None)
                            &&& *final(self) == *old(self)
                            &&& bytes_mut_view(*final(buf)) == bv
                        } else {
                            &&& r matches Ok(Some(payload)) && bytes_view(payload) == bv.subrange(
                                0,
                                toread as int,
                            )
                            &&& final(self).spec_finished()
                            &&& bytes_mut_view(*final(buf)) == bv.subrange(
                                toread as int,
                                bv.len() as int,
                            )
                        },
                        None => if bv.len() >= 4 {
                            &&& r == Ok::<Option<bytes::Bytes>, BundleError>(None)
                            &&& !final(self).spec_finished()
                            &&& final(self).spec_expected_len() == Some(
                                codec::u32_from_bytes(bv.subrange(0, 4)) as usize,
                            )
                            &&& bytes_mut_view(*final(buf)) == bv.subrange(4, bv.len() as int)
                        } else {
                            &&& r == Ok::<Option<bytes::Bytes>, BundleError>(None)
                            &&& *final(self) == *old(self)
                            &&& bytes_mut_view(*final(buf)) == bv
                        },
                    }
                }
            }),
    {
        if self.finished {
            return Ok(None);
        }
        match self.expected_len {
            Some(toread) => {
                if buf_len(buf) < toread {
                    Ok(None)
                } else {
                    self.finished = true;
                    let payload = buf_split_to(buf, toread);
                    Ok(Some(buf_freeze(payload)))
                }
            },
            None => {
                if buf_len(buf) >= 4 {
                    let head = buf_split_to(buf, 4);
                    let head_bytes = buf_to_vec(&head);
                    let n = codec::u32_decode(head_bytes.as_slice());
                    self.expected_len = Some(n as usize);
                }
                Ok(None)
            },
        }
    }
}

/// The decoder of an intentionally empty part: it consumes nothing and
/// never yields an item.
pub struct EmptyUnpacker;

impl EmptyUnpacker {
    /// Report that the part holds nothing.
    pub fn decode(&mut self, buf: &mut bytes::BytesMut) -> (r: Result<Option<()>, BundleError>)
        ensures
            r == Ok::<Option<()>, BundleError>(None),
            bytes_mut_view(*final(buf)) == bytes_mut_view(*old(buf)),
    {
        Ok(None)
    }
}

/// The type of one bundle part.
#[derive(Clone, Copy, PartialEq, Eq, Structural, Debug)]
pub enum PartHeaderType {
    Changegroup,
    B2xCommonHeads,
    B2xInfinitepush,
    B2xInfinitepushBookmarks,
    B2xTreegroup2,
    Replycaps,
    Pushkey,
}

/// A part header: the part's type, whether a receiver must understand it,
/// and the names of its mandatory parameters.
pub struct PartHeader {
    pub part_type: PartHeaderType,
    pub mandatory: bool,
    pub mparams: Vec<String>,
}

/// True of part types whose parameters this receiver knows.
pub open spec fn part_known(t: PartHeaderType) -> bool {
    match t {
        PartHeaderType::Changegroup => true,
        PartHeaderType::B2xInfinitepush => true,
        PartHeaderType::B2xInfinitepushBookmarks => true,
        PartHeaderType::B2xTreegroup2 => true,
        PartHeaderType::Replycaps => true,
        PartHeaderType::Pushkey => true,
        PartHeaderType::B2xCommonHeads => false,
    }
}

/// True when a known part accepts a parameter of this name.
pub open spec fn spec_param_known(t: PartHeaderType, p: Seq<char>) -> bool {
    match t {
        PartHeaderType::Changegroup => p == "version"@ || p == "nbchanges"@ || p
            == "treemanifest"@,
        PartHeaderType::B2xInfinitepush => p == "pushbackbookmarks"@ || p == "cgversion"@ || p
            == "bookmark"@ || p == "bookprevnode"@ || p == "create"@ || p == "force"@,
        PartHeaderType::B2xInfinitepushBookmarks => false,
        PartHeaderType::B2xTreegroup2 => p == "version"@ || p == "cache"@ || p == "category"@,
        PartHeaderType::Replycaps => false,
        PartHeaderType::Pushkey => p == "namespace"@ || p == "key"@ || p == "old"@ || p == "new"@,
        PartHeaderType::B2xCommonHeads => false,
    }
}

/// Report whether a known part accepts a parameter of this name.
fn param_known(t: PartHeaderType, p: &String) -> (r: bool)
    ensures
        r == spec_param_known(t, p@),
{
    match t {
        PartHeaderType::Changegroup => *p == "version".to_owned() || *p == "nbchanges".to_owned()
            || *p == "treemanifest".to_owned(),
        PartHeaderType::B2xInfinitepush => *p == "pushbackbookmarks".to_owned() || *p
            == "cgversion".to_owned() || *p == "bookmark".to_owned() || *p
            == "bookprevnode".to_owned() || *p == "create".to_owned() || *p == "force".to_owned(),
        PartHeaderType::B2xInfinitepushBookmarks => false,
        PartHeaderType::B2xTreegroup2 => *p == "version".to_owned() || *p == "cache".to_owned()
            || *p == "category".to_owned(),
        PartHeaderType::Replycaps => false,
        PartHeaderType::Pushkey => *p == "namespace".to_owned() || *p == "key".to_owned() || *p
            == "old".to_owned() || *p == "new".to_owned(),
        PartHeaderType::B2xCommonHeads => false,
    }
}

/// Validate a part header: a known part must carry only parameters it
/// accepts; an unknown part passes only when advisory, and is then skipped.
pub fn validate_header(header: PartHeader) -> (r: Result<Option<PartHeader>, BundleError>)
    ensures
        part_known(header.part_type) ==> match r {
            Ok(Some(h)) => h == header && forall|i: int|
                0 <= i < header.mparams@.len() ==> spec_param_known(
                    header.part_type,
                    (#[trigger] header.mparams@[i])@,
                ),
            Ok(None) => false,
            Err(e) => e == BundleError::UnknownPartParams && exists|i: int|
                0 <= i < header.mparams@.len() && !spec_param_known(
                    header.part_type,
                    (#[trigger] header.mparams@[i])@,
                ),
        },
        !part_known(header.part_type) ==> r == if header.mandatory {
            Err::<Option<PartHeader>, BundleError>(BundleError::UnknownPart)
        } else {
            Ok::<Option<PartHeader>, BundleError>(None)
        },
{
    let known = match header.part_type {
        PartHeaderType::B2xCommonHeads => false,
        _ => true,
    };
    if known {
        let n = header.mparams.len();
        let mut i: usize = 0;
        while i < n
            invariant
                0 <= i <= n,
                n == header.mparams@.len(),
                part_known(header.part_type),
                forall|j: int|
                    0 <= j < i ==> spec_param_known(
                        header.part_type,
                        (#[trigger] header.mparams@[j])@,
                    ),
            decreases n - i,
        {
            if !param_known(header.part_type, &header.mparams[i]) {
                return Err(BundleError::UnknownPartParams);
            }
            i = i + 1;
        }
        Ok(Some(header))
    } else {
        if header.mandatory {
            Err(BundleError::UnknownPart)
        } else {
            Ok(None)
        }
    }
}

} // verus!
