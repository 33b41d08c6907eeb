//! Small records carried between the core and its surrounding services.

use vstd::prelude::*;

use crate::filestore::ContentId;
use crate::manifest::NodeHash;
use crate::path::MPath;

verus! {

/// A named hook and its code, run by a hook engine outside this crate.
#[derive(Clone)]
pub struct LuaHook {
    /// The hook's name.
    pub name: String,
    /// The hook's code.
    pub code: String,
}

impl LuaHook {
    /// A hook record with the given name and code.
    pub fn new(name: String, code: String) -> (r: LuaHook)
        ensures
            r.name@ == name@,
            r.code@ == code@,
    {
        LuaHook { name, code }
    }
}

/// One entry of a path's history: who changed it last.
pub struct HistoryEntry {
    /// The name the entry is listed under.
    pub name: String,
    /// The changeset that made the change.
    pub changeset_id: NodeHash,
}

/// A change to one file of a changeset, queued for a consistency check.
#[derive(Clone)]
pub struct FileInformation {
    cs_id: NodeHash,
    mpath: MPath,
    id: ContentId,
    size: u64,
}

/// What a file change carries: its new content id and size, or nothing for
/// a deletion.
#[derive(Clone, Copy, PartialEq, Eq, Structural, Debug)]
pub struct FileChange {
    pub content_id: ContentId,
    pub size: u64,
}

impl FileInformation {
    /// The check record of one file change: its path and new content for a
    /// change, `None` for a deletion, which needs no content check.
    pub fn maybe_from_change(cs_id: NodeHash, mpath: &MPath, change: Option<&FileChange>) -> (r:
        Option<FileInformation>)
        ensures
            match r {
                Some(info) => change matches Some(c) && info.spec_id() == c.content_id
                    && info.spec_size() == c.size && info.spec_cs_id() == cs_id
                    && info.spec_path() == mpath@,
                None => change is None,
            },
    {
        match change {
            Some(change) => Some(
                FileInformation {
                    cs_id,
                    mpath: mpath.clone(),
                    id: change.content_id,
                    size: change.size,
                },
            ),
            None => None,
        }
    }

    /// The changeset the change belongs to.
    pub closed spec fn spec_cs_id(&self) -> NodeHash {
        self.cs_id
    }

    /// The path the change touches.
    pub closed spec fn spec_path(&self) -> Seq<Seq<u8>> {
        self.mpath@
    }

    /// The new content id.
    pub closed spec fn spec_id(&self) -> ContentId {
        self.id
    }

    /// The new content size.
    pub closed spec fn spec_size(&self) -> u64 {
        self.size
    }

    /// The new content id.
    pub fn content_id(&self) -> (r: ContentId)
        ensures
            r == self.spec_id(),
    {
        self.id
    }

    /// The new content size.
    pub fn size(&self) -> (r: u64)
        ensures
            r == self.spec_size(),
    {
        self.size
    }
}

/// A stream stub that reports pending a fixed number of times before it
/// ends: used to exercise callers' polling loops.
pub struct NotReadyEmptyStream {
    /// How many more polls report pending before the stream ends.
    pub poll_count: usize,
}

/// The outcome of polling a stream stub.
#[derive(Clone, Copy, PartialEq, Eq, Structural, Debug)]
pub enum PollOutcome {
    /// The stream has nothing yet.
    Pending,
    /// The stream has ended.
    Finished,
}

impl NotReadyEmptyStream {
    /// A stub that reports pending `poll_count` times.
    pub fn new(poll_count: usize) -> (r: Self)
        ensures
            r.poll_count == poll_count,
    {
        NotReadyEmptyStream { poll_count }
    }

    /// Poll once: pending while polls remain, then finished.
    pub fn poll(&mut self) -> (r: PollOutcome)
        ensures
            old(self).poll_count == 0 ==> r == PollOutcome::Finished && final(self).poll_count
                == 0,
            old(self).poll_count > 0 ==> r == PollOutcome::Pending && final(self).poll_count == old(
                self,
            ).poll_count - 1,
    {
        if self.poll_count == 0 {
            PollOutcome::Finished
        } else {
            self.poll_count = self.poll_count - 1;
            PollOutcome::Pending
        }
    }
}

} // verus!
