//! A copy-on-write, in-memory overlay over a persisted manifest tree.
//!
//! A [`MemoryRootManifest`] is rooted either at an empty tree or at a
//! persisted tree id. Reads resolve through the in-memory override map and
//! fall back to the persisted base; writes record overrides only. `save`
//! persists the overlay bottom-up into new content-addressed tree blobs,
//! reusing unmodified subtrees, pruning emptied directories and refusing
//! unresolved merge conflicts. `merge_with_conflicts` combines two trees
//! name by name, keeping both sides of any disagreement as an explicit
//! [`MemoryManifestEntry::Conflict`].

use vstd::prelude::*;

use crate::blobstore::{BlobError, Blobstore, FailingBlobstoreError};
use crate::codec;
use crate::manifest::{
    decode_entries, decode_manifest, entries_deep_view, manifest_find, Entry, LeafEntry, NodeHash,
};
use crate::namemap::{nm_get, nm_set, nm_unique, nm_view};
use crate::path::{MPath, MPathElement};

verus! {

broadcast use vstd::std_specs::vec::group_vec_axioms;

/// An error from an overlay operation.
#[derive(Clone, Copy, PartialEq, Eq, Structural, Debug)]
pub enum MemError {
    /// The underlying blob store failed.
    Blob(BlobError),
    /// A referenced tree blob was absent from the store.
    MissingTree(NodeHash),
    /// A referenced tree blob did not decode.
    CorruptTree(NodeHash),
    /// A blob was already stored under a derived key with other bytes.
    CorruptStore,
    /// The overlay still holds an unresolved merge conflict.
    UnresolvedConflict,
    /// A parent id was given without a first parent.
    InvalidRoot,
}

/// The override map of one in-memory tree node: `None` marks a deletion,
/// absence means the base decides.
pub struct ChangeMap {
    /// The overridden names, each at most once.
    pub entries: Vec<(MPathElement, Option<MemoryManifestEntry>)>,
}

/// One node of the in-memory overlay.
pub enum MemoryManifestEntry {
    /// A directory: up to one persisted base, merge provenance, overrides.
    MemTree {
        base_manifest_id: Option<NodeHash>,
        p1: Option<NodeHash>,
        p2: Option<NodeHash>,
        changes: ChangeMap,
    },
    /// An unmodified or newly set file leaf.
    Blob(LeafEntry),
    /// An unresolved merge conflict: each side's candidate, two or more.
    Conflict(Vec<MemoryManifestEntry>),
}

impl ChangeMap {
    /// An empty override map.
    pub fn new() -> (r: Self)
        ensures
            r.entries@.len() == 0,
            nm_view(r.entries@) == Map::<Seq<u8>, Option<MemoryManifestEntry>>::empty(),
            nm_unique(r.entries@),
    {
        ChangeMap { entries: Vec::new() }
    }

    /// The override stored for `name`, if any.
    pub fn get(&self, name: &MPathElement) -> (r: Option<&Option<MemoryManifestEntry>>)
        ensures
            match r {
                Some(v) => nm_view(self.entries@).contains_key(name@) && *v == nm_view(
                    self.entries@,
                )[name@],
                None => !nm_view(self.entries@).contains_key(name@),
            },
    {
        nm_get(&self.entries, name)
    }

    /// Record an override for `name`.
    pub fn set(&mut self, name: MPathElement, value: Option<MemoryManifestEntry>)
        requires
            nm_unique(old(self).entries@),
        ensures
            nm_unique(final(self).entries@),
            nm_view(final(self).entries@) == nm_view(old(self).entries@).insert(name@, value),
            (exists|k: int|
                0 <= k < old(self).entries@.len() && final(self).entries@ == old(
                    self,
                ).entries@.update(k, (name, value))) || final(self).entries@ == old(
                self,
            ).entries@.push((name, value)),
    {
        nm_set(&mut self.entries, name, value)
    }

    /// The number of overridden names.
    pub fn len(&self) -> (r: usize)
        ensures
            r == self.entries@.len(),
    {
        self.entries.len()
    }

    /// True when no name is overridden.
    pub fn is_empty(&self) -> (r: bool)
        ensures
            r == (self.entries@.len() == 0),
    {
        self.entries.len() == 0
    }
}

/// True of overlay nodes whose override maps all have unique names and
/// whose conflicts are flat and two-sided.
pub open spec fn mme_wf(e: MemoryManifestEntry) -> bool
    decreases e,
{
    match e {
        MemoryManifestEntry::Blob(_) => true,
        MemoryManifestEntry::MemTree { changes, .. } => {
            &&& nm_unique(changes.entries@)
            &&& forall|i: int|
                0 <= i < changes.entries@.len() ==> match (#[trigger] changes.entries@[i]).1 {
                    Some(c) => mme_wf(c),
                    None => true,
                }
        },
        MemoryManifestEntry::Conflict(sides) => {
            &&& sides@.len() >= 2
            &&& forall|i: int|
                0 <= i < sides@.len() ==> mme_wf(#[trigger] sides@[i]) && !((#[trigger] sides@[i])
                    is Conflict)
        },
    }
}

/// The view of the blob store key holding the tree blob of `id`.
pub open spec fn tree_key_view(id: NodeHash) -> Seq<char> {
    "tree."@ + codec::u64_hex_seq(id.0)
}

/// The blob store key holding the tree blob of `id`.
pub fn tree_key(id: NodeHash) -> (r: String)
    ensures
        r@ == tree_key_view(id),
{
    let mut s = "tree.".to_owned();
    let hex = codec::u64_hex(id.0);
    s.append(hex.as_str());
    s
}

/// The entry list persisted for `id`, `None` when absent or malformed.
pub open spec fn stored_tree(m: Map<Seq<char>, Seq<u8>>, id: NodeHash) -> Option<
    Seq<(Seq<u8>, Entry<NodeHash, LeafEntry>)>,
> {
    if m.contains_key(tree_key_view(id)) {
        decode_entries(m[tree_key_view(id)])
    } else {
        None
    }
}

/// The outcome of resolving a path against a tree.
pub enum FindResult {
    /// A referenced tree blob was absent or malformed.
    Failure,
    /// Nothing lives at the path.
    Absent,
    /// A directory lives there; its persisted id where it has one.
    FoundTree(Option<NodeHash>),
    /// A file leaf lives there.
    FoundLeaf(LeafEntry),
    /// An unresolved merge conflict lives there, or on the way there.
    FoundConflict,
}

/// Resolve the path `q` against a persisted entry through the store `m`.
pub open spec fn stored_entry_find(
    m: Map<Seq<char>, Seq<u8>>,
    e: Entry<NodeHash, LeafEntry>,
    q: Seq<Seq<u8>>,
) -> FindResult
    decreases q.len(),
{
    if q.len() == 0 {
        match e {
            Entry::Tree(id) => FindResult::FoundTree(Some(id)),
            Entry::Leaf(l) => FindResult::FoundLeaf(l),
        }
    } else {
        match e {
            Entry::Leaf(_) => FindResult::Absent,
            Entry::Tree(id) => match stored_tree(m, id) {
                None => FindResult::Failure,
                Some(s) => match manifest_find(s, q.first()) {
                    None => FindResult::Absent,
                    Some(child) => stored_entry_find(m, child, q.drop_first()),
                },
            },
        }
    }
}

/// A persisted entry never resolves to a merge conflict.
pub proof fn lemma_stored_no_conflict(
    m: Map<Seq<char>, Seq<u8>>,
    e: Entry<NodeHash, LeafEntry>,
    q: Seq<Seq<u8>>,
)
    ensures
        !(stored_entry_find(m, e, q) is FoundConflict),
    decreases q.len(),
{
    if q.len() > 0 {
        match e {
            Entry::Leaf(_) => {},
            Entry::Tree(id) => match stored_tree(m, id) {
                None => {},
                Some(s) => match manifest_find(s, q.first()) {
                    None => {},
                    Some(child) => {
                        lemma_stored_no_conflict(m, child, q.drop_first());
                    },
                },
            },
        }
    }
}

/// Resolve the path `q` against an overlay node through the store `m`.
pub open spec fn mem_find(
    m: Map<Seq<char>, Seq<u8>>,
    node: MemoryManifestEntry,
    q: Seq<Seq<u8>>,
) -> FindResult
    decreases q.len(),
{
    if q.len() == 0 {
        match node {
            MemoryManifestEntry::Blob(l) => FindResult::FoundLeaf(l),
            MemoryManifestEntry::MemTree { base_manifest_id, .. } => FindResult::FoundTree(
                base_manifest_id,
            ),
            MemoryManifestEntry::Conflict(_) => FindResult::FoundConflict,
        }
    } else {
        match node {
            MemoryManifestEntry::Blob(_) => FindResult::Absent,
            MemoryManifestEntry::Conflict(_) => FindResult::FoundConflict,
            MemoryManifestEntry::MemTree { base_manifest_id, changes, .. } => {
                let cv = nm_view(changes.entries@);
                if cv.contains_key(q.first()) {
                    match cv[q.first()] {
                        None => FindResult::Absent,
                        Some(child) => mem_find(m, child, q.drop_first()),
                    }
                } else {
                    match base_manifest_id {
                        Some(id) => stored_entry_find(m, Entry::Tree(id), q),
                        None => FindResult::Absent,
                    }
                }
            },
        }
    }
}

/// Load and decode the tree blob persisted for `id`.
pub fn load_tree<B: Blobstore>(store: &B, id: NodeHash) -> (r: Result<
    Vec<(MPathElement, Entry<NodeHash, LeafEntry>)>,
    MemError,
>)
    ensures
        match r {
            Ok(v) => {
                &&& stored_tree(store.contents(), id) == Some(entries_deep_view(v@))
                &&& forall|i: int| 0 <= i < v@.len() ==> (#[trigger] v@[i].0).is_valid()
            },
            Err(MemError::Blob(_)) => true,
            Err(MemError::MissingTree(_)) => !store.contents().contains_key(tree_key_view(id)),
            Err(MemError::CorruptTree(_)) => stored_tree(store.contents(), id) is None,
            Err(_) => false,
        },
        store.reliable() ==> (r is Ok <==> stored_tree(store.contents(), id) is Some),
        store.reliable() ==> !(r matches Err(MemError::Blob(_))),
        store.reads_fail() ==> r == Err::<
            Vec<(MPathElement, Entry<NodeHash, LeafEntry>)>,
            MemError,
        >(MemError::Blob(BlobError::Injected(FailingBlobstoreError))),
{
    let key = tree_key(id);
    match store.get(&key) {
        Err(e) => Err(MemError::Blob(e)),
        Ok(None) => Err(MemError::MissingTree(id)),
        Ok(Some(bytes)) => match decode_manifest(&bytes) {
            Ok(entries) => Ok(entries),
            Err(_) => Err(MemError::CorruptTree(id)),
        },
    }
}

/// The mutable overlay over one manifest tree.
pub struct MemoryRootManifest {
    root: MemoryManifestEntry,
}

impl MemoryRootManifest {
    /// Construct an overlay: over an empty tree when no base is given, over
    /// the persisted tree `base_id` when one is, and as a two-parent merge
    /// root with no base when both `base_id` and `p2_id` are given.
    pub fn new(base_id: Option<NodeHash>, p2_id: Option<NodeHash>) -> (r: Result<Self, MemError>)
        ensures
            match (base_id, p2_id) {
                (None, None) => r matches Ok(mr)
                    && mr.spec_root() matches MemoryManifestEntry::MemTree {
                    base_manifest_id,
                    p1,
                    p2,
                    changes,
                } && base_manifest_id is None && p1 is None && p2 is None && changes.entries@.len()
                    == 0,
                (Some(b), None) => r matches Ok(mr)
                    && mr.spec_root() matches MemoryManifestEntry::MemTree {
                    base_manifest_id,
                    p1,
                    p2,
                    changes,
                } && base_manifest_id == Some(b) && p1 == Some(b) && p2 is None
                    && changes.entries@.len() == 0,
                (Some(b), Some(q)) => r matches Ok(mr)
                    && mr.spec_root() matches MemoryManifestEntry::MemTree {
                    base_manifest_id,
                    p1,
                    p2,
                    changes,
                } && base_manifest_id is None && p1 == Some(b) && p2 == Some(q)
                    && changes.entries@.len() == 0,
                (None, Some(_)) => r matches Err(e) && e == MemError::InvalidRoot,
            },
            r matches Ok(mr) ==> mme_wf(mr.spec_root()),
    {
        match (base_id, p2_id) {
            (None, None) => Ok(MemoryRootManifest {
                root: MemoryManifestEntry::MemTree {
                    base_manifest_id: None,
                    p1: None,
                    p2: None,
                    changes: ChangeMap::new(),
                },
            }),
            (Some(b), None) => Ok(MemoryRootManifest {
                root: MemoryManifestEntry::MemTree {
                    base_manifest_id: Some(b),
                    p1: Some(b),
                    p2: None,
                    changes: ChangeMap::new(),
                },
            }),
            (Some(b), Some(q)) => Ok(MemoryRootManifest {
                root: MemoryManifestEntry::MemTree {
                    base_manifest_id: None,
                    p1: Some(b),
                    p2: Some(q),
                    changes: ChangeMap::new(),
                },
            }),
            (None, Some(_)) => Err(MemError::InvalidRoot),
        }
    }

    /// The root node of the overlay.
    pub fn root(&self) -> (r: &MemoryManifestEntry)
        ensures
            r == self.spec_root(),
    {
        &self.root
    }

    /// The root node of the overlay, for inspection by tests.
    pub fn unittest_root(&self) -> (r: &MemoryManifestEntry)
        ensures
            r == self.spec_root(),
    {
        &self.root
    }

    /// The root node of the overlay.
    pub closed spec fn spec_root(&self) -> MemoryManifestEntry {
        self.root
    }

    /// Resolve `path`, reading unmodified subtrees from the store.
    ///
    /// `Ok(Some)` and `Ok(None)` report exactly what lives at the path; an
    /// unresolved conflict there is an error, and on a reliable store an
    /// error is only that or a dangling or malformed tree reference.
    pub fn lookup<B: Blobstore>(&self, store: &B, path: &MPath) -> (r: Result<
        Option<Entry<Option<NodeHash>, LeafEntry>>,
        MemError,
    >)
        ensures
            match r {
                Ok(Some(Entry::Tree(t))) => mem_find(store.contents(), self.spec_root(), path@)
                    == FindResult::FoundTree(t),
                Ok(Some(Entry::Leaf(l))) => mem_find(store.contents(), self.spec_root(), path@)
                    == FindResult::FoundLeaf(l),
                Ok(None) => mem_find(store.contents(), self.spec_root(), path@)
                    == FindResult::Absent,
                Err(MemError::UnresolvedConflict) => mem_find(
                    store.contents(),
                    self.spec_root(),
                    path@,
                ) == FindResult::FoundConflict,
                Err(_) => !(mem_find(store.contents(), self.spec_root(), path@)
                    == FindResult::FoundConflict),
            },
            store.reliable() && !(mem_find(store.contents(), self.spec_root(), path@)
                == FindResult::Failure) ==> !(r matches Err(e) && e != MemError::UnresolvedConflict),
    {
        let elems = path.elements();
        proof {
            assert(crate::path::path_view(elems@).subrange(0, elems@.len() as int) =~= path@);
        }
        find_mem(store, &self.root, elems, 0)
    }
}

/// Resolve the path suffix `elems[idx..]` against a persisted entry.
fn find_stored<B: Blobstore>(
    store: &B,
    entry: Entry<NodeHash, LeafEntry>,
    elems: &Vec<MPathElement>,
    idx: usize,
) -> (r: Result<Option<Entry<Option<NodeHash>, LeafEntry>>, MemError>)
    requires
        idx <= elems@.len(),
    ensures
        ({
            let q = crate::path::path_view(elems@).subrange(idx as int, elems@.len() as int);
            let f = stored_entry_find(store.contents(), entry, q);
            &&& match r {
                Ok(Some(Entry::Tree(t))) => f == FindResult::FoundTree(t),
                Ok(Some(Entry::Leaf(l))) => f == FindResult::FoundLeaf(l),
                Ok(None) => f == FindResult::Absent,
                Err(e) => (f == FindResult::Failure || !store.reliable()) && !(e
                    == MemError::UnresolvedConflict),
            }
            &&& (store.reliable() && !(f == FindResult::Failure) ==> r is Ok)
        }),
    decreases elems@.len() - idx,
{
    let ghost q = crate::path::path_view(elems@).subrange(idx as int, elems@.len() as int);
    if idx == elems.len() {
        proof {
            assert(q =~= Seq::<Seq<u8>>::empty());
        }
        return match entry {
            Entry::Tree(id) => Ok(Some(Entry::Tree(Some(id)))),
            Entry::Leaf(l) => Ok(Some(Entry::Leaf(l))),
        };
    }
    proof {
        assert(q.first() == elems@[idx as int]@);
        assert(q.drop_first() =~= crate::path::path_view(elems@).subrange(
            idx as int + 1,
            elems@.len() as int,
        ));
    }
    match entry {
        Entry::Leaf(_) => Ok(None),
        Entry::Tree(id) => {
            let entries = match load_tree(store, id) {
                Ok(v) => v,
                Err(e) => {
                    return Err(e);
                },
            };
            let m = crate::manifest::StoredManifest::from_entries(entries);
            match crate::manifest::Manifest::lookup(&m, &elems[idx]) {
                None => Ok(None),
                Some(child) => find_stored(store, child, elems, idx + 1),
            }
        },
    }
}

/// Resolve the path suffix `elems[idx..]` against an overlay node.
fn find_mem<B: Blobstore>(
    store: &B,
    node: &MemoryManifestEntry,
    elems: &Vec<MPathElement>,
    idx: usize,
) -> (r: Result<Option<Entry<Option<NodeHash>, LeafEntry>>, MemError>)
    requires
        idx <= elems@.len(),
    ensures
        ({
            let q = crate::path::path_view(elems@).subrange(idx as int, elems@.len() as int);
            let f = mem_find(store.contents(), *node, q);
            &&& match r {
                Ok(Some(Entry::Tree(t))) => f == FindResult::FoundTree(t),
                Ok(Some(Entry::Leaf(l))) => f == FindResult::FoundLeaf(l),
                Ok(None) => f == FindResult::Absent,
                Err(MemError::UnresolvedConflict) => f == FindResult::FoundConflict,
                Err(_) => (f == FindResult::Failure || !store.reliable()) && !(f
                    == FindResult::FoundConflict),
            }
            &&& (store.reliable() && !(f == FindResult::Failure) && !(f
                == FindResult::FoundConflict) ==> r is Ok)
        }),
    decreases elems@.len() - idx,
{
    let ghost q = crate::path::path_view(elems@).subrange(idx as int, elems@.len() as int);
    if idx == elems.len() {
        proof {
            assert(q =~= Seq::<Seq<u8>>::empty());
        }
        return match node {
            MemoryManifestEntry::Blob(l) => Ok(Some(Entry::Leaf(*l))),
            MemoryManifestEntry::MemTree { base_manifest_id, .. } => Ok(
                Some(Entry::Tree(*base_manifest_id)),
            ),
            MemoryManifestEntry::Conflict(_) => Err(MemError::UnresolvedConflict),
        };
    }
    proof {
        assert(q.first() == elems@[idx as int]@);
        assert(q.drop_first() =~= crate::path::path_view(elems@).subrange(
            idx as int + 1,
            elems@.len() as int,
        ));
    }
    match node {
        MemoryManifestEntry::Blob(_) => Ok(None),
        MemoryManifestEntry::Conflict(_) => Err(MemError::UnresolvedConflict),
        MemoryManifestEntry::MemTree { base_manifest_id, changes, .. } => {
            match changes.get(&elems[idx]) {
                Some(value) => match value {
                    None => Ok(None),
                    Some(child) => find_mem(store, child, elems, idx + 1),
                },
                None => match base_manifest_id {
                    Some(id) => {
                        proof {
                            lemma_stored_no_conflict(store.contents(), Entry::Tree(*id), q);
                        }
                        find_stored(store, Entry::Tree(*id), elems, idx)
                    },
                    None => Ok(None),
                },
            }
        },
    }
}

} // verus!

use vstd::prelude::*;

verus! {

use crate::path::is_path_prefix;

impl MemoryRootManifest {
    /// Set or remove (`None`) the leaf at `path`, creating any missing
    /// intermediate directory as a fresh tree with no base, materializing
    /// existing base directories as it descends, and replacing a conflict
    /// removed with `None` by a fresh empty tree.
    ///
    /// Paths that share no prefix with `path` keep their resolution, unless
    /// they ran into a conflict that this change replaced.
    pub fn change_entry<B: Blobstore>(
        &mut self,
        store: &B,
        path: &MPath,
        entry: Option<LeafEntry>,
    ) -> (r: Result<(), MemError>)
        requires
            old(self).spec_root() is MemTree,
            mme_wf(old(self).spec_root()),
            0 < path@.len(),
        ensures
            final(self).spec_root() is MemTree,
            mme_wf(final(self).spec_root()),
            r is Ok ==> match entry {
                Some(l) => mem_find(store.contents(), final(self).spec_root(), path@)
                    == FindResult::FoundLeaf(l),
                None => mem_find(store.contents(), final(self).spec_root(), path@)
                    == FindResult::Absent || mem_find(
                    store.contents(),
                    final(self).spec_root(),
                    path@,
                ) == FindResult::FoundTree(None),
            },
            r is Ok ==> forall|q: Seq<Seq<u8>>|
                !is_path_prefix(q, path@) && !is_path_prefix(path@, q) ==> mem_find(
                    store.contents(),
                    final(self).spec_root(),
                    q,
                ) == mem_find(store.contents(), old(self).spec_root(), q) || mem_find(
                    store.contents(),
                    old(self).spec_root(),
                    q,
                ) == FindResult::FoundConflict,
            r is Err ==> final(self).spec_root() is MemTree && mme_wf(final(self).spec_root()),
            store.reliable() && (forall|p: Seq<Seq<u8>>|
                is_path_prefix(p, path@) && 0 < p.len() ==> !((#[trigger] mem_find(
                    store.contents(),
                    old(self).spec_root(),
                    p,
                )) is Failure)) ==> r is Ok,
            r is Err ==> forall|q: Seq<Seq<u8>>|
                #[trigger] mem_find(store.contents(), final(self).spec_root(), q) == mem_find(
                    store.contents(),
                    old(self).spec_root(),
                    q,
                ),
    {
        let elems = path.elements();
        proof {
            assert(crate::path::path_view(elems@).subrange(0, elems@.len() as int) =~= path@);
        }
        let mut root = MemoryManifestEntry::Blob(
            LeafEntry::new(NodeHash(0), crate::manifest::FileType::Regular),
        );
        core::mem::swap(&mut root, &mut self.root);
        match change_at(store, root, elems, 0, entry) {
            Ok(new_root) => {
                self.root = new_root;
                Ok(())
            },
            Err((old_root, e)) => {
                self.root = old_root;
                Err(e)
            },
        }
    }
}

/// Apply a change to the suffix `elems[idx..]` below a tree node, handing
/// back the rewritten node, or the node unchanged beside the error.
fn change_at<B: Blobstore>(
    store: &B,
    node: MemoryManifestEntry,
    elems: &Vec<MPathElement>,
    idx: usize,
    entry: Option<LeafEntry>,
) -> (r: Result<MemoryManifestEntry, (MemoryManifestEntry, MemError)>)
    requires
        node is MemTree,
        mme_wf(node),
        idx < elems@.len(),
    ensures
        ({
            let m = store.contents();
            let tail = crate::path::path_view(elems@).subrange(idx as int, elems@.len() as int);
            &&& match r {
                Ok(n) => {
                    &&& n is MemTree
                    &&& mme_wf(n)
                    &&& match entry {
                        Some(l) => mem_find(m, n, tail) == FindResult::FoundLeaf(l),
                        None => mem_find(m, n, tail) == FindResult::Absent || mem_find(m, n, tail)
                            == FindResult::FoundTree(None),
                    }
                    &&& forall|q: Seq<Seq<u8>>|
                        !is_path_prefix(q, tail) && !is_path_prefix(tail, q) ==> mem_find(m, n, q)
                            == mem_find(m, node, q) || mem_find(m, node, q)
                            == FindResult::FoundConflict
                },
                Err((n, _)) => n is MemTree && mme_wf(n),
            }
            &&& (node->MemTree_base_manifest_id is None && node->MemTree_changes.entries@.len()
                == 0 ==> r is Ok)
            &&& (store.reliable() && (forall|p: Seq<Seq<u8>>|
                is_path_prefix(p, tail) && 0 < p.len() ==> !((#[trigger] mem_find(m, node, p))
                    is Failure)) ==> r is Ok)
            &&& (r matches Err((n, _)) ==> forall|q: Seq<Seq<u8>>|
                #[trigger] mem_find(m, n, q) == mem_find(m, node, q))
        }),
    decreases elems@.len() - idx,
{
    let ghost m = store.contents();
    let ghost nodeg = node;
    let ghost tail = crate::path::path_view(elems@).subrange(idx as int, elems@.len() as int);
    let ghost tail1 = crate::path::path_view(elems@).subrange(
        idx as int + 1,
        elems@.len() as int,
    );
    proof {
        assert(tail.first() == elems@[idx as int]@);
        assert(tail.drop_first() =~= tail1);
    }
    let (base_manifest_id, p1, p2, mut changes) = match node {
        MemoryManifestEntry::MemTree { base_manifest_id, p1, p2, changes } => (
            base_manifest_id,
            p1,
            p2,
            changes,
        ),
        other => {
            return Err((other, MemError::InvalidRoot));
        },
    };
    let ghost old_entries = changes.entries@;
    let ghost old_cv = nm_view(changes.entries@);
    let name = &elems[idx];
    if idx == elems.len() - 1 {
        // the final element: record the override itself
        let is_conflict = match changes.get(name) {
            Some(Some(MemoryManifestEntry::Conflict(_))) => true,
            _ => false,
        };
        let value: Option<MemoryManifestEntry> = if entry.is_none() && is_conflict {
            // resolving a conflict by removal leaves a fresh empty tree
            Some(fresh_tree())
        } else {
            match entry {
                Some(l) => Some(MemoryManifestEntry::Blob(l)),
                None => None,
            }
        };
        let ghost valueg = value;
        let cloned_name = name.clone();
        let ghost cn = cloned_name;
        changes.set(cloned_name, value);
        let ghost new_entries = changes.entries@;
        let result = MemoryManifestEntry::MemTree { base_manifest_id, p1, p2, changes };
        proof {
            assert(tail1 =~= Seq::<Seq<u8>>::empty());
            assert(tail =~= seq![name@]);
            assert(mme_wf(result)) by {
                let x = (cn, valueg);
                assert(x.1 == valueg);
                lemma_wf_entries_set(old_entries, new_entries, name@, valueg);
            }
            let cv = nm_view(new_entries);
            assert(cv == old_cv.insert(name@, valueg));
            assert(cv.contains_key(tail.first()) && cv[tail.first()] == valueg);
            assert(mem_find(m, result, tail) == match valueg {
                None => FindResult::Absent,
                Some(child) => mem_find(m, child, tail1),
            });
            match valueg {
                Some(child) => {
                    assert(tail1.len() == 0);
                    match child {
                        MemoryManifestEntry::Blob(l) => {
                            assert(mem_find(m, child, tail1) == FindResult::FoundLeaf(l));
                        },
                        MemoryManifestEntry::MemTree { base_manifest_id: bb, .. } => {
                            assert(mem_find(m, child, tail1) == FindResult::FoundTree(bb));
                        },
                        _ => {},
                    }
                },
                None => {},
            }
            assert forall|q: Seq<Seq<u8>>|
                !is_path_prefix(q, tail) && !is_path_prefix(tail, q) implies mem_find(m, result, q)
                == mem_find(m, nodeg, q) || mem_find(m, nodeg, q)
                == FindResult::FoundConflict by {
                if q.len() == 0 {
                    assert(q =~= tail.subrange(0, 0));
                    assert(is_path_prefix(q, tail));
                } else if q.first() == name@ {
                    assert(tail =~= q.subrange(0, 1));
                    assert(is_path_prefix(tail, q));
                } else {
                    lemma_change_frame_one(m, nodeg, result, name@, valueg, q);
                }
            }
        }
        Ok(result)
    } else {
        // an intermediate element: descend, materializing as needed
        let taken = take_change(&mut changes, name);
        let ghost takeng = taken;
        proof {
            match takeng {
                Some(Some(c)) => {
                    assert(mme_wf(c)) by {
                        let k = choose|k: int|
                            0 <= k < old_entries.len() && old_entries[k].1 == takeng->0 && (
                            #[trigger] old_entries[k].0)@ == name@ && changes.entries@
                                == old_entries.remove(k);
                        assert(match old_entries[k].1 {
                            Some(cc) => mme_wf(cc),
                            None => true,
                        });
                    }
                },
                _ => {},
            }
            // tie the prior slot to what the node resolves below `name`
            assert forall|q1: Seq<Seq<u8>>|
                #[trigger] mem_find(m, nodeg, seq![name@] + q1) == slot_find(
                    m,
                    takeng,
                    base_manifest_id,
                    name@,
                    q1,
                ) by {
                let qq = seq![name@] + q1;
                assert(qq.first() == name@);
                assert(qq.drop_first() =~= q1);
                match takeng {
                    Some(v) => {
                        assert(old_cv.contains_key(name@) && old_cv[name@] == v);
                    },
                    None => {
                        assert(!old_cv.contains_key(name@));
                    },
                }
            }
        }
        let child = match materialize_child(store, taken, base_manifest_id, name) {
            Ok(c) => c,
            Err(e) => {
                // only a base load can fail, and then nothing was taken out
                let back = MemoryManifestEntry::MemTree { base_manifest_id, p1, p2, changes };
                proof {
                    lemma_wf_entries_sub(old_entries, changes.entries@);
                    assert(changes.entries@ == old_entries);
                    assert(back == nodeg);
                    if store.reliable() {
                        // the base tree below `name` is dangling: that prefix
                        // resolves to a failure, so success was not owed
                        let id = base_manifest_id->0;
                        assert(stored_tree(m, id) is None);
                        let p = seq![name@];
                        assert(mem_find(m, nodeg, seq![name@] + Seq::<Seq<u8>>::empty())
                            == slot_find(
                            m,
                            takeng,
                            base_manifest_id,
                            name@,
                            Seq::<Seq<u8>>::empty(),
                        ));
                        assert(seq![name@] + Seq::<Seq<u8>>::empty() =~= p);
                        assert(stored_entry_find(m, Entry::Tree(id), seq![name@])
                            is Failure);
                        assert(mem_find(m, nodeg, p) is Failure);
                        assert(is_path_prefix(p, tail)) by {
                            assert(p =~= tail.subrange(0, 1));
                        }
                    }
                }
                return Err((back, e));
            },
        };
        let ghost childg = child;
        proof {
            // an untouched fresh node descends only into fresh children,
            // which absorb the change without touching the store
            if nodeg->MemTree_base_manifest_id is None && nodeg->MemTree_changes.entries@.len()
                == 0 {
                assert(old_entries =~= Seq::<(MPathElement, Option<MemoryManifestEntry>)>::empty());
                assert(takeng is None);
                assert(slot_find(m, takeng, base_manifest_id, name@, Seq::<Seq<u8>>::empty())
                    == FindResult::Absent);
                assert(mem_find(m, childg, Seq::<Seq<u8>>::empty()) is FoundTree);
                assert(childg->MemTree_base_manifest_id is None
                    && childg->MemTree_changes.entries@.len() == 0);
            }
        }
        let new_child = match change_at(store, child, elems, idx + 1, entry) {
            Ok(c) => c,
            Err((c, e)) => {
                // put the rewritten child in place of the taken override
                let ghost before_entries = changes.entries@;
                let ghost cg = c;
                let cloned_name = name.clone();
                let ghost cn = cloned_name;
                changes.set(cloned_name, Some(c));
                let back = MemoryManifestEntry::MemTree { base_manifest_id, p1, p2, changes };
                proof {
                    lemma_wf_entries_sub(old_entries, before_entries);
                    let x = (cn, Some(cg));
                    assert(x.1 == Some(cg));
                    lemma_wf_entries_set(before_entries, changes.entries@, name@, Some(cg));
                    // the descent failed, so the child was no fresh tree and
                    // resolves exactly as the slot it came from
                    assert(!(childg->MemTree_base_manifest_id is None
                        && childg->MemTree_changes.entries@.len() == 0));
                    assert(forall|q1: Seq<Seq<u8>>|
                        mem_find(m, childg, q1) == slot_find(
                            m,
                            takeng,
                            base_manifest_id,
                            name@,
                            q1,
                        ));
                    // the restored node resolves every path as before
                    let cv2 = nm_view(changes.entries@);
                    assert(cv2 =~= old_cv.insert(name@, Some(cg)));
                    assert forall|q: Seq<Seq<u8>>| #[trigger] mem_find(m, back, q) == mem_find(
                        m,
                        nodeg,
                        q,
                    ) by {
                        if q.len() == 0 {
                            assert(mem_find(m, back, q) == FindResult::FoundTree(
                                base_manifest_id,
                            ));
                            assert(mem_find(m, nodeg, q) == FindResult::FoundTree(
                                base_manifest_id,
                            ));
                        } else if q.first() == name@ {
                            let q1 = q.drop_first();
                            assert(q =~= seq![name@] + q1);
                            assert(cv2.contains_key(name@) && cv2[name@] == Some(cg));
                            assert(mem_find(m, back, q) == mem_find(m, cg, q1));
                            assert(mem_find(m, cg, q1) == mem_find(m, childg, q1));
                            assert(mem_find(m, childg, q1) == slot_find(
                                m,
                                takeng,
                                base_manifest_id,
                                name@,
                                q1,
                            ));
                            assert(mem_find(m, nodeg, seq![name@] + q1) == slot_find(
                                m,
                                takeng,
                                base_manifest_id,
                                name@,
                                q1,
                            ));
                        } else {
                            lemma_change_frame_one(m, nodeg, back, name@, Some(cg), q);
                        }
                    }
                    // success was not owed: some prefix below `name` resolves
                    // to a dangling tree reference
                    if store.reliable() && (forall|p: Seq<Seq<u8>>|
                        is_path_prefix(p, tail) && 0 < p.len() ==> !((#[trigger] mem_find(
                            m,
                            nodeg,
                            p,
                        )) is Failure)) {
                        assert(exists|p1: Seq<Seq<u8>>|
                            is_path_prefix(p1, tail1) && 0 < p1.len() && (#[trigger] mem_find(
                                m,
                                childg,
                                p1,
                            )) is Failure);
                        let p1 = choose|p1: Seq<Seq<u8>>|
                            is_path_prefix(p1, tail1) && 0 < p1.len() && (#[trigger] mem_find(
                                m,
                                childg,
                                p1,
                            )) is Failure;
                        let p = seq![name@] + p1;
                        assert(mem_find(m, childg, p1) == slot_find(
                            m,
                            takeng,
                            base_manifest_id,
                            name@,
                            p1,
                        ));
                        assert(mem_find(m, nodeg, seq![name@] + p1) == slot_find(
                            m,
                            takeng,
                            base_manifest_id,
                            name@,
                            p1,
                        ));
                        assert(mem_find(m, nodeg, p) is Failure);
                        assert(is_path_prefix(p, tail)) by {
                            assert(p1 == tail1.subrange(0, p1.len() as int));
                            assert forall|ii: int| 0 <= ii < p.len() implies p[ii] == tail[ii] by {
                                if ii > 0 {
                                    assert(p[ii] == p1[ii - 1]);
                                    assert(tail[ii] == tail1[ii - 1]);
                                    assert(p1[ii - 1] == tail1.subrange(
                                        0,
                                        p1.len() as int,
                                    )[ii - 1]);
                                }
                            }
                            assert(p =~= tail.subrange(0, p.len() as int));
                        }
                        assert(false);
                    }
                }
                return Err((back, e));
            },
        };
        let ghost new_childg = new_child;
        let ghost mid_entries = changes.entries@;
        let cloned_name = name.clone();
        let ghost cn = cloned_name;
        changes.set(cloned_name, Some(new_child));
        let ghost new_entries = changes.entries@;
        let result = MemoryManifestEntry::MemTree { base_manifest_id, p1, p2, changes };
        proof {
            let ghost wx = (cn, Some(new_childg));
            assert(wx.1 == Some(new_childg));
            let mid_cv = nm_view(mid_entries);
            let cv = nm_view(new_entries);
            assert(cv == mid_cv.insert(name@, Some(new_childg)));
            assert(cv =~= old_cv.insert(name@, Some(new_childg))) by {
                if takeng is Some {
                    assert(mid_cv == old_cv.remove(name@));
                } else {
                    assert(mid_cv == old_cv);
                }
            }
            assert(mme_wf(result)) by {
                lemma_wf_entries_sub(old_entries, mid_entries);
                lemma_wf_entries_set(mid_entries, new_entries, name@, Some(new_childg));
            }
            assert(cv.contains_key(tail.first()) && cv[tail.first()] == Some(new_childg));
            assert(mem_find(m, result, tail) == mem_find(m, new_childg, tail1));
            // tie the prior slot to the child handed down
            assert forall|q1: Seq<Seq<u8>>| q1.len() > 0 implies mem_find(m, nodeg, seq![name@]
                + q1) == slot_find(m, takeng, base_manifest_id, name@, q1) by {
                let qq = seq![name@] + q1;
                assert(qq.first() == name@);
                assert(qq.drop_first() =~= q1);
                match takeng {
                    Some(v) => {
                        assert(old_cv.contains_key(name@) && old_cv[name@] == v);
                    },
                    None => {
                        assert(!old_cv.contains_key(name@));
                    },
                }
            }
            assert(tail =~= seq![name@] + tail1);
            assert(mem_find(m, nodeg, tail) == slot_find(m, takeng, base_manifest_id, name@, tail1));
            assert forall|q: Seq<Seq<u8>>|
                !is_path_prefix(q, tail) && !is_path_prefix(tail, q) implies mem_find(m, result, q)
                == mem_find(m, nodeg, q) || mem_find(m, nodeg, q)
                == FindResult::FoundConflict by {
                if q.len() == 0 {
                    assert(q =~= tail.subrange(0, 0));
                    assert(is_path_prefix(q, tail));
                } else if q.first() == name@ {
                    let q1 = q.drop_first();
                    assert(q =~= seq![name@] + q1);
                    if q1.len() == 0 {
                        assert(q =~= tail.subrange(0, 1));
                        assert(is_path_prefix(q, tail));
                    } else {
                        assert(!is_path_prefix(q1, tail1)) by {
                            if is_path_prefix(q1, tail1) {
                                assert(q =~= tail.subrange(0, q.len() as int)) by {
                                    assert(q1 == tail1.subrange(0, q1.len() as int));
                                    assert forall|i: int| 0 <= i < q.len() implies q[i]
                                        == tail[i] by {
                                        if i > 0 {
                                            assert(q[i] == q1[i - 1]);
                                            assert(tail[i] == tail1[i - 1]);
                                            assert(q1[i - 1] == tail1.subrange(
                                                0,
                                                q1.len() as int,
                                            )[i - 1]);
                                        }
                                    }
                                }
                                assert(is_path_prefix(q, tail));
                            }
                        }
                        assert(!is_path_prefix(tail1, q1)) by {
                            if is_path_prefix(tail1, q1) {
                                assert(tail =~= q.subrange(0, tail.len() as int)) by {
                                    assert(tail1 == q1.subrange(0, tail1.len() as int));
                                    assert forall|i: int| 0 <= i < tail.len() implies tail[i]
                                        == q[i] by {
                                        if i > 0 {
                                            assert(tail[i] == tail1[i - 1]);
                                            assert(q[i] == q1[i - 1]);
                                            assert(tail1[i - 1] == q1.subrange(
                                                0,
                                                tail1.len() as int,
                                            )[i - 1]);
                                        }
                                    }
                                }
                                assert(is_path_prefix(tail, q));
                            }
                        }
                        assert(mem_find(m, result, q) == mem_find(m, new_childg, q1));
                        assert(mem_find(m, nodeg, q) == slot_find(
                            m,
                            takeng,
                            base_manifest_id,
                            name@,
                            q1,
                        ));
                        if slot_find(m, takeng, base_manifest_id, name@, q1)
                            == FindResult::FoundConflict {
                        } else {
                            assert(mem_find(m, childg, q1) == slot_find(
                                m,
                                takeng,
                                base_manifest_id,
                                name@,
                                q1,
                            ));
                            assert(mem_find(m, new_childg, q1) == mem_find(m, childg, q1)
                                || mem_find(m, childg, q1) == FindResult::FoundConflict);
                        }
                    }
                } else {
                    lemma_change_frame_one(m, nodeg, result, name@, Some(new_childg), q);
                }
            }
        }
        Ok(result)
    }
}

/// What the prior override slot of `name` resolves `q1` to: the taken
/// override decides where one was present; the base tree decides otherwise.
pub open spec fn slot_find(
    m: Map<Seq<char>, Seq<u8>>,
    taken: Option<Option<MemoryManifestEntry>>,
    base: Option<NodeHash>,
    name: Seq<u8>,
    q1: Seq<Seq<u8>>,
) -> FindResult {
    match taken {
        Some(None) => FindResult::Absent,
        Some(Some(c)) => mem_find(m, c, q1),
        None => match base {
            Some(id) => stored_entry_find(m, Entry::Tree(id), seq![name] + q1),
            None => FindResult::Absent,
        },
    }
}

/// Turn the override slot of `name` into a tree node to descend into:
/// an overriding tree as it is, a base directory materialized with its
/// persisted id, and anything else replaced by a fresh empty tree.
fn materialize_child<B: Blobstore>(
    store: &B,
    taken: Option<Option<MemoryManifestEntry>>,
    base: Option<NodeHash>,
    name: &MPathElement,
) -> (r: Result<MemoryManifestEntry, MemError>)
    requires
        taken matches Some(Some(c)) ==> mme_wf(c),
    ensures
        ({
            let m = store.contents();
            match r {
                Ok(child) => {
                    &&& child is MemTree
                    &&& mme_wf(child)
                    &&& forall|q1: Seq<Seq<u8>>|
                        q1.len() > 0 ==> mem_find(m, child, q1) == slot_find(
                            m,
                            taken,
                            base,
                            name@,
                            q1,
                        ) || (slot_find(m, taken, base, name@, q1) == FindResult::FoundConflict
                            && mem_find(m, child, q1) is Absent)
                    &&& (child->MemTree_base_manifest_id is None
                        && child->MemTree_changes.entries@.len() == 0) || (forall|q1: Seq<Seq<u8>>|
                        mem_find(m, child, q1) == slot_find(m, taken, base, name@, q1))
                },
                Err(_) => {
                    &&& taken is None
                    &&& base is Some
                    &&& (store.reliable() ==> stored_tree(m, base->0) is None)
                },
            }
        }),
{
    let ghost m = store.contents();
    match taken {
        Some(Some(c)) => {
            if c.is_mem_tree() {
                Ok(c)
            } else {
                let r = fresh_tree();
                proof {
                    assert forall|q1: Seq<Seq<u8>>| q1.len() > 0 implies mem_find(m, r, q1)
                        == slot_find(m, taken, base, name@, q1) || slot_find(
                        m,
                        taken,
                        base,
                        name@,
                        q1,
                    ) == FindResult::FoundConflict by {
                        assert(mem_find(m, r, q1) == FindResult::Absent);
                    }
                }
                Ok(r)
            }
        },
        Some(None) => {
            let r = fresh_tree();
            proof {
                assert forall|q1: Seq<Seq<u8>>| q1.len() > 0 implies mem_find(m, r, q1)
                    == FindResult::Absent by {}
            }
            Ok(r)
        },
        None => match base {
            Some(id) => {
                let entries = match load_tree(store, id) {
                    Ok(v) => v,
                    Err(e) => {
                        return Err(e);
                    },
                };
                let sm = crate::manifest::StoredManifest::from_entries(entries);
                let found = crate::manifest::Manifest::lookup(&sm, name);
                proof {
                    assert forall|q1: Seq<Seq<u8>>|
                        #[trigger] slot_find(m, taken, base, name@, q1) == match manifest_find(
                            stored_tree(m, id)->0,
                            name@,
                        ) {
                            Some(e) => stored_entry_find(m, e, q1),
                            None => FindResult::Absent,
                        } by {
                        let qq = seq![name@] + q1;
                        assert(qq.len() > 0);
                        assert(qq.first() == name@);
                        assert(qq.drop_first() =~= q1);
                    }
                }
                match found {
                    Some(Entry::Tree(tid)) => {
                        let r = MemoryManifestEntry::MemTree {
                            base_manifest_id: Some(tid),
                            p1: Some(tid),
                            p2: None,
                            changes: ChangeMap::new(),
                        };
                        proof {
                            assert(mme_wf(r));
                            assert forall|q1: Seq<Seq<u8>>|
                                #[trigger] mem_find(m, r, q1) == slot_find(
                                    m,
                                    taken,
                                    base,
                                    name@,
                                    q1,
                                ) by {
                                if q1.len() > 0 {
                                    crate::namemap::lemma_nm_absent(
                                        match r {
                                            MemoryManifestEntry::MemTree {
                                                ref changes,
                                                ..
                                            } => changes.entries@,
                                            _ => Seq::empty(),
                                        },
                                        q1.first(),
                                    );
                                } else {
                                    assert(mem_find(m, r, q1) == FindResult::FoundTree(Some(tid)));
                                    assert(stored_entry_find(m, Entry::Tree(tid), q1)
                                        == FindResult::FoundTree(Some(tid)));
                                }
                            }
                        }
                        Ok(r)
                    },
                    _ => {
                        let r = fresh_tree();
                        proof {
                            assert forall|q1: Seq<Seq<u8>>| q1.len() > 0 implies mem_find(m, r, q1)
                                == FindResult::Absent by {}
                        }
                        Ok(r)
                    },
                }
            },
            None => {
                let r = fresh_tree();
                proof {
                    assert forall|q1: Seq<Seq<u8>>| q1.len() > 0 implies mem_find(m, r, q1)
                        == FindResult::Absent by {}
                }
                Ok(r)
            },
        },
    }
}

/// A fresh empty tree with no base and no parents.
fn fresh_tree() -> (r: MemoryManifestEntry)
    ensures
        r matches MemoryManifestEntry::MemTree { base_manifest_id, p1, p2, changes }
            && base_manifest_id is None && p1 is None && p2 is None && changes.entries@ =~= Seq::<
            (MPathElement, Option<MemoryManifestEntry>),
        >::empty(),
        mme_wf(r),
{
    let r = MemoryManifestEntry::MemTree {
        base_manifest_id: None,
        p1: None,
        p2: None,
        changes: ChangeMap::new(),
    };
    proof {
        assert(r matches MemoryManifestEntry::MemTree { changes, .. } && changes.entries@
            =~= Seq::<(MPathElement, Option<MemoryManifestEntry>)>::empty());
    }
    r
}

impl MemoryManifestEntry {
    /// True of a directory node.
    pub fn is_mem_tree(&self) -> (r: bool)
        ensures
            r == (*self is MemTree),
    {
        match self {
            MemoryManifestEntry::MemTree { .. } => true,
            _ => false,
        }
    }
}

/// Remove and return the override stored for `name`.
fn take_change(changes: &mut ChangeMap, name: &MPathElement) -> (r: Option<
    Option<MemoryManifestEntry>,
>)
    requires
        nm_unique(old(changes).entries@),
    ensures
        nm_unique(final(changes).entries@),
        match r {
            Some(v) => {
                &&& nm_view(old(changes).entries@).contains_key(name@)
                &&& v == nm_view(old(changes).entries@)[name@]
                &&& nm_view(final(changes).entries@) == nm_view(old(changes).entries@).remove(
                    name@,
                )
                &&& exists|k: int|
                    0 <= k < old(changes).entries@.len() && old(changes).entries@[k].1 == v && (
                    #[trigger] old(changes).entries@[k].0)@ == name@ && final(changes).entries@
                        == old(changes).entries@.remove(k)
            },
            None => !nm_view(old(changes).entries@).contains_key(name@) && *final(changes)
                == *old(changes),
        },
{
    let k = crate::namemap::nm_find(&changes.entries, name);
    if k < changes.entries.len() {
        proof {
            crate::namemap::lemma_nm_present(changes.entries@, k as int);
        }
        let ghost olds = changes.entries@;
        let (_, v) = changes.entries.remove(k);
        proof {
            lemma_nm_remove_first(olds, k as int);
            assert(olds[k as int].1 == v);
        }
        Some(v)
    } else {
        proof {
            crate::namemap::lemma_nm_absent(changes.entries@, name@);
        }
        None
    }
}

/// Removing the first pair with a name removes that name alone.
proof fn lemma_nm_remove_first<V>(s: Seq<(MPathElement, V)>, k: int)
    requires
        0 <= k < s.len(),
        nm_unique(s),
        forall|j: int| 0 <= j < k ==> (#[trigger] s[j].0)@ != s[k].0@,
    ensures
        nm_view(s.remove(k)) == nm_view(s).remove(s[k].0@),
    decreases s.len(),
{
    if k == 0 {
        assert(s.remove(0) =~= s.drop_first());
        assert(forall|i: int| 0 <= i < s.drop_first().len() ==> (#[trigger] s.drop_first()[i].0)@
            != s[0].0@) by {
            assert(forall|i: int| 0 <= i < s.drop_first().len() ==> s.drop_first()[i] == s[i + 1]);
        }
        crate::namemap::lemma_nm_absent(s.drop_first(), s[0].0@);
        assert(nm_view(s.drop_first()) =~= nm_view(s).remove(s[0].0@));
    } else {
        assert(s.remove(k).drop_first() =~= s.drop_first().remove(k - 1));
        assert(s.remove(k).first() == s.first());
        assert(s.drop_first()[k - 1] == s[k]);
        assert(nm_unique(s.drop_first())) by {
            assert(forall|i: int, j: int|
                0 <= i < j < s.drop_first().len() ==> (#[trigger] s.drop_first()[i].0)@ != (
                #[trigger] s.drop_first()[j].0)@);
        }
        assert(forall|j: int|
            0 <= j < k - 1 ==> (#[trigger] s.drop_first()[j].0)@ != s.drop_first()[k - 1].0@);
        lemma_nm_remove_first(s.drop_first(), k - 1);
        assert(s[0].0@ != s[k].0@);
        assert(nm_view(s.remove(k)) =~= nm_view(s).remove(s[k].0@));
    }
}

/// True when every override in a list is a well-formed node.
pub open spec fn entries_values_wf(s: Seq<(MPathElement, Option<MemoryManifestEntry>)>) -> bool {
    forall|i: int|
        0 <= i < s.len() ==> match (#[trigger] s[i]).1 {
            Some(c) => mme_wf(c),
            None => true,
        }
}

/// A list made of a subset of another list's pairs keeps its values
/// well-formed; covers the removal of one pair.
proof fn lemma_wf_entries_sub(
    olds: Seq<(MPathElement, Option<MemoryManifestEntry>)>,
    news: Seq<(MPathElement, Option<MemoryManifestEntry>)>,
)
    requires
        entries_values_wf(olds),
        news == olds || exists|k: int| 0 <= k < olds.len() && news == olds.remove(k),
    ensures
        entries_values_wf(news),
{
    if news == olds {
    } else {
        let k = choose|k: int| 0 <= k < olds.len() && news == olds.remove(k);
        assert forall|i: int| 0 <= i < news.len() implies match (#[trigger] news[i]).1 {
            Some(c) => mme_wf(c),
            None => true,
        } by {
            if i < k {
                assert(news[i] == olds[i]);
            } else {
                assert(news[i] == olds[i + 1]);
            }
        }
    }
}

/// Setting one name keeps every override well-formed when the new value is.
proof fn lemma_wf_entries_set(
    olds: Seq<(MPathElement, Option<MemoryManifestEntry>)>,
    news: Seq<(MPathElement, Option<MemoryManifestEntry>)>,
    name: Seq<u8>,
    value: Option<MemoryManifestEntry>,
)
    requires
        entries_values_wf(olds),
        match value {
            Some(c) => mme_wf(c),
            None => true,
        },
        exists|x: (MPathElement, Option<MemoryManifestEntry>)|
            #[trigger] x.1 == value && ((exists|k: int|
                0 <= k < olds.len() && news == olds.update(k, x)) || news == olds.push(x)),
    ensures
        entries_values_wf(news),
{
    let x = choose|x: (MPathElement, Option<MemoryManifestEntry>)|
        #[trigger] x.1 == value && ((exists|k: int|
            0 <= k < olds.len() && news == olds.update(k, x)) || news == olds.push(x));
    if news == olds.push(x) {
        assert forall|i: int| 0 <= i < news.len() implies match (#[trigger] news[i]).1 {
            Some(c) => mme_wf(c),
            None => true,
        } by {
            if i < olds.len() {
                assert(news[i] == olds[i]);
            } else {
                assert(news[i] == x);
            }
        }
    } else {
        let k = choose|k: int| 0 <= k < olds.len() && news == olds.update(k, x);
        assert forall|i: int| 0 <= i < news.len() implies match (#[trigger] news[i]).1 {
            Some(c) => mme_wf(c),
            None => true,
        } by {
            if i != k {
                assert(news[i] == olds[i]);
            } else {
                assert(news[i] == x);
            }
        }
    }
}

/// Overriding one name leaves the resolution of every path that starts
/// with a different name unchanged.
proof fn lemma_change_frame_one(
    m: Map<Seq<char>, Seq<u8>>,
    node: MemoryManifestEntry,
    result: MemoryManifestEntry,
    name: Seq<u8>,
    value: Option<MemoryManifestEntry>,
    q: Seq<Seq<u8>>,
)
    requires
        q.len() > 0,
        q.first() != name,
        ({
            match (node, result) {
                (
                    MemoryManifestEntry::MemTree { base_manifest_id: b1, changes: c1, .. },
                    MemoryManifestEntry::MemTree { base_manifest_id: b2, changes: c2, .. },
                ) => b1 == b2 && nm_view(c2.entries@) == nm_view(c1.entries@).insert(name, value),
                _ => false,
            }
        }),
    ensures
        mem_find(m, result, q) == mem_find(m, node, q),
{
    match (node, result) {
        (
            MemoryManifestEntry::MemTree { base_manifest_id: b1, changes: c1, .. },
            MemoryManifestEntry::MemTree { base_manifest_id: b2, changes: c2, .. },
        ) => {
            assert(nm_view(c2.entries@).contains_key(q.first()) == nm_view(
                c1.entries@,
            ).contains_key(q.first()));
            if nm_view(c1.entries@).contains_key(q.first()) {
                assert(nm_view(c2.entries@)[q.first()] == nm_view(c1.entries@)[q.first()]);
            }
        },
        _ => {},
    }
}


/// True when no two entries of a decoded tree list carry the same name.
pub open spec fn names_unique_deep(s: Seq<(Seq<u8>, Entry<NodeHash, LeafEntry>)>) -> bool {
    forall|i: int, j: int| 0 <= i < j < s.len() ==> (#[trigger] s[i]).0 != (#[trigger] s[j]).0
}

/// True when every persisted base a node references is present in the
/// store, decodes, and holds each name once.
pub open spec fn entry_bases_stored(m: Map<Seq<char>, Seq<u8>>, e: MemoryManifestEntry) -> bool
    decreases e,
{
    match e {
        MemoryManifestEntry::Blob(_) => true,
        MemoryManifestEntry::Conflict(sides) => forall|i: int|
            0 <= i < sides@.len() ==> entry_bases_stored(m, #[trigger] sides@[i]),
        MemoryManifestEntry::MemTree { base_manifest_id, changes, .. } => {
            &&& (base_manifest_id matches Some(b) ==> stored_tree(m, b) is Some
                && names_unique_deep(stored_tree(m, b)->0))
            &&& forall|i: int|
                0 <= i < changes.entries@.len() ==> match (#[trigger] changes.entries@[i]).1 {
                    Some(c) => entry_bases_stored(m, c),
                    None => true,
                }
        },
    }
}

/// True when persisting a node yields an entry rather than nothing: a
/// leaf always does; a directory does when it is an unmodified view of a
/// base, or when an override or a surviving base entry gives its saved
/// form at least one name.
pub open spec fn entry_saved_nonempty(m: Map<Seq<char>, Seq<u8>>, e: MemoryManifestEntry) -> bool
    decreases e,
{
    match e {
        MemoryManifestEntry::Blob(_) => true,
        MemoryManifestEntry::Conflict(_) => true,
        MemoryManifestEntry::MemTree { base_manifest_id, changes, .. } => {
            if changes.entries@.len() == 0 {
                base_manifest_id is Some
            } else {
                ||| exists|i: int|
                    0 <= i < changes.entries@.len() && match (#[trigger] changes.entries@[i]).1 {
                        Some(c) => entry_saved_nonempty(m, c),
                        None => false,
                    }
                ||| exists|k: Seq<u8>|
                    !nm_view(changes.entries@).contains_key(k) && (#[trigger] base_find(
                        m,
                        base_manifest_id,
                        k,
                    )) is Some
            }
        },
    }
}

/// Base reachability and saved-nonemptiness read only the stored trees a
/// node references, so both survive any growth of the store that keeps
/// existing keys.
proof fn lemma_saved_nonempty_stable(
    m1: Map<Seq<char>, Seq<u8>>,
    m2: Map<Seq<char>, Seq<u8>>,
    e: MemoryManifestEntry,
)
    requires
        forall|k: Seq<char>|
            #[trigger] m1.contains_key(k) ==> m2.contains_key(k) && m2[k] == m1[k],
        entry_bases_stored(m1, e),
    ensures
        entry_bases_stored(m2, e),
        entry_saved_nonempty(m2, e) == entry_saved_nonempty(m1, e),
    decreases e,
{
    match e {
        MemoryManifestEntry::Blob(_) => {},
        MemoryManifestEntry::Conflict(sides) => {
            assert forall|i: int| 0 <= i < sides@.len() implies entry_bases_stored(
                m2,
                #[trigger] sides@[i],
            ) by {
                lemma_saved_nonempty_stable(m1, m2, sides@[i]);
            }
        },
        MemoryManifestEntry::MemTree { base_manifest_id, changes, .. } => {
            match base_manifest_id {
                Some(b) => {
                    assert(m1.contains_key(tree_key_view(b)));
                    assert(stored_tree(m2, b) == stored_tree(m1, b));
                },
                None => {},
            }
            assert forall|i: int| 0 <= i < changes.entries@.len() implies match (
            #[trigger] changes.entries@[i]).1 {
                Some(c) => entry_bases_stored(m2, c) && entry_saved_nonempty(m2, c)
                    == entry_saved_nonempty(m1, c),
                None => true,
            } by {
                match changes.entries@[i].1 {
                    Some(c) => {
                        lemma_saved_nonempty_stable(m1, m2, c);
                    },
                    None => {},
                }
            }
            assert forall|k: Seq<u8>|
                #[trigger] base_find(m2, base_manifest_id, k) == base_find(
                    m1,
                    base_manifest_id,
                    k,
                ) by {}
            assert forall|k: Seq<u8>|
                #[trigger] base_find(m1, base_manifest_id, k) == base_find(
                    m2,
                    base_manifest_id,
                    k,
                ) by {}
            assert(entry_saved_nonempty(m2, e) == entry_saved_nonempty(m1, e));
        },
    }
}

/// True when an unresolved merge conflict sits anywhere in the overlay.
pub open spec fn has_conflict(e: MemoryManifestEntry) -> bool
    decreases e,
{
    match e {
        MemoryManifestEntry::Blob(_) => false,
        MemoryManifestEntry::Conflict(_) => true,
        MemoryManifestEntry::MemTree { changes, .. } => exists|i: int|
            0 <= i < changes.entries@.len() && match (#[trigger] changes.entries@[i]).1 {
                Some(c) => has_conflict(c),
                None => false,
            },
    }
}

/// Report whether an unresolved merge conflict sits anywhere below `node`.
fn find_conflict(node: &MemoryManifestEntry) -> (r: bool)
    ensures
        r == has_conflict(*node),
    decreases *node,
{
    match node {
        MemoryManifestEntry::Blob(_) => false,
        MemoryManifestEntry::Conflict(_) => true,
        MemoryManifestEntry::MemTree { changes, .. } => {
            let mut j: usize = 0;
            let n = changes.entries.len();
            proof {
                assert(*node is MemTree && node->MemTree_changes == *changes);
            }
            while j < n
                invariant
                    0 <= j <= n,
                    n == changes.entries@.len(),
                    *node is MemTree,
                    node->MemTree_changes == *changes,
                    forall|i: int|
                        0 <= i < j ==> match (#[trigger] changes.entries@[i]).1 {
                            Some(c) => !has_conflict(c),
                            None => true,
                        },
                decreases n - j,
            {
                match &changes.entries[j].1 {
                    Some(c) => {
                        proof {
                            assert(changes.entries@[j as int].1 == Some(*c));
                            assert(*changes == node->MemTree_changes);
                            assert(decreases_to!(*node => node->MemTree_changes));
                            assert(decreases_to!(changes.entries => changes.entries@[j as int]));
                            assert(decreases_to!(changes.entries@[j as int] => *c));
                            assert(decreases_to!(*node => *c));
                        }
                        if find_conflict(c) {
                            proof {
                                assert(match changes.entries@[j as int].1 {
                                    Some(cc) => has_conflict(cc),
                                    None => false,
                                });
                            }
                            return true;
                        }
                    },
                    None => {},
                }
                j = j + 1;
            }
            false
        },
    }
}

/// Write `bytes` under `key` unless the key already holds them; a key
/// already holding other bytes is corruption, since every key written here
/// is derived from its content.
fn put_once<B: Blobstore>(store: &mut B, key: String, bytes: Vec<u8>) -> (r: Result<
    (),
    MemError,
>)
    ensures
        final(store).reliable() == old(store).reliable(),
        final(store).reads_fail() == old(store).reads_fail(),
        match r {
            Ok(_) => final(store).contents() == old(store).contents().insert(key@, bytes@) && (old(
                store,
            ).contents().contains_key(key@) ==> old(store).contents()[key@] == bytes@),
            Err(e) => final(store).contents() == old(store).contents() && e
                != MemError::UnresolvedConflict,
        },
        old(store).reliable() ==> (r is Ok || r == Err::<(), MemError>(MemError::CorruptStore)),
{
    match store.get(&key) {
        Err(e) => Err(MemError::Blob(e)),
        Ok(Some(existing)) => {
            if crate::path::bytes_eq(&existing, &bytes) {
                proof {
                    assert(old(store).contents().insert(key@, bytes@) =~= old(store).contents());
                }
                Ok(())
            } else {
                Err(MemError::CorruptStore)
            }
        },
        Ok(None) => match store.put(key, bytes) {
            Ok(_) => Ok(()),
            Err(e) => Err(MemError::Blob(e)),
        },
    }
}

/// What the base held at one name, seen through the store.
pub open spec fn base_find(
    m0: Map<Seq<char>, Seq<u8>>,
    base: Option<NodeHash>,
    k: Seq<u8>,
) -> Option<Entry<NodeHash, LeafEntry>> {
    match base {
        Some(b) => match stored_tree(m0, b) {
            Some(bst) => manifest_find(bst, k),
            None => None,
        },
        None => None,
    }
}

/// The collected entries of one directory, name by name: an overriding
/// leaf kept as it is, a deleted name gone, an overriding directory kept
/// exactly when its saved form is non-empty, an untouched name as the
/// base held it.
pub open spec fn collected_ok(
    m0: Map<Seq<char>, Seq<u8>>,
    base: Option<NodeHash>,
    changes: ChangeMap,
    v: Seq<(MPathElement, Entry<NodeHash, LeafEntry>)>,
) -> bool {
    let cv = nm_view(changes.entries@);
    let vv = nm_view(v);
    &&& forall|k: Seq<u8>|
        #[trigger] cv.contains_key(k) && (cv[k] matches Some(c) && c matches
            MemoryManifestEntry::Blob(l)) ==> vv.contains_key(k) && vv[k] == Entry::<
            NodeHash,
            LeafEntry,
        >::Leaf(cv[k]->0->Blob_0)
    &&& forall|k: Seq<u8>|
        #[trigger] cv.contains_key(k) && cv[k] is None ==> !vv.contains_key(k)
    &&& forall|k: Seq<u8>|
        !(#[trigger] cv.contains_key(k)) ==> vv.contains_key(k) == (base_find(m0, base, k)
            is Some) && (vv.contains_key(k) ==> Some(vv[k]) == base_find(m0, base, k))
    &&& forall|k: Seq<u8>|
        #[trigger] cv.contains_key(k) && (cv[k] matches Some(c) && c is MemTree)
            && entry_bases_stored(m0, cv[k]->0) ==> (vv.contains_key(k) == entry_saved_nonempty(
            m0,
            cv[k]->0,
        )) && (vv.contains_key(k) ==> vv[k] is Tree)
}

/// Collect the persisted entries of a tree node: the base entries, loaded
/// from the store, overridden by the node's saved changes, with removed
/// names and emptied subtrees left out.
#[verifier::rlimit(50)]
fn collect_entries<B: Blobstore>(
    store: &mut B,
    base: Option<NodeHash>,
    changes: &ChangeMap,
) -> (r: Result<Vec<(MPathElement, Entry<NodeHash, LeafEntry>)>, MemError>)
    requires
        nm_unique(changes.entries@),
        entries_values_wf(changes.entries@),
        forall|i: int|
            0 <= i < changes.entries@.len() ==> match (#[trigger] changes.entries@[i]).1 {
                Some(c) => !has_conflict(c),
                None => true,
            },
    ensures
        forall|k: Seq<char>|
            #[trigger] old(store).contents().contains_key(k)
                ==> final(store).contents().contains_key(k) && final(store).contents()[k] == old(
                store,
            ).contents()[k],
        final(store).reliable() == old(store).reliable(),
        final(store).reads_fail() == old(store).reads_fail(),
        old(store).reliable() && (base matches Some(b) ==> stored_tree(
            old(store).contents(),
            b,
        ) is Some && names_unique_deep(stored_tree(old(store).contents(), b)->0)) && (forall|
            i: int,
        |
            0 <= i < changes.entries@.len() ==> match (#[trigger] changes.entries@[i]).1 {
                Some(c) => entry_bases_stored(old(store).contents(), c),
                None => true,
            }) ==> (r is Ok || r == Err::<
            Vec<(MPathElement, Entry<NodeHash, LeafEntry>)>,
            MemError,
        >(MemError::CorruptStore)),
        match r {
            Ok(v) => forall|k: Seq<u8>|
                #[trigger] nm_view(changes.entries@).contains_key(k) && (nm_view(
                    changes.entries@,
                )[k] matches Some(c) && c is MemTree) && entry_bases_stored(
                    old(store).contents(),
                    nm_view(changes.entries@)[k]->0,
                ) && nm_view(v@).contains_key(k) ==> {
                    let c = nm_view(changes.entries@)[k]->0;
                    &&& (c->MemTree_changes.entries@.len() == 0 ==> nm_view(v@)[k] == Entry::<
                        NodeHash,
                        LeafEntry,
                    >::Tree(c->MemTree_base_manifest_id->0))
                    &&& (c->MemTree_changes.entries@.len() != 0 ==> (nm_view(v@)[k] matches
                        Entry::Tree(id2) && depth1_core(
                        old(store).contents(),
                        final(store).contents(),
                        c->MemTree_base_manifest_id,
                        c->MemTree_changes,
                        id2,
                    )))
                },
            Err(_) => true,
        },
        match r {
            Ok(v) => {
                &&& nm_unique(v@)
                &&& (forall|i: int| 0 <= i < v@.len() ==> (#[trigger] v@[i].0).is_valid())
                &&& collected_ok(old(store).contents(), base, *changes, v@)
                &&& forall|q: Seq<Seq<u8>>|
                    q.len() >= 1 && (#[trigger] dir_find(
                        old(store).contents(),
                        base,
                        *changes,
                        q,
                    )) is FoundLeaf ==> list_find(final(store).contents(), entries_deep_view(v@), q)
                        == dir_find(old(store).contents(), base, *changes, q)
            },
            Err(e) => e != MemError::UnresolvedConflict,
        },
    decreases *changes,
{
    let mut list: Vec<(MPathElement, Entry<NodeHash, LeafEntry>)> = match base {
        Some(id) => {
            let entries = match load_tree(store, id) {
                Ok(v) => v,
                Err(e) => {
                    return Err(e);
                },
            };
            if !names_unique(&entries) {
                proof {
                    // a base whose names are unique cannot reach this arm
                    if stored_tree(old(store).contents(), id) is Some && names_unique_deep(
                        stored_tree(old(store).contents(), id)->0,
                    ) {
                        let st = entries_deep_view(entries@);
                        assert(names_unique_deep(st));
                        assert forall|i: int, j: int| 0 <= i < j < entries@.len() implies (
                        #[trigger] entries@[i].0)@ != (#[trigger] entries@[j].0)@ by {
                            assert(st[i].0 == entries@[i].0@);
                            assert(st[j].0 == entries@[j].0@);
                        }
                        assert(nm_unique(entries@));
                    }
                }
                return Err(MemError::CorruptTree(id));
            }
            entries
        },
        None => Vec::new(),
    };
    let ghost m0 = old(store).contents();
    let ghost bview = nm_view(list@);
    proof {
        match base {
            Some(b) => {
                assert(stored_tree(m0, b) == Some(entries_deep_view(list@)));
                assert forall|k: Seq<u8>|
                    #[trigger] bview.contains_key(k) == (base_find(m0, base, k) is Some) && (
                bview.contains_key(k) ==> Some(bview[k]) == base_find(m0, base, k)) by {
                    lemma_manifest_find_is_nm_view(list@, k);
                }
            },
            None => {
                assert(list@ =~= Seq::<(MPathElement, Entry<NodeHash, LeafEntry>)>::empty());
            },
        }
    }
    let n = changes.entries.len();
    let mut j: usize = 0;
    while j < n
        invariant
            0 <= j <= n,
            n == changes.entries@.len(),
            nm_unique(changes.entries@),
            entries_values_wf(changes.entries@),
            forall|i: int|
                0 <= i < changes.entries@.len() ==> match (#[trigger] changes.entries@[i]).1 {
                    Some(c) => !has_conflict(c),
                    None => true,
                },
            nm_unique(list@),
            forall|i: int| 0 <= i < list@.len() ==> (#[trigger] list@[i].0).is_valid(),
            forall|k: Seq<char>|
                #[trigger] old(store).contents().contains_key(k) ==> store.contents().contains_key(
                    k,
                ) && store.contents()[k] == old(store).contents()[k],
            store.reliable() == old(store).reliable(),
            store.reads_fail() == old(store).reads_fail(),
            m0 == old(store).contents(),
            forall|k: Seq<u8>|
                #[trigger] bview.contains_key(k) == (base_find(m0, base, k) is Some) && (
                bview.contains_key(k) ==> Some(bview[k]) == base_find(m0, base, k)),
            forall|i: int|
                0 <= i < j ==> (match (#[trigger] changes.entries@[i]).1 {
                    Some(c) => (c matches MemoryManifestEntry::Blob(l) ==> nm_view(
                        list@,
                    ).contains_key(changes.entries@[i].0@) && nm_view(list@)[changes.entries@[i].0@]
                        == Entry::<NodeHash, LeafEntry>::Leaf(l)),
                    None => !nm_view(list@).contains_key(changes.entries@[i].0@),
                }),
            forall|i: int|
                0 <= i < j ==> (match (#[trigger] changes.entries@[i]).1 {
                    Some(c) => (c is MemTree && entry_bases_stored(m0, c) ==> (nm_view(
                        list@,
                    ).contains_key(changes.entries@[i].0@) == entry_saved_nonempty(m0, c)) && (
                    nm_view(list@).contains_key(changes.entries@[i].0@) ==> nm_view(
                        list@,
                    )[changes.entries@[i].0@] is Tree)),
                    None => true,
                }),
            forall|i: int|
                0 <= i < j ==> (match (#[trigger] changes.entries@[i]).1 {
                    Some(c) => (c is MemTree && entry_bases_stored(m0, c) && nm_view(
                        list@,
                    ).contains_key(changes.entries@[i].0@) ==> {
                        &&& (c->MemTree_changes.entries@.len() == 0 ==> nm_view(
                            list@,
                        )[changes.entries@[i].0@] == Entry::<NodeHash, LeafEntry>::Tree(
                            c->MemTree_base_manifest_id->0,
                        ))
                        &&& (c->MemTree_changes.entries@.len() != 0 ==> (nm_view(
                            list@,
                        )[changes.entries@[i].0@] matches Entry::Tree(id2) && depth1_core(
                            m0,
                            store.contents(),
                            c->MemTree_base_manifest_id,
                            c->MemTree_changes,
                            id2,
                        )))
                    }),
                    None => true,
                }),
            forall|k: Seq<u8>|
                !nm_view(changes.entries@).contains_key(k) ==> #[trigger] nm_view(
                    list@,
                ).contains_key(k) == bview.contains_key(k) && (bview.contains_key(k) ==> nm_view(
                    list@,
                )[k] == bview[k]),
            forall|i: int, q1: Seq<Seq<u8>>|
                0 <= i < j && (#[trigger] opt_find(m0, changes.entries@[i].1, q1)) is FoundLeaf
                    ==> nm_view(list@).contains_key(changes.entries@[i].0@) && stored_entry_find(
                    store.contents(),
                    nm_view(list@)[changes.entries@[i].0@],
                    q1,
                ) == opt_find(m0, changes.entries@[i].1, q1),
        decreases n - j,
    {
        let ghost name_j = changes.entries@[j as int].0@;
        let ghost mstep = store.contents();
        proof {
            assert(forall|i: int|
                0 <= i < changes.entries@.len() && i != j ==> (#[trigger] changes.entries@[i].0)@
                    != name_j);
            assert(forall|i: int| 0 <= i < j ==> (#[trigger] changes.entries@[i].0)@ != name_j);
            crate::namemap::lemma_nm_present(changes.entries@, j as int);
        }
        let name = changes.entries[j].0.clone();
        proof {
            use_type_invariant(&name);
        }
        let saved: Option<Entry<NodeHash, LeafEntry>> = match &changes.entries[j].1 {
            None => None,
            Some(child) => {
                proof {
                    assert(mme_wf(*child) && !has_conflict(*child)) by {
                        assert(match changes.entries@[j as int].1 {
                            Some(c) => mme_wf(c) && !has_conflict(c),
                            None => true,
                        });
                    }
                    if entry_bases_stored(m0, *child) {
                        lemma_saved_nonempty_stable(m0, mstep, *child);
                    }
                }
                match save_entry(store, child) {
                    Ok(e) => e,
                    Err(e) => {
                        return Err(e);
                    },
                }
            },
        };
        let ghost before_list = list@;
        let ghost savedg = saved;
        match saved {
            Some(e) => {
                nm_set(&mut list, name, e);
            },
            None => {
                nm_remove(&mut list, &name);
            },
        }
        proof {
            let vvn = nm_view(list@);
            let vvb = nm_view(before_list);
            match savedg {
                Some(e) => {
                    assert(vvn == vvb.insert(name_j, e));
                },
                None => {
                    assert(vvn == vvb.remove(name_j));
                },
            }
            // the handled name now meets its claim
            assert(match changes.entries@[j as int].1 {
                Some(c) => (c matches MemoryManifestEntry::Blob(l) ==> vvn.contains_key(name_j)
                    && vvn[name_j] == Entry::<NodeHash, LeafEntry>::Leaf(l)),
                None => !vvn.contains_key(name_j),
            });
            // names handled earlier keep theirs: they differ from this one
            assert forall|i: int| 0 <= i < j implies (match (
            #[trigger] changes.entries@[i]).1 {
                Some(c) => (c matches MemoryManifestEntry::Blob(l) ==> vvn.contains_key(
                    changes.entries@[i].0@,
                ) && vvn[changes.entries@[i].0@] == Entry::<NodeHash, LeafEntry>::Leaf(l)),
                None => !vvn.contains_key(changes.entries@[i].0@),
            }) by {
                assert(changes.entries@[i].0@ != name_j);
                assert(match changes.entries@[i].1 {
                    Some(c) => (c matches MemoryManifestEntry::Blob(l) ==> vvb.contains_key(
                        changes.entries@[i].0@,
                    ) && vvb[changes.entries@[i].0@] == Entry::<NodeHash, LeafEntry>::Leaf(l)),
                    None => !vvb.contains_key(changes.entries@[i].0@),
                });
            }
            // an overriding directory is kept exactly when its saved form
            // is non-empty
            assert forall|i: int| 0 <= i < j + 1 implies (match (
            #[trigger] changes.entries@[i]).1 {
                Some(c) => (c is MemTree && entry_bases_stored(m0, c) ==> (vvn.contains_key(
                    changes.entries@[i].0@,
                ) == entry_saved_nonempty(m0, c)) && (vvn.contains_key(changes.entries@[i].0@)
                    ==> vvn[changes.entries@[i].0@] is Tree)),
                None => true,
            }) by {
                if i < j {
                    assert(changes.entries@[i].0@ != name_j);
                } else {
                    match changes.entries@[j as int].1 {
                        Some(c) => {
                            if c is MemTree && entry_bases_stored(m0, c) {
                                lemma_saved_nonempty_stable(m0, mstep, c);
                            }
                        },
                        None => {},
                    }
                }
            }
            // a kept overriding directory reads back: an unmodified one
            // under its base id, a changed one through its saved first
            // level
            assert forall|i: int| 0 <= i < j + 1 implies (match (
            #[trigger] changes.entries@[i]).1 {
                Some(c) => (c is MemTree && entry_bases_stored(m0, c) && vvn.contains_key(
                    changes.entries@[i].0@,
                ) ==> {
                    &&& (c->MemTree_changes.entries@.len() == 0 ==> vvn[changes.entries@[i].0@]
                        == Entry::<NodeHash, LeafEntry>::Tree(c->MemTree_base_manifest_id->0))
                    &&& (c->MemTree_changes.entries@.len() != 0
                        ==> (vvn[changes.entries@[i].0@] matches Entry::Tree(id2) && depth1_core(
                        m0,
                        store.contents(),
                        c->MemTree_base_manifest_id,
                        c->MemTree_changes,
                        id2,
                    )))
                }),
                None => true,
            }) by {
                if i < j {
                    assert(changes.entries@[i].0@ != name_j);
                    match changes.entries@[i].1 {
                        Some(c) => {
                            if c is MemTree && entry_bases_stored(m0, c) && vvb.contains_key(
                                changes.entries@[i].0@,
                            ) && c->MemTree_changes.entries@.len() != 0 {
                                let id2 = vvb[changes.entries@[i].0@]->Tree_0;
                                lemma_depth1_core_grow(
                                    m0,
                                    mstep,
                                    store.contents(),
                                    c->MemTree_base_manifest_id,
                                    c->MemTree_changes,
                                    id2,
                                );
                            }
                        },
                        None => {},
                    }
                } else {
                    match changes.entries@[j as int].1 {
                        Some(c) => {
                            if c is MemTree && entry_bases_stored(m0, c) {
                                lemma_saved_nonempty_stable(m0, mstep, c);
                                match savedg {
                                    Some(e) => {
                                        if c->MemTree_changes.entries@.len() == 0 {
                                            assert(entry_saved_nonempty(mstep, c));
                                            assert(c->MemTree_base_manifest_id is Some);
                                            assert(savedg == Some(
                                                Entry::<NodeHash, LeafEntry>::Tree(node_base(c)),
                                            ));
                                        } else {
                                            assert(e is Tree);
                                            let id2 = e->Tree_0;
                                            assert(depth1_core(
                                                mstep,
                                                store.contents(),
                                                c->MemTree_base_manifest_id,
                                                c->MemTree_changes,
                                                id2,
                                            ));
                                            lemma_depth1_core_port(
                                                m0,
                                                mstep,
                                                store.contents(),
                                                c->MemTree_base_manifest_id,
                                                c->MemTree_changes,
                                                id2,
                                            );
                                        }
                                    },
                                    None => {},
                                }
                            }
                        },
                        None => {},
                    }
                }
            }
            // untouched names keep the base's entries
            assert forall|k: Seq<u8>|
                !nm_view(changes.entries@).contains_key(k) implies #[trigger] vvn.contains_key(k)
                == bview.contains_key(k) && (bview.contains_key(k) ==> vvn[k] == bview[k]) by {
                assert(k != name_j);
                assert(nm_view(before_list).contains_key(k) == bview.contains_key(k));
                if bview.contains_key(k) {
                    assert(nm_view(before_list)[k] == bview[k]);
                }
            }
            // leaves below every handled override stay readable
            assert forall|i: int, q1: Seq<Seq<u8>>|
                0 <= i < j + 1 && (#[trigger] opt_find(m0, changes.entries@[i].1, q1))
                    is FoundLeaf implies vvn.contains_key(changes.entries@[i].0@)
                && stored_entry_find(store.contents(), vvn[changes.entries@[i].0@], q1)
                == opt_find(m0, changes.entries@[i].1, q1) by {
                if i < j {
                    assert(changes.entries@[i].0@ != name_j);
                    assert(nm_view(before_list).contains_key(changes.entries@[i].0@)
                        && stored_entry_find(
                        mstep,
                        nm_view(before_list)[changes.entries@[i].0@],
                        q1,
                    ) == opt_find(m0, changes.entries@[i].1, q1));
                    let l = opt_find(m0, changes.entries@[i].1, q1)->FoundLeaf_0;
                    lemma_stored_leaf_monotonic(
                        mstep,
                        store.contents(),
                        nm_view(before_list)[changes.entries@[i].0@],
                        q1,
                        l,
                    );
                } else {
                    match changes.entries@[j as int].1 {
                        Some(c) => {
                            lemma_mem_leaf_monotonic(m0, mstep, c, q1);
                        },
                        None => {},
                    }
                }
            }
        }
        j = j + 1;
    }
    // carry the per-index facts over to the override map's view
    proof {
        let cv = nm_view(changes.entries@);
        let vv = nm_view(list@);
        assert forall|k: Seq<u8>|
            #[trigger] cv.contains_key(k) && (cv[k] matches Some(c) && c matches
                MemoryManifestEntry::Blob(l)) implies vv.contains_key(k) && vv[k] == Entry::<
            NodeHash,
            LeafEntry,
        >::Leaf(cv[k]->0->Blob_0) by {
            lemma_view_value_index(changes.entries@, k);
            let i = choose|i: int|
                0 <= i < changes.entries@.len() && (#[trigger] changes.entries@[i].0)@ == k
                    && changes.entries@[i].1 == cv[k];
            assert(changes.entries@[i].1 == cv[k]);
            assert(match changes.entries@[i].1 {
                Some(c) => (c matches MemoryManifestEntry::Blob(l) ==> vv.contains_key(
                    changes.entries@[i].0@,
                ) && vv[changes.entries@[i].0@] == Entry::<NodeHash, LeafEntry>::Leaf(l)),
                None => !vv.contains_key(changes.entries@[i].0@),
            });
        }
        assert forall|k: Seq<u8>| #[trigger] cv.contains_key(k) && cv[k] is None implies !vv
            .contains_key(k) by {
            lemma_view_value_index(changes.entries@, k);
            let i = choose|i: int|
                0 <= i < changes.entries@.len() && (#[trigger] changes.entries@[i].0)@ == k
                    && changes.entries@[i].1 == cv[k];
            assert(changes.entries@[i].1 == cv[k]);
            assert(match changes.entries@[i].1 {
                Some(c) => (c matches MemoryManifestEntry::Blob(l) ==> vv.contains_key(
                    changes.entries@[i].0@,
                ) && vv[changes.entries@[i].0@] == Entry::<NodeHash, LeafEntry>::Leaf(l)),
                None => !vv.contains_key(changes.entries@[i].0@),
            });
        }
        assert forall|k: Seq<u8>|
            #[trigger] cv.contains_key(k) && (cv[k] matches Some(c) && c is MemTree)
                && entry_bases_stored(m0, cv[k]->0) implies (vv.contains_key(k)
            == entry_saved_nonempty(m0, cv[k]->0)) && (vv.contains_key(k) ==> vv[k]
            is Tree) by {
            lemma_view_value_index(changes.entries@, k);
            let i = choose|i: int|
                0 <= i < changes.entries@.len() && (#[trigger] changes.entries@[i].0)@ == k
                    && changes.entries@[i].1 == cv[k];
            assert(changes.entries@[i].1 == cv[k]);
            assert(match changes.entries@[i].1 {
                Some(c) => (c is MemTree && entry_bases_stored(m0, c) ==> (vv.contains_key(
                    changes.entries@[i].0@,
                ) == entry_saved_nonempty(m0, c)) && (vv.contains_key(changes.entries@[i].0@)
                    ==> vv[changes.entries@[i].0@] is Tree)),
                None => true,
            });
        }
        assert forall|k: Seq<u8>|
            #[trigger] cv.contains_key(k) && (cv[k] matches Some(c) && c is MemTree)
                && entry_bases_stored(m0, cv[k]->0) && vv.contains_key(k) implies {
            let c = cv[k]->0;
            &&& (c->MemTree_changes.entries@.len() == 0 ==> vv[k] == Entry::<
                NodeHash,
                LeafEntry,
            >::Tree(c->MemTree_base_manifest_id->0))
            &&& (c->MemTree_changes.entries@.len() != 0 ==> (vv[k] matches Entry::Tree(id2)
                && depth1_core(
                m0,
                store.contents(),
                c->MemTree_base_manifest_id,
                c->MemTree_changes,
                id2,
            )))
        } by {
            lemma_view_value_index(changes.entries@, k);
            let i = choose|i: int|
                0 <= i < changes.entries@.len() && (#[trigger] changes.entries@[i].0)@ == k
                    && changes.entries@[i].1 == cv[k];
            assert(changes.entries@[i].1 == cv[k]);
            assert(match changes.entries@[i].1 {
                Some(c) => (c is MemTree && entry_bases_stored(m0, c) && vv.contains_key(
                    changes.entries@[i].0@,
                ) ==> {
                    &&& (c->MemTree_changes.entries@.len() == 0 ==> vv[changes.entries@[i].0@]
                        == Entry::<NodeHash, LeafEntry>::Tree(c->MemTree_base_manifest_id->0))
                    &&& (c->MemTree_changes.entries@.len() != 0
                        ==> (vv[changes.entries@[i].0@] matches Entry::Tree(id2) && depth1_core(
                        m0,
                        store.contents(),
                        c->MemTree_base_manifest_id,
                        c->MemTree_changes,
                        id2,
                    )))
                }),
                None => true,
            });
        }
        // every leaf the directory resolves stays readable from the list
        assert forall|q: Seq<Seq<u8>>|
            q.len() >= 1 && (#[trigger] dir_find(m0, base, *changes, q)) is FoundLeaf implies
        list_find(store.contents(), entries_deep_view(list@), q) == dir_find(
            m0,
            base,
            *changes,
            q,
        ) by {
            let k = q.first();
            let q1 = q.drop_first();
            let found = dir_find(m0, base, *changes, q);
            lemma_manifest_find_is_nm_view(list@, k);
            if cv.contains_key(k) {
                assert(found == opt_find(m0, cv[k], q1));
                lemma_view_value_index(changes.entries@, k);
                let i = choose|i: int|
                    0 <= i < changes.entries@.len() && (#[trigger] changes.entries@[i].0)@ == k
                        && changes.entries@[i].1 == cv[k];
                assert(opt_find(m0, changes.entries@[i].1, q1) is FoundLeaf);
                assert(vv.contains_key(k) && stored_entry_find(store.contents(), vv[k], q1)
                    == found);
            } else {
                match base {
                    Some(b) => {
                        assert(found == stored_entry_find(m0, Entry::Tree(b), q));
                        match stored_tree(m0, b) {
                            None => {},
                            Some(bst) => {
                                match manifest_find(bst, k) {
                                    None => {},
                                    Some(be) => {
                                        assert(found == stored_entry_find(m0, be, q1));
                                        assert(Some(vv[k]) == base_find(m0, base, k));
                                        let l = found->FoundLeaf_0;
                                        lemma_stored_leaf_monotonic(
                                            m0,
                                            store.contents(),
                                            be,
                                            q1,
                                            l,
                                        );
                                    },
                                }
                            },
                        }
                    },
                    None => {},
                }
            }
        }
    }
    Ok(list)
}

/// Persist one overlay node bottom-up: a leaf is reused as it is, an
/// unmodified tree keeps its persisted id, a changed tree is re-encoded
/// under a new content-derived id, and an emptied tree is left out
/// (`Ok(None)`).
fn save_entry<B: Blobstore>(store: &mut B, node: &MemoryManifestEntry) -> (r: Result<
    Option<Entry<NodeHash, LeafEntry>>,
    MemError,
>)
    requires
        mme_wf(*node),
        !has_conflict(*node),
    ensures
        forall|k: Seq<char>|
            #[trigger] old(store).contents().contains_key(k)
                ==> final(store).contents().contains_key(k) && final(store).contents()[k] == old(
                store,
            ).contents()[k],
        final(store).reliable() == old(store).reliable(),
        final(store).reads_fail() == old(store).reads_fail(),
        match r {
            Ok(Some(Entry::Leaf(l))) => *node == MemoryManifestEntry::Blob(l),
            Ok(Some(Entry::Tree(id))) => stored_tree(final(store).contents(), id) is Some || (*node
                matches MemoryManifestEntry::MemTree { base_manifest_id, changes, .. }
                && base_manifest_id == Some(id) && changes.entries@.len() == 0),
            Ok(None) => *node is MemTree,
            Err(e) => e != MemError::UnresolvedConflict,
        },
        *node matches MemoryManifestEntry::Blob(l) ==> r == Ok::<Option<Entry<NodeHash, LeafEntry>>, MemError>(Some(Entry::Leaf(l))),
        (*node matches MemoryManifestEntry::MemTree { base_manifest_id, changes, .. }
            && base_manifest_id == Some(node_base(*node)) && changes.entries@.len() == 0 && r is Ok)
            ==> r == Ok::<Option<Entry<NodeHash, LeafEntry>>, MemError>(
            Some(Entry::Tree(node_base(*node))),
        ),
        r matches Ok(Some(e)) ==> forall|q: Seq<Seq<u8>>|
            (#[trigger] mem_find(old(store).contents(), *node, q)) is FoundLeaf
                ==> stored_entry_find(final(store).contents(), e, q) == mem_find(
                old(store).contents(),
                *node,
                q,
            ),
        r matches Ok(None) ==> forall|q: Seq<Seq<u8>>|
            !((#[trigger] mem_find(old(store).contents(), *node, q)) is FoundLeaf),
        r matches Ok(Some(Entry::Tree(id))) ==> ((*node is MemTree && !((
        *node)->MemTree_changes.entries@.len() == 0 && (*node)->MemTree_base_manifest_id == Some(
            id,
        ))) ==> depth1_saved(
            old(store).contents(),
            final(store).contents(),
            (*node)->MemTree_base_manifest_id,
            (*node)->MemTree_changes,
            id,
        )),
        r matches Ok(Some(_)) && entry_bases_stored(old(store).contents(), *node)
            ==> entry_saved_nonempty(old(store).contents(), *node),
        r matches Ok(None) && entry_bases_stored(old(store).contents(), *node)
            ==> !entry_saved_nonempty(old(store).contents(), *node),
        old(store).reliable() && entry_bases_stored(old(store).contents(), *node) ==> (r is Ok
            || r == Err::<Option<Entry<NodeHash, LeafEntry>>, MemError>(MemError::CorruptStore)),
    decreases *node,
{
    let ghost m0 = store.contents();
    match node {
        MemoryManifestEntry::Blob(l) => Ok(Some(Entry::Leaf(*l))),
        MemoryManifestEntry::Conflict(_) => {
            proof {
                assert(false);
            }
            Err(MemError::UnresolvedConflict)
        },
        MemoryManifestEntry::MemTree { base_manifest_id, changes, .. } => {
            if changes.is_empty() {
                if let Some(b) = base_manifest_id {
                    proof {
                        assert forall|q: Seq<Seq<u8>>| (#[trigger] mem_find(m0, *node, q))
                            is FoundLeaf implies stored_entry_find(m0, Entry::Tree(*b), q)
                            == mem_find(m0, *node, q) by {
                            assert(q.len() > 0);
                            assert(changes.entries@ =~= Seq::<
                                (MPathElement, Option<MemoryManifestEntry>),
                            >::empty());
                            crate::namemap::lemma_nm_absent(changes.entries@, q.first());
                        }
                    }
                    return Ok(Some(Entry::Tree(*b)));
                }
            }
            let list = match collect_entries(store, *base_manifest_id, changes) {
                Ok(v) => v,
                Err(e) => {
                    return Err(e);
                },
            };
            if list.len() == 0 {
                proof {
                    assert forall|q: Seq<Seq<u8>>| !((#[trigger] mem_find(m0, *node, q))
                        is FoundLeaf) by {
                        if mem_find(m0, *node, q) is FoundLeaf {
                            assert(q.len() > 0);
                            lemma_dir_find_agrees(m0, *node, q);
                            assert(list_find(store.contents(), entries_deep_view(list@), q)
                                == dir_find(
                                m0,
                                *base_manifest_id,
                                *changes,
                                q,
                            ));
                            assert(entries_deep_view(list@).len() == 0);
                        }
                    }
                    // a node whose collected form is empty has nothing to
                    // save: no override survives and no base entry does
                    if entry_bases_stored(m0, *node) && entry_saved_nonempty(m0, *node) {
                        let cv = nm_view(changes.entries@);
                        let vv = nm_view(list@);
                        assert(list@ =~= Seq::<
                            (MPathElement, Entry<NodeHash, LeafEntry>),
                        >::empty());
                        assert(vv =~= Map::<Seq<u8>, Entry<NodeHash, LeafEntry>>::empty());
                        if changes.entries@.len() == 0 {
                            assert(*base_manifest_id is None);
                        } else {
                            if exists|i: int|
                                0 <= i < changes.entries@.len() && match (
                                #[trigger] changes.entries@[i]).1 {
                                    Some(c) => entry_saved_nonempty(m0, c),
                                    None => false,
                                } {
                                let i = choose|i: int|
                                    0 <= i < changes.entries@.len() && match (
                                    #[trigger] changes.entries@[i]).1 {
                                        Some(c) => entry_saved_nonempty(m0, c),
                                        None => false,
                                    };
                                let k = changes.entries@[i].0@;
                                assert(forall|j: int|
                                    0 <= j < i ==> (#[trigger] changes.entries@[j].0)@ != k);
                                crate::namemap::lemma_nm_present(changes.entries@, i);
                                assert(cv.contains_key(k) && cv[k] == changes.entries@[i].1);
                                match changes.entries@[i].1 {
                                    Some(c) => {
                                        if c is Conflict {
                                            assert(has_conflict(*node)) by {
                                                assert(match changes.entries@[i].1 {
                                                    Some(cc) => has_conflict(cc),
                                                    None => false,
                                                });
                                            }
                                        } else if c is Blob {
                                            assert(vv.contains_key(k));
                                        } else {
                                            assert(entry_bases_stored(m0, c)) by {
                                                assert(match changes.entries@[i].1 {
                                                    Some(cc) => entry_bases_stored(m0, cc),
                                                    None => true,
                                                });
                                            }
                                            assert(vv.contains_key(k));
                                        }
                                    },
                                    None => {},
                                }
                            } else {
                                let k = choose|k: Seq<u8>|
                                    !nm_view(changes.entries@).contains_key(k) && (
                                    #[trigger] base_find(m0, *base_manifest_id, k)) is Some;
                                assert(vv.contains_key(k));
                            }
                        }
                        assert(false);
                    }
                }
                return Ok(None);
            }
            let ghost mc = store.contents();
            let id = persist_entries(store, &list)?;
            proof {
                assert forall|q: Seq<Seq<u8>>| (#[trigger] mem_find(m0, *node, q))
                    is FoundLeaf implies stored_entry_find(
                    store.contents(),
                    Entry::Tree(id),
                    q,
                ) == mem_find(m0, *node, q) by {
                    assert(q.len() > 0);
                    lemma_dir_find_agrees(m0, *node, q);
                    let found = dir_find(m0, *base_manifest_id, *changes, q);
                    assert(list_find(mc, entries_deep_view(list@), q) == found);
                    let st = entries_deep_view(list@);
                    match manifest_find(st, q.first()) {
                        None => {},
                        Some(e2) => {
                            assert(stored_entry_find(mc, e2, q.drop_first()) == found);
                            let l = found->FoundLeaf_0;
                            lemma_stored_leaf_monotonic(
                                mc,
                                store.contents(),
                                e2,
                                q.drop_first(),
                                l,
                            );
                            assert(stored_tree(store.contents(), id) == Some(st));
                        },
                    }
                }
                assert forall|k: Seq<u8>|
                    #[trigger] nm_view(changes.entries@).contains_key(k) && (nm_view(
                        changes.entries@,
                    )[k] matches Some(c) && c is MemTree) && entry_bases_stored(
                        old(store).contents(),
                        nm_view(changes.entries@)[k]->0,
                    ) && nm_view(list@).contains_key(k) implies {
                    let c = nm_view(changes.entries@)[k]->0;
                    &&& (c->MemTree_changes.entries@.len() == 0 ==> nm_view(list@)[k] == Entry::<
                        NodeHash,
                        LeafEntry,
                    >::Tree(c->MemTree_base_manifest_id->0))
                    &&& (c->MemTree_changes.entries@.len() != 0 ==> (nm_view(list@)[k] matches
                        Entry::Tree(id2) && depth1_core(
                        old(store).contents(),
                        store.contents(),
                        c->MemTree_base_manifest_id,
                        c->MemTree_changes,
                        id2,
                    )))
                } by {
                    let c = nm_view(changes.entries@)[k]->0;
                    if c is MemTree && c->MemTree_changes.entries@.len() != 0 && entry_bases_stored(
                        old(store).contents(),
                        c,
                    ) && nm_view(list@).contains_key(k) && nm_view(list@)[k] is Tree {
                        let id2 = nm_view(list@)[k]->Tree_0;
                        lemma_depth1_core_grow(
                            old(store).contents(),
                            mc,
                            store.contents(),
                            c->MemTree_base_manifest_id,
                            c->MemTree_changes,
                            id2,
                        );
                    }
                }
                lemma_collected_implies_depth1(
                    old(store).contents(),
                    store.contents(),
                    *base_manifest_id,
                    *changes,
                    list@,
                    id,
                );
                // something was collected, so the saved form is non-empty
                if entry_bases_stored(m0, *node) {
                    let cv = nm_view(changes.entries@);
                    let vv = nm_view(list@);
                    assert(forall|jj: int|
                        0 <= jj < 0 ==> (#[trigger] list@[jj].0)@ != list@[0].0@);
                    crate::namemap::lemma_nm_present(list@, 0);
                    let k0 = list@[0].0@;
                    assert(vv.contains_key(k0));
                    if cv.contains_key(k0) {
                        lemma_view_value_index(changes.entries@, k0);
                        let i = choose|i: int|
                            0 <= i < changes.entries@.len() && (
                            #[trigger] changes.entries@[i].0)@ == k0 && changes.entries@[i].1
                                == cv[k0];
                        match cv[k0] {
                            None => {
                                assert(false);
                            },
                            Some(c) => {
                                if c is Conflict {
                                    assert(has_conflict(*node)) by {
                                        assert(match changes.entries@[i].1 {
                                            Some(cc) => has_conflict(cc),
                                            None => false,
                                        });
                                    }
                                    assert(false);
                                } else if c is MemTree {
                                    assert(entry_bases_stored(m0, c)) by {
                                        assert(match changes.entries@[i].1 {
                                            Some(cc) => entry_bases_stored(m0, cc),
                                            None => true,
                                        });
                                    }
                                    assert(entry_saved_nonempty(m0, c));
                                }
                                assert(match changes.entries@[i].1 {
                                    Some(cc) => entry_saved_nonempty(m0, cc),
                                    None => false,
                                });
                                assert(entry_saved_nonempty(m0, *node));
                            },
                        }
                    } else {
                        assert(base_find(m0, *base_manifest_id, k0) is Some);
                        if changes.entries@.len() == 0 {
                            assert(*base_manifest_id is Some);
                        }
                        assert(entry_saved_nonempty(m0, *node));
                    }
                }
            }
            Ok(Some(Entry::Tree(id)))
        },
    }
}

/// The persisted base id of a tree node; meaningful only when one is set.
pub open spec fn node_base(e: MemoryManifestEntry) -> NodeHash {
    match e {
        MemoryManifestEntry::MemTree { base_manifest_id: Some(b), .. } => b,
        _ => NodeHash(0),
    }
}

/// Encode an entry list and write it under its content-derived id.
fn persist_entries<B: Blobstore>(
    store: &mut B,
    list: &Vec<(MPathElement, Entry<NodeHash, LeafEntry>)>,
) -> (r: Result<NodeHash, MemError>)
    requires
        forall|i: int| 0 <= i < list@.len() ==> (#[trigger] list@[i].0).is_valid(),
    ensures
        forall|k: Seq<char>|
            #[trigger] old(store).contents().contains_key(k)
                ==> final(store).contents().contains_key(k) && final(store).contents()[k] == old(
                store,
            ).contents()[k],
        final(store).reliable() == old(store).reliable(),
        final(store).reads_fail() == old(store).reads_fail(),
        match r {
            Ok(id) => {
                &&& id.0 == codec::digest_from(
                    crate::manifest::encode_entries(entries_deep_view(list@)),
                    crate::manifest::TREE_DIGEST_SEED,
                )
                &&& stored_tree(final(store).contents(), id) == Some(entries_deep_view(list@))
            },
            Err(e) => e != MemError::UnresolvedConflict,
        },
        old(store).reliable() ==> (r is Ok || r == Err::<NodeHash, MemError>(
            MemError::CorruptStore,
        )),
{
    let blob = crate::manifest::encode_manifest(list);
    let id = NodeHash(codec::digest(blob.as_slice(), crate::manifest::TREE_DIGEST_SEED));
    let key = tree_key(id);
    let ghost keyv = key@;
    let ghost blobv = blob@;
    match put_once(store, key, blob) {
        Ok(_) => {
            proof {
                assert(final(store).contents().contains_key(keyv));
                assert(final(store).contents()[keyv] == blobv);
                assert(forall|i: int|
                    0 <= i < entries_deep_view(list@).len()
                        ==> crate::path::valid_element_bytes(
                        (#[trigger] entries_deep_view(list@)[i]).0,
                    ));
                crate::manifest::lemma_entries_round_trip(entries_deep_view(list@));
            }
            Ok(id)
        },
        Err(e) => Err(e),
    }
}

/// True when no two entries carry the same name.
fn names_unique(list: &Vec<(MPathElement, Entry<NodeHash, LeafEntry>)>) -> (r: bool)
    ensures
        r == nm_unique(list@),
{
    let n = list.len();
    let mut i: usize = 0;
    while i < n
        invariant
            0 <= i <= n,
            n == list@.len(),
            forall|a: int, b: int|
                0 <= a < b < list@.len() && a < i ==> (#[trigger] list@[a].0)@ != (
                #[trigger] list@[b].0)@,
        decreases n - i,
    {
        let mut j: usize = i + 1;
        while j < n
            invariant
                0 <= i < j <= n,
                n == list@.len(),
                forall|b: int| i < b < j ==> (#[trigger] list@[b].0)@ != list@[i as int].0@,
            decreases n - j,
        {
            if list[j].0 == list[i].0 {
                return false;
            }
            j = j + 1;
        }
        i = i + 1;
    }
    true
}

/// Remove the entry carrying `name`, if one is there.
fn nm_remove(list: &mut Vec<(MPathElement, Entry<NodeHash, LeafEntry>)>, name: &MPathElement)
    requires
        nm_unique(old(list)@),
    ensures
        nm_unique(final(list)@),
        nm_view(final(list)@) == nm_view(old(list)@).remove(name@),
        forall|i: int|
            0 <= i < final(list)@.len() ==> exists|j: int|
                0 <= j < old(list)@.len() && #[trigger] final(list)@[i] == old(list)@[j],
{
    let k = crate::namemap::nm_find(list, name);
    if k < list.len() {
        let ghost olds = list@;
        let _ = list.remove(k);
        proof {
            lemma_nm_remove_first(olds, k as int);
            assert(forall|i: int|
                0 <= i < list@.len() ==> #[trigger] list@[i] == (if i < k as int {
                    olds[i]
                } else {
                    olds[i + 1]
                }));
            assert(nm_unique(list@)) by {
                assert forall|a: int, b: int| 0 <= a < b < list@.len() implies (
                #[trigger] list@[a].0)@ != (#[trigger] list@[b].0)@ by {
                    let ca: int = if a < k as int {
                        a
                    } else {
                        a + 1
                    };
                    let cb: int = if b < k as int {
                        b
                    } else {
                        b + 1
                    };
                    assert(list@[a] == olds[ca] && list@[b] == olds[cb]);
                }
            }
        }
    } else {
        proof {
            crate::namemap::lemma_nm_absent(list@, name@);
            assert(nm_view(list@).remove(name@) =~= nm_view(list@));
        }
    }
}

impl MemoryRootManifest {
    /// Persist the overlay into the store, returning the new root id.
    ///
    /// Fails exactly when an unresolved conflict remains; an unmodified
    /// root keeps its persisted id; keys already stored keep their bytes.
    pub fn save<B: Blobstore>(&self, store: &mut B) -> (r: Result<NodeHash, MemError>)
        requires
            self.spec_root() is MemTree,
            mme_wf(self.spec_root()),
        ensures
            forall|k: Seq<char>|
                #[trigger] old(store).contents().contains_key(k)
                    ==> final(store).contents().contains_key(k) && final(store).contents()[k]
                    == old(store).contents()[k],
            final(store).reliable() == old(store).reliable(),
            final(store).reads_fail() == old(store).reads_fail(),
            r == Err::<NodeHash, MemError>(MemError::UnresolvedConflict) <==> has_conflict(
                self.spec_root(),
            ),
            match r {
                Ok(id) => stored_tree(final(store).contents(), id) is Some || (self.spec_root()
                    matches MemoryManifestEntry::MemTree { base_manifest_id, changes, .. }
                    && base_manifest_id == Some(id) && changes.entries@.len() == 0),
                Err(_) => true,
            },
            (self.spec_root() matches MemoryManifestEntry::MemTree { base_manifest_id, changes, .. }
                && base_manifest_id == Some(node_base(self.spec_root())) && changes.entries@.len()
                == 0) ==> r == Ok::<NodeHash, MemError>(node_base(self.spec_root())),
            r matches Ok(id) ==> forall|q: Seq<Seq<u8>>|
                (#[trigger] mem_find(old(store).contents(), self.spec_root(), q))
                    is FoundLeaf ==> stored_entry_find(
                    final(store).contents(),
                    Entry::Tree(id),
                    q,
                ) == mem_find(old(store).contents(), self.spec_root(), q),
            r matches Ok(id) ==> (!(self.spec_root()->MemTree_changes.entries@.len() == 0
                && self.spec_root()->MemTree_base_manifest_id == Some(id)) ==> depth1_saved(
                old(store).contents(),
                final(store).contents(),
                self.spec_root()->MemTree_base_manifest_id,
                self.spec_root()->MemTree_changes,
                id,
            )),
            old(store).reliable() && !has_conflict(self.spec_root()) && entry_bases_stored(
                old(store).contents(),
                self.spec_root(),
            ) ==> (r is Ok || r == Err::<NodeHash, MemError>(MemError::CorruptStore)),
    {
        if find_conflict(&self.root) {
            return Err(MemError::UnresolvedConflict);
        }
        let ghost m0 = store.contents();
        match &self.root {
            MemoryManifestEntry::MemTree { base_manifest_id, changes, .. } => {
                if changes.is_empty() {
                    if let Some(b) = base_manifest_id {
                        proof {
                            assert forall|q: Seq<Seq<u8>>| (#[trigger] mem_find(
                                m0,
                                self.spec_root(),
                                q,
                            )) is FoundLeaf implies stored_entry_find(m0, Entry::Tree(*b), q)
                                == mem_find(m0, self.spec_root(), q) by {
                                assert(q.len() > 0);
                                assert(changes.entries@ =~= Seq::<
                                    (MPathElement, Option<MemoryManifestEntry>),
                                >::empty());
                                crate::namemap::lemma_nm_absent(changes.entries@, q.first());
                            }
                        }
                        return Ok(*b);
                    }
                }
                proof {
                    assert(forall|i: int|
                        0 <= i < changes.entries@.len() ==> match (
                        #[trigger] changes.entries@[i]).1 {
                            Some(c) => !has_conflict(c),
                            None => true,
                        });
                }
                let list = match collect_entries(store, *base_manifest_id, changes) {
                    Ok(v) => v,
                    Err(e) => {
                        return Err(e);
                    },
                };
                let ghost mc = store.contents();
                let id = persist_entries(store, &list)?;
                proof {
                    assert forall|q: Seq<Seq<u8>>| (#[trigger] mem_find(m0, self.spec_root(), q))
                        is FoundLeaf implies stored_entry_find(
                        store.contents(),
                        Entry::Tree(id),
                        q,
                    ) == mem_find(m0, self.spec_root(), q) by {
                        assert(q.len() > 0);
                        lemma_dir_find_agrees(m0, self.spec_root(), q);
                        let found = dir_find(m0, *base_manifest_id, *changes, q);
                        assert(list_find(mc, entries_deep_view(list@), q) == found);
                        let st = entries_deep_view(list@);
                        match manifest_find(st, q.first()) {
                            None => {},
                            Some(e2) => {
                                assert(stored_entry_find(mc, e2, q.drop_first()) == found);
                                let l = found->FoundLeaf_0;
                                lemma_stored_leaf_monotonic(
                                    mc,
                                    store.contents(),
                                    e2,
                                    q.drop_first(),
                                    l,
                                );
                                assert(stored_tree(store.contents(), id) == Some(st));
                            },
                        }
                    }
                    assert forall|k: Seq<u8>|
                        #[trigger] nm_view(changes.entries@).contains_key(k) && (nm_view(
                            changes.entries@,
                        )[k] matches Some(c) && c is MemTree) && entry_bases_stored(
                            old(store).contents(),
                            nm_view(changes.entries@)[k]->0,
                        ) && nm_view(list@).contains_key(k) implies {
                        let c = nm_view(changes.entries@)[k]->0;
                        &&& (c->MemTree_changes.entries@.len() == 0 ==> nm_view(list@)[k] == Entry::<
                            NodeHash,
                            LeafEntry,
                        >::Tree(c->MemTree_base_manifest_id->0))
                        &&& (c->MemTree_changes.entries@.len() != 0 ==> (nm_view(list@)[k] matches
                            Entry::Tree(id2) && depth1_core(
                            old(store).contents(),
                            store.contents(),
                            c->MemTree_base_manifest_id,
                            c->MemTree_changes,
                            id2,
                        )))
                    } by {
                        let c = nm_view(changes.entries@)[k]->0;
                        if c is MemTree && c->MemTree_changes.entries@.len() != 0 && entry_bases_stored(
                            old(store).contents(),
                            c,
                        ) && nm_view(list@).contains_key(k) && nm_view(list@)[k] is Tree {
                            let id2 = nm_view(list@)[k]->Tree_0;
                            lemma_depth1_core_grow(
                                old(store).contents(),
                                mc,
                                store.contents(),
                                c->MemTree_base_manifest_id,
                                c->MemTree_changes,
                                id2,
                            );
                        }
                    }
                    lemma_collected_implies_depth1(
                        old(store).contents(),
                        store.contents(),
                        *base_manifest_id,
                        *changes,
                        list@,
                        id,
                    );
                }
                Ok(id)
            },
            _ => Err(MemError::InvalidRoot),
        }
    }
}


/// True when no node of the overlay is backed by a persisted base.
pub open spec fn bases_absent(e: MemoryManifestEntry) -> bool
    decreases e,
{
    match e {
        MemoryManifestEntry::Blob(_) => true,
        MemoryManifestEntry::MemTree { base_manifest_id, changes, .. } => {
            &&& base_manifest_id is None
            &&& forall|i: int|
                0 <= i < changes.entries@.len() ==> match (#[trigger] changes.entries@[i]).1 {
                    Some(c) => bases_absent(c),
                    None => true,
                }
        },
        MemoryManifestEntry::Conflict(sides) => forall|i: int|
            0 <= i < sides@.len() ==> bases_absent(#[trigger] sides@[i]),
    }
}

/// The sides of the conflict produced by two disagreeing entries: existing
/// conflicts are flattened, so a conflict never nests in another.
pub open spec fn conflict_sides(va: MemoryManifestEntry, vb: MemoryManifestEntry) -> Seq<
    MemoryManifestEntry,
> {
    match (va, vb) {
        (MemoryManifestEntry::Conflict(xs), MemoryManifestEntry::Conflict(ys)) => xs@ + ys@,
        (MemoryManifestEntry::Conflict(xs), _) => xs@.push(vb),
        (_, MemoryManifestEntry::Conflict(ys)) => seq![va] + ys@,
        (_, _) => seq![va, vb],
    }
}

/// True when two overridden entries agree: both are leaves of the same
/// content hash and file type.
pub open spec fn entries_agree(va: MemoryManifestEntry, vb: MemoryManifestEntry) -> bool {
    va matches MemoryManifestEntry::Blob(x) && vb matches MemoryManifestEntry::Blob(y) && x == y
}

impl MemoryManifestEntry {
    /// Merge two in-memory trees name by name: an entry present on one
    /// side is kept, agreeing leaves collapse to one, directories on both
    /// sides merge recursively, and any other disagreement becomes a
    /// [`MemoryManifestEntry::Conflict`] carrying both sides.
    pub fn merge_with_conflicts(self, other: MemoryManifestEntry) -> (r: MemoryManifestEntry)
        requires
            mme_wf(self),
            mme_wf(other),
            bases_absent(self),
            bases_absent(other),
        ensures
            mme_wf(r),
            bases_absent(r),
            entries_agree(self, other) ==> r == self,
            self is MemTree && other is MemTree ==> r is MemTree,
            !(self is MemTree && other is MemTree) && !entries_agree(self, other) ==> (r matches
            MemoryManifestEntry::Conflict(sides) && sides@ == conflict_sides(self, other)),
            ({
                match (self, other) {
                    (
                        MemoryManifestEntry::MemTree { p1: ap1, changes: ca, .. },
                        MemoryManifestEntry::MemTree { p1: bp1, changes: cb, .. },
                    ) => {
                        let ea = nm_view(ca.entries@);
                        let eb = nm_view(cb.entries@);
                        r matches MemoryManifestEntry::MemTree {
                            base_manifest_id: rb,
                            p1: rp1,
                            p2: rp2,
                            changes: rc,
                        } && rb is None && rp1 == ap1 && rp2 == bp1 && {
                            let rv = nm_view(rc.entries@);
                            &&& nm_unique(rc.entries@)
                            &&& forall|k: Seq<u8>|
                                #[trigger] rv.contains_key(k) <==> ((ea.contains_key(k) && ea[k]
                                    is Some) || (eb.contains_key(k) && eb[k] is Some))
                            &&& forall|k: Seq<u8>|
                                rv.contains_key(k) ==> (#[trigger] rv[k]) is Some
                            &&& forall|k: Seq<u8>|
                                #[trigger] rv.contains_key(k) && (ea.contains_key(k) && ea[k]
                                    is Some) && !(eb.contains_key(k) && eb[k] is Some) ==> rv[k]
                                    == ea[k]
                            &&& forall|k: Seq<u8>|
                                #[trigger] rv.contains_key(k) && (eb.contains_key(k) && eb[k]
                                    is Some) && !(ea.contains_key(k) && ea[k] is Some) ==> rv[k]
                                    == eb[k]
                            &&& forall|k: Seq<u8>|
                                #[trigger] rv.contains_key(k) && (ea.contains_key(k) && ea[k]
                                    is Some) && (eb.contains_key(k) && eb[k] is Some) ==> {
                                    let va = ea[k]->0;
                                    let vb = eb[k]->0;
                                    &&& (entries_agree(va, vb) ==> rv[k] == ea[k])
                                    &&& (va is MemTree && vb is MemTree ==> rv[k]->0 is MemTree)
                                    &&& (!entries_agree(va, vb) && !(va is MemTree && vb
                                        is MemTree) ==> (rv[k]->0 matches
                                    MemoryManifestEntry::Conflict(sides) && sides@
                                        == conflict_sides(va, vb)))
                                }
                        }
                    },
                    _ => true,
                }
            }),
        decreases self,
    {
        match (self, other) {
            (
                MemoryManifestEntry::MemTree { base_manifest_id: ab, p1: ap1, p2: ap2, changes: ca },
                MemoryManifestEntry::MemTree { base_manifest_id: bb, p1: bp1, p2: bp2, changes: cb },
            ) => {
                let ghost selfg = self;
                let ghost cag = ca;
                merge_trees(ap1, bp1, ca, cb, Ghost(self), Ghost(other))
            },
            (a, b) => {
                let ghost ag = a;
                let ghost bg = b;
                match (a, b) {
                    (MemoryManifestEntry::Blob(x), MemoryManifestEntry::Blob(y)) => {
                        if x == y {
                            MemoryManifestEntry::Blob(x)
                        } else {
                            two_sided_conflict(
                                MemoryManifestEntry::Blob(x),
                                MemoryManifestEntry::Blob(y),
                            )
                        }
                    },
                    (MemoryManifestEntry::Conflict(xs), MemoryManifestEntry::Conflict(ys)) => {
                        let mut xs = xs;
                        let mut ys = ys;
                        let ghost xsv = xs@;
                        let ghost ysv = ys@;
                        xs.append(&mut ys);
                        proof {
                            assert(forall|i: int|
                                0 <= i < xs@.len() ==> #[trigger] xs@[i] == (if i < xsv.len() {
                                    xsv[i]
                                } else {
                                    ysv[i - xsv.len()]
                                }));
                        }
                        MemoryManifestEntry::Conflict(xs)
                    },
                    (MemoryManifestEntry::Conflict(xs), y) => {
                        let mut xs = xs;
                        let ghost xsv = xs@;
                        let ghost yg = y;
                        xs.push(y);
                        proof {
                            assert(forall|i: int|
                                0 <= i < xs@.len() ==> #[trigger] xs@[i] == (if i < xsv.len() {
                                    xsv[i]
                                } else {
                                    yg
                                }));
                        }
                        MemoryManifestEntry::Conflict(xs)
                    },
                    (x, MemoryManifestEntry::Conflict(ys)) => {
                        let mut sides: Vec<MemoryManifestEntry> = Vec::new();
                        let ghost xg = x;
                        sides.push(x);
                        let mut ys = ys;
                        let ghost ysv = ys@;
                        sides.append(&mut ys);
                        proof {
                            assert(forall|i: int|
                                0 <= i < sides@.len() ==> #[trigger] sides@[i] == (if i == 0 {
                                    xg
                                } else {
                                    ysv[i - 1]
                                }));
                            assert(sides@ =~= seq![xg] + ysv);
                        }
                        MemoryManifestEntry::Conflict(sides)
                    },
                    (x, y) => two_sided_conflict(x, y),
                }
            },
        }
    }
}

/// A conflict holding exactly the two given sides.
fn two_sided_conflict(x: MemoryManifestEntry, y: MemoryManifestEntry) -> (r: MemoryManifestEntry)
    requires
        mme_wf(x),
        mme_wf(y),
        !(x is Conflict),
        !(y is Conflict),
        bases_absent(x),
        bases_absent(y),
    ensures
        r matches MemoryManifestEntry::Conflict(sides) && sides@ =~= seq![x, y],
        mme_wf(r),
        bases_absent(r),
{
    let ghost xg = x;
    let ghost yg = y;
    let mut sides: Vec<MemoryManifestEntry> = Vec::new();
    sides.push(x);
    sides.push(y);
    proof {
        assert(sides@ =~= seq![xg, yg]);
    }
    MemoryManifestEntry::Conflict(sides)
}

/// True when every override in a list is free of persisted bases.
pub open spec fn entries_values_ba(s: Seq<(MPathElement, Option<MemoryManifestEntry>)>) -> bool {
    forall|i: int|
        0 <= i < s.len() ==> match (#[trigger] s[i]).1 {
            Some(c) => bases_absent(c),
            None => true,
        }
}

/// The rule relating one merged override to the two sides' overrides.
pub open spec fn merged_entry_ok(
    ea: Map<Seq<u8>, Option<MemoryManifestEntry>>,
    eb: Map<Seq<u8>, Option<MemoryManifestEntry>>,
    rv: Map<Seq<u8>, Option<MemoryManifestEntry>>,
    k: Seq<u8>,
) -> bool {
    let in_a = ea.contains_key(k) && ea[k] is Some;
    let in_b = eb.contains_key(k) && eb[k] is Some;
    &&& (in_a && !in_b ==> rv[k] == ea[k])
    &&& (in_b && !in_a ==> rv[k] == eb[k])
    &&& (in_a && in_b ==> {
        let va = ea[k]->0;
        let vb = eb[k]->0;
        &&& (entries_agree(va, vb) ==> rv[k] == ea[k])
        &&& (va is MemTree && vb is MemTree ==> rv[k]->0 is MemTree)
        &&& (!entries_agree(va, vb) && !(va is MemTree && vb is MemTree) ==> (rv[k]->0 matches
        MemoryManifestEntry::Conflict(sides) && sides@ == conflict_sides(va, vb)))
    })
}

/// Merge the override maps of two in-memory trees.
fn merge_trees(
    ap1: Option<NodeHash>,
    bp1: Option<NodeHash>,
    ca: ChangeMap,
    cb: ChangeMap,
    Ghost(a_whole): Ghost<MemoryManifestEntry>,
    Ghost(b_whole): Ghost<MemoryManifestEntry>,
) -> (r: MemoryManifestEntry)
    requires
        a_whole matches MemoryManifestEntry::MemTree { p1, changes, .. } && p1 == ap1 && changes
            == ca,
        b_whole matches MemoryManifestEntry::MemTree { p1, changes, .. } && p1 == bp1 && changes
            == cb,
        mme_wf(a_whole),
        mme_wf(b_whole),
        bases_absent(a_whole),
        bases_absent(b_whole),
    ensures
        mme_wf(r),
        bases_absent(r),
        ({
            let ea = nm_view(ca.entries@);
            let eb = nm_view(cb.entries@);
            r matches MemoryManifestEntry::MemTree {
                base_manifest_id: rb,
                p1: rp1,
                p2: rp2,
                changes: rc,
            } && rb is None && rp1 == ap1 && rp2 == bp1 && {
                let rv = nm_view(rc.entries@);
                &&& nm_unique(rc.entries@)
                &&& forall|k: Seq<u8>|
                    #[trigger] rv.contains_key(k) <==> ((ea.contains_key(k) && ea[k] is Some) || (
                    eb.contains_key(k) && eb[k] is Some))
                &&& forall|k: Seq<u8>| rv.contains_key(k) ==> (#[trigger] rv[k]) is Some
                &&& forall|k: Seq<u8>|
                    #[trigger] rv.contains_key(k) ==> merged_entry_ok(ea, eb, rv, k)
            }
        }),
    decreases a_whole, 0int,
{
    let ghost ea = nm_view(ca.entries@);
    let ghost eb = nm_view(cb.entries@);
    let ghost cav = ca.entries@;
    let mut ca = ca;
    let mut cb = cb;
    let mut rc = ChangeMap::new();
    proof {
        assert(entries_values_wf(cav) && entries_values_ba(cav)) by {
            assert(a_whole matches MemoryManifestEntry::MemTree { changes, .. } && changes
                == ca);
        }
        assert(entries_values_wf(cb.entries@) && entries_values_ba(cb.entries@)) by {
            assert(b_whole matches MemoryManifestEntry::MemTree { changes, .. } && changes
                == cb);
        }
        assert(nm_unique(cav) && nm_unique(cb.entries@));
    }
    proof {
        assert(cav.subrange(0, cav.len() as int) =~= cav);
        assert forall|k: Seq<u8>| ea.contains_key(k) && ea[k] is Some implies exists|j: int|
            0 <= j < cav.len() && (#[trigger] cav[j].0)@ == k by {
            lemma_view_value_index(cav, k);
            let j = choose|j: int|
                0 <= j < cav.len() && (#[trigger] cav[j].0)@ == k && cav[j].1 == nm_view(cav)[k];
            assert(0 <= j < cav.len() && cav[j].0@ == k);
        }
    }
    // walk the left overrides back to front, merging against the right side
    while ca.entries.len() > 0
        invariant
            a_whole matches MemoryManifestEntry::MemTree { changes, .. } && changes.entries@
                == cav,
            ca.entries@.len() <= cav.len(),
            ca.entries@ == cav.subrange(0, ca.entries@.len() as int),
            ea == nm_view(cav),
            nm_unique(cav),
            entries_values_wf(cav),
            entries_values_ba(cav),
            nm_unique(cb.entries@),
            entries_values_wf(cb.entries@),
            entries_values_ba(cb.entries@),
            nm_unique(rc.entries@),
            entries_values_wf(rc.entries@),
            entries_values_ba(rc.entries@),
            // the right side still holds exactly its unprocessed names
            forall|k: Seq<u8>|
                #[trigger] nm_view(cb.entries@).contains_key(k) ==> eb.contains_key(k) && nm_view(
                    cb.entries@,
                )[k] == eb[k],
            forall|k: Seq<u8>|
                #[trigger] eb.contains_key(k) && !nm_view(cb.entries@).contains_key(k) ==> nm_view(
                    rc.entries@,
                ).contains_key(k),
            forall|k: Seq<u8>|
                #[trigger] nm_view(cb.entries@).contains_key(k) && ea.contains_key(k) && ea[k]
                    is Some ==> exists|j: int|
                    0 <= j < ca.entries@.len() && (#[trigger] cav[j].0)@ == k,
            // the produced overrides are the processed left names, merged
            forall|k: Seq<u8>|
                #[trigger] nm_view(rc.entries@).contains_key(k) <==> (exists|j: int|
                    ca.entries@.len() <= j < cav.len() && (#[trigger] cav[j].0)@ == k && cav[j].1
                        is Some),
            forall|k: Seq<u8>|
                nm_view(rc.entries@).contains_key(k) ==> (#[trigger] nm_view(rc.entries@)[k])
                    is Some,
            forall|k: Seq<u8>|
                #[trigger] nm_view(rc.entries@).contains_key(k) ==> merged_entry_ok(
                    ea,
                    eb,
                    nm_view(rc.entries@),
                    k,
                ),
        decreases ca.entries@.len(),
    {
        let ghost m_before = ca.entries@.len() as int;
        let popped = ca.entries.pop();
        let (name, value) = match popped {
            Some(p) => p,
            None => {
                proof {
                    assert(false);
                }
                return MemoryManifestEntry::Blob(
                    LeafEntry::new(NodeHash(0), crate::manifest::FileType::Regular),
                );
            },
        };
        let ghost mi = ca.entries@.len() as int;
        proof {
            assert(cav.subrange(0, m_before).drop_last() =~= cav.subrange(0, mi));
            assert(cav.subrange(0, m_before).last() == cav[mi]);
            assert(cav[mi].0 == name && cav[mi].1 == value);
            assert(ea.contains_key(name@) && ea[name@] == value) by {
                crate::namemap::lemma_nm_present(cav, mi);
                assert(forall|j: int| 0 <= j < mi ==> (#[trigger] cav[j].0)@ != cav[mi].0@);
            }
        }
        match value {
            None => {
                // a left-side deletion: nothing effective on the left

            },
            Some(va) => {
                let ghost vag = va;
                proof {
                    assert(mme_wf(va) && bases_absent(va)) by {
                        assert(match cav[mi].1 {
                            Some(c) => mme_wf(c) && bases_absent(c),
                            None => true,
                        });
                    }
                }
                let ghost old_cb_for_take = cb.entries@;
                let taken = take_change(&mut cb, &name);
                let merged: MemoryManifestEntry = match taken {
                    Some(Some(vb)) => {
                        let ghost vbg = vb;
                        proof {
                            assert(mme_wf(vb) && bases_absent(vb)) by {
                                assert(nm_view(old_cb_for_take).contains_key(name@) && nm_view(
                                    old_cb_for_take,
                                )[name@] == Some(vbg));
                                lemma_view_value_index(old_cb_for_take, name@);
                                let nv = nm_view(old_cb_for_take)[name@];
                                let jj = choose|jj: int|
                                    0 <= jj < old_cb_for_take.len() && (
                                    #[trigger] old_cb_for_take[jj].0)@ == name@
                                        && old_cb_for_take[jj].1 == nv;
                                assert(match old_cb_for_take[jj].1 {
                                    Some(c) => mme_wf(c) && bases_absent(c),
                                    None => true,
                                });
                            }
                            assert(decreases_to!(a_whole => vag)) by {
                                assert(a_whole matches MemoryManifestEntry::MemTree {
                                    changes,
                                    ..
                                } && changes.entries@ == cav);
                                assert(decreases_to!(cav[mi] => vag));
                            }
                        }
                        va.merge_with_conflicts(vb)
                    },
                    _ => va,
                };
                let ghost mergedg = merged;
                let ghost rc_before = rc.entries@;
                let cloned_name = name.clone();
                let ghost cn = cloned_name;
                rc.set(cloned_name, Some(merged));
                proof {
                    let x = (cn, Some(mergedg));
                    assert(x.1 == Some(mergedg));
                    lemma_wf_entries_set(rc_before, rc.entries@, name@, Some(mergedg));
                    lemma_ba_entries_set(rc_before, rc.entries@, name@, Some(mergedg));
                }
            },
        }
    }
    proof {
        assert(ca.entries@.len() == 0);
        // every left-side effective name is now produced, and none remains
        // on the right side
        assert forall|k: Seq<u8>| ea.contains_key(k) && ea[k] is Some implies #[trigger] nm_view(
            rc.entries@,
        ).contains_key(k) by {
            lemma_view_value_index(cav, k);
            let j = choose|j: int|
                0 <= j < cav.len() && (#[trigger] cav[j].0)@ == k && cav[j].1 == nm_view(cav)[k];
            assert(0 <= j < cav.len() && cav[j].0@ == k && cav[j].1 is Some);
        }
        assert forall|k: Seq<u8>| #[trigger] nm_view(rc.entries@).contains_key(k) implies ((
        ea.contains_key(k) && ea[k] is Some) || (eb.contains_key(k) && eb[k] is Some && !nm_view(
            cb.entries@,
        ).contains_key(k))) by {
            let j = choose|j: int|
                0 <= j < cav.len() && (#[trigger] cav[j].0)@ == k && cav[j].1 is Some;
            assert(forall|j2: int| 0 <= j2 < j ==> (#[trigger] cav[j2].0)@ != cav[j].0@);
            crate::namemap::lemma_nm_present(cav, j);
        }
        assert forall|k: Seq<u8>| #[trigger] nm_view(cb.entries@).contains_key(k) implies !(
        ea.contains_key(k) && ea[k] is Some) by {}
    }
    // what is left on the right side is present only there
    while cb.entries.len() > 0
        invariant
            ea == nm_view(cav),
            nm_unique(cb.entries@),
            entries_values_wf(cb.entries@),
            entries_values_ba(cb.entries@),
            nm_unique(rc.entries@),
            entries_values_wf(rc.entries@),
            entries_values_ba(rc.entries@),
            forall|k: Seq<u8>|
                #[trigger] nm_view(cb.entries@).contains_key(k) ==> eb.contains_key(k) && nm_view(
                    cb.entries@,
                )[k] == eb[k],
            forall|k: Seq<u8>|
                #[trigger] nm_view(cb.entries@).contains_key(k) ==> !(ea.contains_key(k) && ea[k]
                    is Some),
            forall|k: Seq<u8>|
                #[trigger] eb.contains_key(k) && !nm_view(cb.entries@).contains_key(k) ==> nm_view(
                    rc.entries@,
                ).contains_key(k) || !(eb[k] is Some),
            forall|k: Seq<u8>|
                #[trigger] nm_view(rc.entries@).contains_key(k) ==> ((ea.contains_key(k) && ea[k]
                    is Some) || (eb.contains_key(k) && eb[k] is Some && !nm_view(
                    cb.entries@,
                ).contains_key(k))),
            forall|k: Seq<u8>|
                (ea.contains_key(k) && ea[k] is Some) ==> #[trigger] nm_view(
                    rc.entries@,
                ).contains_key(k),
            forall|k: Seq<u8>|
                nm_view(rc.entries@).contains_key(k) ==> (#[trigger] nm_view(rc.entries@)[k])
                    is Some,
            forall|k: Seq<u8>|
                #[trigger] nm_view(rc.entries@).contains_key(k) ==> merged_entry_ok(
                    ea,
                    eb,
                    nm_view(rc.entries@),
                    k,
                ),
        decreases cb.entries@.len(),
    {
        let ghost cbv_before = cb.entries@;
        let popped = cb.entries.pop();
        let (name, value) = match popped {
            Some(p) => p,
            None => {
                proof {
                    assert(false);
                }
                return MemoryManifestEntry::Blob(
                    LeafEntry::new(NodeHash(0), crate::manifest::FileType::Regular),
                );
            },
        };
        let ghost mb = cb.entries@.len() as int;
        proof {
            assert(cbv_before.drop_last() =~= cb.entries@);
            assert(cbv_before[mb] == (name, value));
            assert(nm_view(cbv_before).contains_key(name@) && nm_view(cbv_before)[name@]
                == value) by {
                crate::namemap::lemma_nm_present(cbv_before, mb);
                assert(forall|j: int|
                    0 <= j < mb ==> (#[trigger] cbv_before[j].0)@ != cbv_before[mb].0@);
            }
            lemma_nm_remove_first(cbv_before, mb);
            assert(cbv_before.remove(mb) =~= cb.entries@);
            assert(forall|i: int, j: int|
                0 <= i < j < cb.entries@.len() ==> (#[trigger] cb.entries@[i].0)@ != (
                #[trigger] cb.entries@[j].0)@);
        }
        match value {
            None => {},
            Some(vb) => {
                let ghost vbg = vb;
                proof {
                    assert(mme_wf(vb) && bases_absent(vb)) by {
                        assert(match cbv_before[mb].1 {
                            Some(c) => mme_wf(c) && bases_absent(c),
                            None => true,
                        });
                    }
                    assert(!(ea.contains_key(name@) && ea[name@] is Some)) by {
                        assert(nm_view(cbv_before).contains_key(name@));
                    }
                }
                let ghost rc_before = rc.entries@;
                let cloned_name = name.clone();
                let ghost cn = cloned_name;
                rc.set(cloned_name, Some(vb));
                proof {
                    let x = (cn, Some(vbg));
                    assert(x.1 == Some(vbg));
                    lemma_wf_entries_set(rc_before, rc.entries@, name@, Some(vbg));
                    lemma_ba_entries_set(rc_before, rc.entries@, name@, Some(vbg));
                }
            },
        }
    }
    let result = MemoryManifestEntry::MemTree { base_manifest_id: None, p1: ap1, p2: bp1, changes: rc };
    proof {
        assert(nm_view(match result {
            MemoryManifestEntry::MemTree { ref changes, .. } => changes.entries@,
            _ => Seq::empty(),
        }) == nm_view(rc.entries@)) by {
            assert(result matches MemoryManifestEntry::MemTree { changes, .. } && changes == rc);
        }
        assert(forall|k: Seq<u8>|
            #[trigger] nm_view(rc.entries@).contains_key(k) <==> ((ea.contains_key(k) && ea[k]
                is Some) || (eb.contains_key(k) && eb[k] is Some))) by {
            assert(forall|k: Seq<u8>|
                !(#[trigger] nm_view(cb.entries@).contains_key(k))) by {
                assert(cb.entries@.len() == 0);
                assert(cb.entries@ =~= Seq::<(MPathElement, Option<MemoryManifestEntry>)>::empty());
            }
        }
    }
    result
}

/// Setting one name keeps every override free of persisted bases when the
/// new value is.
proof fn lemma_ba_entries_set(
    olds: Seq<(MPathElement, Option<MemoryManifestEntry>)>,
    news: Seq<(MPathElement, Option<MemoryManifestEntry>)>,
    name: Seq<u8>,
    value: Option<MemoryManifestEntry>,
)
    requires
        entries_values_ba(olds),
        match value {
            Some(c) => bases_absent(c),
            None => true,
        },
        exists|x: (MPathElement, Option<MemoryManifestEntry>)|
            #[trigger] x.1 == value && ((exists|k: int|
                0 <= k < olds.len() && news == olds.update(k, x)) || news == olds.push(x)),
    ensures
        entries_values_ba(news),
{
    let x = choose|x: (MPathElement, Option<MemoryManifestEntry>)|
        #[trigger] x.1 == value && ((exists|k: int|
            0 <= k < olds.len() && news == olds.update(k, x)) || news == olds.push(x));
    if news == olds.push(x) {
        assert forall|i: int| 0 <= i < news.len() implies match (#[trigger] news[i]).1 {
            Some(c) => bases_absent(c),
            None => true,
        } by {
            if i < olds.len() {
                assert(news[i] == olds[i]);
            } else {
                assert(news[i] == x);
            }
        }
    } else {
        let k = choose|k: int| 0 <= k < olds.len() && news == olds.update(k, x);
        assert forall|i: int| 0 <= i < news.len() implies match (#[trigger] news[i]).1 {
            Some(c) => bases_absent(c),
            None => true,
        } by {
            if i != k {
                assert(news[i] == olds[i]);
            } else {
                assert(news[i] == x);
            }
        }
    }
}

/// A key in a list's view is carried by some pair of the list.
proof fn lemma_view_value_index<V>(s: Seq<(MPathElement, V)>, k: Seq<u8>)
    requires
        nm_view(s).contains_key(k),
    ensures
        exists|i: int| 0 <= i < s.len() && (#[trigger] s[i].0)@ == k && s[i].1 == nm_view(s)[k],
    decreases s.len(),
{
    if s.len() > 0 {
        if s.first().0@ == k {
            if nm_view(s)[k] == s.first().1 {
                assert(s[0].0@ == k && s[0].1 == nm_view(s)[k]);
            } else {
                lemma_view_value_index(s.drop_first(), k);
                let i = choose|i: int|
                    0 <= i < s.drop_first().len() && (#[trigger] s.drop_first()[i].0)@ == k
                        && s.drop_first()[i].1 == nm_view(s.drop_first())[k];
                assert(s[i + 1].0@ == k && s[i + 1].1 == nm_view(s)[k]);
            }
        } else {
            lemma_view_value_index(s.drop_first(), k);
            let i = choose|i: int|
                0 <= i < s.drop_first().len() && (#[trigger] s.drop_first()[i].0)@ == k
                    && s.drop_first()[i].1 == nm_view(s.drop_first())[k];
            assert(s[i + 1].0@ == k && s[i + 1].1 == nm_view(s)[k]);
        }
    }
}


/// A name carried by some pair of an entry list is found in it.
proof fn lemma_manifest_find_present(
    s: Seq<(Seq<u8>, Entry<NodeHash, LeafEntry>)>,
    i: int,
)
    requires
        0 <= i < s.len(),
    ensures
        manifest_find(s, s[i].0) is Some,
    decreases i,
{
    if i > 0 && s.first().0 != s[i].0 {
        assert(s.drop_first()[i - 1] == s[i]);
        lemma_manifest_find_present(s.drop_first(), i - 1);
    }
}

/// A name carried by no pair of an entry list is not found in it.
proof fn lemma_manifest_find_absent(
    s: Seq<(Seq<u8>, Entry<NodeHash, LeafEntry>)>,
    name: Seq<u8>,
)
    requires
        forall|i: int| 0 <= i < s.len() ==> (#[trigger] s[i]).0 != name,
    ensures
        manifest_find(s, name) is None,
    decreases s.len(),
{
    if s.len() > 0 {
        assert(forall|i: int|
            0 <= i < s.drop_first().len() ==> (#[trigger] s.drop_first()[i]) == s[i + 1]);
        lemma_manifest_find_absent(s.drop_first(), name);
    }
}

/// A found name is carried by some pair of an entry list.
proof fn lemma_manifest_find_index(
    s: Seq<(Seq<u8>, Entry<NodeHash, LeafEntry>)>,
    name: Seq<u8>,
)
    requires
        manifest_find(s, name) is Some,
    ensures
        exists|i: int| 0 <= i < s.len() && (#[trigger] s[i]).0 == name,
    decreases s.len(),
{
    if s.len() > 0 && s.first().0 != name {
        lemma_manifest_find_index(s.drop_first(), name);
        let i = choose|i: int| 0 <= i < s.drop_first().len() && (#[trigger] s.drop_first()[i]).0
            == name;
        assert(s[i + 1].0 == name);
    }
}

impl MemoryManifestEntry {
    /// Report whether this node is a directory with nothing under it:
    /// every base entry deleted and nothing set in its place.
    pub fn is_empty<B: Blobstore>(&self, store: &B) -> (r: Result<bool, MemError>)
        requires
            mme_wf(*self),
        ensures
            match r {
                Ok(b) => b == (*self is MemTree && forall|name: Seq<u8>|
                    (#[trigger] mem_find(store.contents(), *self, seq![name])) is Absent),
                Err(_) => true,
            },
            !(*self is MemTree) ==> r == Ok::<bool, MemError>(false),
            store.reliable() && (self->MemTree_base_manifest_id matches Some(id)
                ==> stored_tree(store.contents(), id) is Some) ==> r is Ok,
    {
        let ghost m = store.contents();
        let (base_manifest_id, changes) = match self {
            MemoryManifestEntry::MemTree { base_manifest_id, changes, .. } => (
                base_manifest_id,
                changes,
            ),
            MemoryManifestEntry::Blob(l) => {
                proof {
                    let witness = seq![seq![0u8]];
                    assert(mem_find(m, *self, seq![seq![0u8]]) is Absent);
                }
                return Ok(false);
            },
            MemoryManifestEntry::Conflict(_) => {
                return Ok(false);
            },
        };
        let ghost cv = nm_view(changes.entries@);
        let n = changes.entries.len();
        let mut j: usize = 0;
        // any override that sets an entry makes the directory non-empty
        while j < n
            invariant
                0 <= j <= n,
                n == changes.entries@.len(),
                m == store.contents(),
                *self is MemTree,
                self->MemTree_changes == *changes,
                self->MemTree_base_manifest_id == *base_manifest_id,
                cv == nm_view(changes.entries@),
                nm_unique(changes.entries@),
                forall|i: int| 0 <= i < j ==> (#[trigger] changes.entries@[i]).1 is None,
            decreases n - j,
        {
            match &changes.entries[j].1 {
                Some(_) => {
                    proof {
                        let name = changes.entries@[j as int].0@;
                        assert(forall|i: int|
                            0 <= i < j ==> (#[trigger] changes.entries@[i].0)@ != name);
                        crate::namemap::lemma_nm_present(changes.entries@, j as int);
                        assert(!(mem_find(m, *self, seq![name]) is Absent)) by {
                            assert(seq![name].first() == name);
                            assert(seq![name].drop_first() =~= Seq::<Seq<u8>>::empty());
                            assert(cv.contains_key(name) && cv[name]
                                == changes.entries@[j as int].1);
                            let child = cv[name]->0;
                            assert(mem_find(m, *self, seq![name]) == mem_find(
                                m,
                                child,
                                Seq::empty(),
                            ));
                        }
                    }
                    return Ok(false);
                },
                None => {},
            }
            j = j + 1;
        }
        // every override is a deletion; only base entries can remain
        match base_manifest_id {
            None => {
                proof {
                    assert forall|name: Seq<u8>| mem_find(m, *self, seq![name]) is Absent by {
                        assert(seq![name].first() == name);
                        if cv.contains_key(name) {
                            lemma_view_value_index(changes.entries@, name);
                        }
                    }
                }
                Ok(true)
            },
            Some(id) => {
                let entries = match load_tree(store, *id) {
                    Ok(v) => v,
                    Err(e) => {
                        return Err(e);
                    },
                };
                let ghost dv = entries_deep_view(entries@);
                let bn = entries.len();
                let mut t: usize = 0;
                // every base entry must be deleted by an override
                while t < bn
                    invariant
                        0 <= t <= bn,
                        bn == entries@.len(),
                        m == store.contents(),
                        dv == entries_deep_view(entries@),
                        *self is MemTree,
                        self->MemTree_changes == *changes,
                        self->MemTree_base_manifest_id == Some(*id),
                        cv == nm_view(changes.entries@),
                        nm_unique(changes.entries@),
                        stored_tree(m, *id) == Some(dv),
                        forall|i: int|
                            0 <= i < changes.entries@.len() ==> (
                            #[trigger] changes.entries@[i]).1 is None,
                        forall|i: int|
                            0 <= i < t ==> cv.contains_key((#[trigger] dv[i]).0),
                    decreases bn - t,
                {
                    match changes.get(&entries[t].0) {
                        None => {
                            proof {
                                let name = entries@[t as int].0@;
                                assert(dv[t as int].0 == name);
                                lemma_manifest_find_present(dv, t as int);
                                assert(!(mem_find(m, *self, seq![name]) is Absent)) by {
                                    assert(seq![name].first() == name);
                                    assert(seq![name].drop_first() =~= Seq::<Seq<u8>>::empty());
                                    assert(!cv.contains_key(name));
                                    assert(mem_find(m, *self, seq![name]) == stored_entry_find(
                                        m,
                                        Entry::Tree(*id),
                                        seq![name],
                                    ));
                                    assert(manifest_find(dv, name) is Some);
                                    let found = manifest_find(dv, name)->0;
                                    assert(stored_entry_find(m, Entry::Tree(*id), seq![name])
                                        == stored_entry_find(m, found, Seq::empty()));
                                }
                            }
                            return Ok(false);
                        },
                        Some(_) => {},
                    }
                    t = t + 1;
                }
                proof {
                    assert forall|name: Seq<u8>| mem_find(m, *self, seq![name]) is Absent by {
                        assert(seq![name].first() == name);
                        if cv.contains_key(name) {
                            lemma_view_value_index(changes.entries@, name);
                        } else {
                            if manifest_find(dv, name) is Some {
                                lemma_manifest_find_index(dv, name);
                                let i = choose|i: int|
                                    0 <= i < dv.len() && (#[trigger] dv[i]).0 == name;
                                assert(cv.contains_key(dv[i].0));
                            }
                        }
                    }
                }
                Ok(true)
            },
        }
    }
}


impl MemoryManifestEntry {
    /// Change one immediate child of this tree: set a leaf, or remove with
    /// `None`; removing a conflict resolves it to a fresh empty tree.
    pub fn change(&mut self, name: MPathElement, entry: Option<LeafEntry>) -> (r: Result<
        (),
        MemError,
    >)
        requires
            *old(self) is MemTree,
            mme_wf(*old(self)),
        ensures
            *final(self) is MemTree,
            mme_wf(*final(self)),
            r is Ok <==> *old(self) is MemTree,
            r is Ok ==> ({
                let old_cv = nm_view((*old(self))->MemTree_changes.entries@);
                let cv = nm_view((*final(self))->MemTree_changes.entries@);
                match entry {
                    Some(l) => cv == old_cv.insert(name@, Some(MemoryManifestEntry::Blob(l))),
                    None => if old_cv.contains_key(name@) && (old_cv[name@] matches Some(c) && c
                        is Conflict) {
                        &&& cv.contains_key(name@)
                        &&& (cv[name@] matches Some(f) && f is MemTree
                            && f->MemTree_base_manifest_id is None
                            && f->MemTree_changes.entries@.len() == 0)
                        &&& forall|k: Seq<u8>|
                            k != name@ ==> #[trigger] cv.contains_key(k) == old_cv.contains_key(k)
                                && (old_cv.contains_key(k) ==> cv[k] == old_cv[k])
                    } else {
                        cv == old_cv.insert(name@, None)
                    },
                }
            }),
    {
        match self {
            MemoryManifestEntry::MemTree { changes, .. } => {
                let is_conflict = match changes.get(&name) {
                    Some(Some(MemoryManifestEntry::Conflict(_))) => true,
                    _ => false,
                };
                let ghost old_entries = changes.entries@;
                let value: Option<MemoryManifestEntry> = if entry.is_none() && is_conflict {
                    Some(fresh_tree())
                } else {
                    match entry {
                        Some(l) => Some(MemoryManifestEntry::Blob(l)),
                        None => None,
                    }
                };
                let ghost valueg = value;
                let ghost ng = name;
                changes.set(name, value);
                proof {
                    let x = (ng, valueg);
                    assert(x.1 == valueg);
                    assert(entries_values_wf(old_entries)) by {
                        assert(match *old(self) {
                            MemoryManifestEntry::MemTree { changes: c0, .. } => c0.entries@
                                == old_entries,
                            _ => false,
                        });
                    }
                    lemma_wf_entries_set(old_entries, changes.entries@, ng@, valueg);
                }
                Ok(())
            },
            _ => Err(MemError::InvalidRoot),
        }
    }
}

impl MemoryRootManifest {
    /// Wrap a tree node, such as the result of a merge, as the root of an
    /// overlay, so that it can be inspected, changed and saved.
    pub fn from_entry(entry: MemoryManifestEntry) -> (r: Result<Self, MemError>)
        requires
            mme_wf(entry),
        ensures
            entry is MemTree ==> (r matches Ok(mr) && mr.spec_root() == entry),
            !(entry is MemTree) ==> r == Err::<MemoryRootManifest, MemError>(MemError::InvalidRoot),
    {
        if entry.is_mem_tree() {
            Ok(MemoryRootManifest { root: entry })
        } else {
            Err(MemError::InvalidRoot)
        }
    }
}


/// The names effective in an override map: those set to an entry, with
/// deletions and unset names left out.
pub open spec fn effective_names(s: Seq<(MPathElement, Option<MemoryManifestEntry>)>) -> Set<
    Seq<u8>,
> {
    Set::new(|k: Seq<u8>| nm_view(s).contains_key(k) && nm_view(s)[k] is Some)
}

/// Merge arithmetic: a merged tree holds exactly one override per name
/// effective on either side, so its entry count is the size of the union
/// of the two sides' effective name sets.
pub proof fn lemma_merge_entry_count(
    ca: Seq<(MPathElement, Option<MemoryManifestEntry>)>,
    cb: Seq<(MPathElement, Option<MemoryManifestEntry>)>,
    rc: Seq<(MPathElement, Option<MemoryManifestEntry>)>,
)
    requires
        nm_unique(rc),
        forall|k: Seq<u8>|
            #[trigger] nm_view(rc).contains_key(k) <==> ((nm_view(ca).contains_key(k) && nm_view(
                ca,
            )[k] is Some) || (nm_view(cb).contains_key(k) && nm_view(cb)[k] is Some)),
    ensures
        effective_names(ca).union(effective_names(cb)).finite(),
        rc.len() == effective_names(ca).union(effective_names(cb)).len(),
{
    crate::namemap::lemma_nm_len(rc);
    assert(nm_view(rc).dom() =~= effective_names(ca).union(effective_names(cb)));
}


/// Finding by name in a unique-named entry list agrees with its map view.
proof fn lemma_manifest_find_is_nm_view(
    v: Seq<(MPathElement, Entry<NodeHash, LeafEntry>)>,
    k: Seq<u8>,
)
    requires
        nm_unique(v),
    ensures
        manifest_find(entries_deep_view(v), k) == if nm_view(v).contains_key(k) {
            Some(nm_view(v)[k])
        } else {
            None::<Entry<NodeHash, LeafEntry>>
        },
    decreases v.len(),
{
    if v.len() == 0 {
        assert(entries_deep_view(v).len() == 0);
    } else {
        assert(entries_deep_view(v).first() == (v.first().0@, v.first().1));
        assert(entries_deep_view(v).drop_first() =~= entries_deep_view(v.drop_first()));
        assert(nm_unique(v.drop_first())) by {
            assert(forall|i: int, j: int|
                0 <= i < j < v.drop_first().len() ==> (#[trigger] v.drop_first()[i].0)@ != (
                #[trigger] v.drop_first()[j].0)@);
        }
        lemma_manifest_find_is_nm_view(v.drop_first(), k);
        if v.first().0@ == k {
            crate::namemap::lemma_nm_present(v, 0);
        } else {
            assert(nm_view(v) == nm_view(v.drop_first()).insert(v.first().0@, v.first().1));
        }
    }
}

/// The first level of one saved directory blob, name by name: an
/// overriding leaf as it is, a deleted name not at all, and an untouched
/// name as the base held it.
pub open spec fn depth1_core(
    m0: Map<Seq<char>, Seq<u8>>,
    m1: Map<Seq<char>, Seq<u8>>,
    base: Option<NodeHash>,
    changes: ChangeMap,
    id: NodeHash,
) -> bool {
    let cv = nm_view(changes.entries@);
    match stored_tree(m1, id) {
        None => false,
        Some(st) => {
            &&& forall|k: Seq<u8>|
                #[trigger] cv.contains_key(k) && (cv[k] matches Some(c) && c matches
                    MemoryManifestEntry::Blob(l)) ==> manifest_find(st, k) == Some(
                    Entry::<NodeHash, LeafEntry>::Leaf(cv[k]->0->Blob_0),
                )
            &&& forall|k: Seq<u8>|
                #[trigger] cv.contains_key(k) && cv[k] is None ==> manifest_find(st, k) is None
            &&& forall|k: Seq<u8>|
                !(#[trigger] cv.contains_key(k)) ==> manifest_find(st, k) == (match base {
                    Some(b) => match stored_tree(m0, b) {
                        Some(bst) => manifest_find(bst, k),
                        None => None::<Entry<NodeHash, LeafEntry>>,
                    },
                    None => None::<Entry<NodeHash, LeafEntry>>,
                })
        },
    }
}

/// What one saved directory blob holds, name by name: its first level as
/// [`depth1_core`] says, an overriding directory kept exactly when its
/// saved form is non-empty, an unmodified one kept under its base id, and
/// a changed one persisted so that its own first level reads back through
/// [`depth1_core`] in turn.
pub open spec fn depth1_saved(
    m0: Map<Seq<char>, Seq<u8>>,
    m1: Map<Seq<char>, Seq<u8>>,
    base: Option<NodeHash>,
    changes: ChangeMap,
    id: NodeHash,
) -> bool {
    let cv = nm_view(changes.entries@);
    match stored_tree(m1, id) {
        None => false,
        Some(st) => {
            &&& depth1_core(m0, m1, base, changes, id)
            &&& forall|k: Seq<u8>|
                #[trigger] cv.contains_key(k) && (cv[k] matches Some(c) && c is MemTree)
                    && entry_bases_stored(m0, cv[k]->0) ==> ((manifest_find(st, k) is Some)
                    == entry_saved_nonempty(m0, cv[k]->0)) && (manifest_find(st, k) is Some
                    ==> manifest_find(st, k)->0 is Tree)
            &&& forall|k: Seq<u8>|
                #[trigger] cv.contains_key(k) && (cv[k] matches Some(c) && c is MemTree)
                    && entry_bases_stored(m0, cv[k]->0) && manifest_find(st, k) is Some ==> {
                    let c = cv[k]->0;
                    &&& (c->MemTree_changes.entries@.len() == 0 ==> manifest_find(st, k) == Some(
                        Entry::<NodeHash, LeafEntry>::Tree(c->MemTree_base_manifest_id->0),
                    ))
                    &&& (c->MemTree_changes.entries@.len() != 0 ==> (manifest_find(st, k) matches
                        Some(Entry::Tree(id2)) && depth1_core(
                        m0,
                        m1,
                        c->MemTree_base_manifest_id,
                        c->MemTree_changes,
                        id2,
                    )))
                }
        },
    }
}


/// A saved first level keeps its reading through any growth of the store
/// that keeps existing keys.
proof fn lemma_depth1_core_grow(
    m0: Map<Seq<char>, Seq<u8>>,
    m1a: Map<Seq<char>, Seq<u8>>,
    m1b: Map<Seq<char>, Seq<u8>>,
    base: Option<NodeHash>,
    changes: ChangeMap,
    id: NodeHash,
)
    requires
        forall|k: Seq<char>|
            #[trigger] m1a.contains_key(k) ==> m1b.contains_key(k) && m1b[k] == m1a[k],
        depth1_core(m0, m1a, base, changes, id),
    ensures
        depth1_core(m0, m1b, base, changes, id),
{
    assert(m1a.contains_key(tree_key_view(id)));
    assert(stored_tree(m1b, id) == stored_tree(m1a, id));
}

/// A saved first level read against a grown store reads the same against
/// the store it grew from, wherever the base was already stored there.
proof fn lemma_depth1_core_port(
    m0: Map<Seq<char>, Seq<u8>>,
    mstep: Map<Seq<char>, Seq<u8>>,
    m1: Map<Seq<char>, Seq<u8>>,
    base: Option<NodeHash>,
    changes: ChangeMap,
    id: NodeHash,
)
    requires
        forall|k: Seq<char>|
            #[trigger] m0.contains_key(k) ==> mstep.contains_key(k) && mstep[k] == m0[k],
        base matches Some(b) ==> stored_tree(m0, b) is Some,
        depth1_core(mstep, m1, base, changes, id),
    ensures
        depth1_core(m0, m1, base, changes, id),
{
    match base {
        Some(b) => {
            assert(m0.contains_key(tree_key_view(b)));
            assert(stored_tree(mstep, b) == stored_tree(m0, b));
        },
        None => {},
    }
}

/// Collected entries, once persisted, give the saved blob its name-by-name
/// reading.
proof fn lemma_collected_implies_depth1(
    m0: Map<Seq<char>, Seq<u8>>,
    m1: Map<Seq<char>, Seq<u8>>,
    base: Option<NodeHash>,
    changes: ChangeMap,
    list: Seq<(MPathElement, Entry<NodeHash, LeafEntry>)>,
    id: NodeHash,
)
    requires
        stored_tree(m1, id) == Some(entries_deep_view(list)),
        nm_unique(list),
        collected_ok(m0, base, changes, list),
        forall|k: Seq<u8>|
            #[trigger] nm_view(changes.entries@).contains_key(k) && (nm_view(
                changes.entries@,
            )[k] matches Some(c) && c is MemTree) && entry_bases_stored(
                m0,
                nm_view(changes.entries@)[k]->0,
            ) && nm_view(list).contains_key(k) ==> {
                let c = nm_view(changes.entries@)[k]->0;
                &&& (c->MemTree_changes.entries@.len() == 0 ==> nm_view(list)[k] == Entry::<
                    NodeHash,
                    LeafEntry,
                >::Tree(c->MemTree_base_manifest_id->0))
                &&& (c->MemTree_changes.entries@.len() != 0 ==> (nm_view(list)[k] matches
                    Entry::Tree(id2) && depth1_core(
                    m0,
                    m1,
                    c->MemTree_base_manifest_id,
                    c->MemTree_changes,
                    id2,
                )))
            },
    ensures
        depth1_saved(m0, m1, base, changes, id),
{
    let cv = nm_view(changes.entries@);
    let vv = nm_view(list);
    let st = entries_deep_view(list);
    assert forall|k: Seq<u8>|
        #[trigger] cv.contains_key(k) && (cv[k] matches Some(c) && c matches
            MemoryManifestEntry::Blob(l)) implies manifest_find(st, k) == Some(
        Entry::<NodeHash, LeafEntry>::Leaf(cv[k]->0->Blob_0),
    ) by {
        lemma_manifest_find_is_nm_view(list, k);
    }
    assert forall|k: Seq<u8>| #[trigger] cv.contains_key(k) && cv[k] is None implies manifest_find(
        st,
        k,
    ) is None by {
        lemma_manifest_find_is_nm_view(list, k);
    }
    assert forall|k: Seq<u8>| !(#[trigger] cv.contains_key(k)) implies manifest_find(st, k) == (
    match base {
        Some(b) => match stored_tree(m0, b) {
            Some(bst) => manifest_find(bst, k),
            None => None::<Entry<NodeHash, LeafEntry>>,
        },
        None => None::<Entry<NodeHash, LeafEntry>>,
    }) by {
        lemma_manifest_find_is_nm_view(list, k);
    }
    assert forall|k: Seq<u8>|
        #[trigger] cv.contains_key(k) && (cv[k] matches Some(c) && c is MemTree)
            && entry_bases_stored(m0, cv[k]->0) implies ((manifest_find(st, k) is Some)
        == entry_saved_nonempty(m0, cv[k]->0)) && (manifest_find(st, k) is Some ==> manifest_find(
        st,
        k,
    )->0 is Tree) by {
        lemma_manifest_find_is_nm_view(list, k);
    }
    assert forall|k: Seq<u8>|
        #[trigger] cv.contains_key(k) && (cv[k] matches Some(c) && c is MemTree)
            && entry_bases_stored(m0, cv[k]->0) && manifest_find(st, k) is Some implies {
        let c = cv[k]->0;
        &&& (c->MemTree_changes.entries@.len() == 0 ==> manifest_find(st, k) == Some(
            Entry::<NodeHash, LeafEntry>::Tree(c->MemTree_base_manifest_id->0),
        ))
        &&& (c->MemTree_changes.entries@.len() != 0 ==> (manifest_find(st, k) matches Some(
            Entry::Tree(id2),
        ) && depth1_core(m0, m1, c->MemTree_base_manifest_id, c->MemTree_changes, id2)))
    } by {
        lemma_manifest_find_is_nm_view(list, k);
    }
    assert(depth1_core(m0, m1, base, changes, id));
}


/// Resolving a path against one override slot: the override when one is
/// set, absence for a deletion.
pub open spec fn opt_find(
    m: Map<Seq<char>, Seq<u8>>,
    v: Option<MemoryManifestEntry>,
    q: Seq<Seq<u8>>,
) -> FindResult {
    match v {
        Some(c) => mem_find(m, c, q),
        None => FindResult::Absent,
    }
}

/// Resolving a path against a directory's pieces: its base and overrides.
/// Merge provenance plays no part in resolution below the node itself.
pub open spec fn dir_find(
    m: Map<Seq<char>, Seq<u8>>,
    base: Option<NodeHash>,
    changes: ChangeMap,
    q: Seq<Seq<u8>>,
) -> FindResult {
    mem_find(
        m,
        MemoryManifestEntry::MemTree { base_manifest_id: base, p1: None, p2: None, changes },
        q,
    )
}

/// Resolving a path against an entry list already in memory.
pub open spec fn list_find(
    m: Map<Seq<char>, Seq<u8>>,
    st: Seq<(Seq<u8>, Entry<NodeHash, LeafEntry>)>,
    q: Seq<Seq<u8>>,
) -> FindResult
    recommends
        q.len() >= 1,
{
    match manifest_find(st, q.first()) {
        None => FindResult::Absent,
        Some(e) => stored_entry_find(m, e, q.drop_first()),
    }
}

/// A leaf found through one store is found through any store that keeps
/// that store's keys.
proof fn lemma_stored_leaf_monotonic(
    m1: Map<Seq<char>, Seq<u8>>,
    m2: Map<Seq<char>, Seq<u8>>,
    e: Entry<NodeHash, LeafEntry>,
    q: Seq<Seq<u8>>,
    l: LeafEntry,
)
    requires
        forall|k: Seq<char>|
            #[trigger] m1.contains_key(k) ==> m2.contains_key(k) && m2[k] == m1[k],
        stored_entry_find(m1, e, q) == FindResult::FoundLeaf(l),
    ensures
        stored_entry_find(m2, e, q) == FindResult::FoundLeaf(l),
    decreases q.len(),
{
    if q.len() > 0 {
        match e {
            Entry::Leaf(_) => {},
            Entry::Tree(id) => {
                assert(m1.contains_key(tree_key_view(id)));
                assert(stored_tree(m2, id) == stored_tree(m1, id));
                match stored_tree(m1, id) {
                    None => {},
                    Some(s) => match manifest_find(s, q.first()) {
                        None => {},
                        Some(child) => {
                            lemma_stored_leaf_monotonic(m1, m2, child, q.drop_first(), l);
                        },
                    },
                }
            },
        }
    }
}


/// A leaf resolved through one store stays resolved through any store
/// that keeps that store's keys.
proof fn lemma_mem_leaf_monotonic(
    m1: Map<Seq<char>, Seq<u8>>,
    m2: Map<Seq<char>, Seq<u8>>,
    node: MemoryManifestEntry,
    q: Seq<Seq<u8>>,
)
    requires
        forall|k: Seq<char>|
            #[trigger] m1.contains_key(k) ==> m2.contains_key(k) && m2[k] == m1[k],
        mem_find(m1, node, q) is FoundLeaf,
    ensures
        mem_find(m2, node, q) == mem_find(m1, node, q),
    decreases q.len(),
{
    if q.len() > 0 {
        match node {
            MemoryManifestEntry::Blob(_) => {},
            MemoryManifestEntry::Conflict(_) => {},
            MemoryManifestEntry::MemTree { base_manifest_id, changes, .. } => {
                let cv = nm_view(changes.entries@);
                if cv.contains_key(q.first()) {
                    match cv[q.first()] {
                        None => {},
                        Some(child) => {
                            lemma_mem_leaf_monotonic(m1, m2, child, q.drop_first());
                        },
                    }
                } else {
                    match base_manifest_id {
                        Some(id) => {
                            let l = mem_find(m1, node, q)->FoundLeaf_0;
                            lemma_stored_leaf_monotonic(m1, m2, Entry::Tree(id), q, l);
                        },
                        None => {},
                    }
                }
            },
        }
    }
}

/// Resolution below a directory reads its base and overrides alone; the
/// recorded merge parents play no part.
proof fn lemma_dir_find_agrees(
    m: Map<Seq<char>, Seq<u8>>,
    node: MemoryManifestEntry,
    q: Seq<Seq<u8>>,
)
    requires
        node is MemTree,
    ensures
        q.len() >= 1 ==> mem_find(m, node, q) == dir_find(
            m,
            node->MemTree_base_manifest_id,
            node->MemTree_changes,
            q,
        ),
{
}

} // verus!
