//! The generic tree model: entries, manifests and their persisted form.
//!
//! A manifest is an ordered mapping from path elements to entries; an entry
//! is either a subtree, addressed by a content-derived [`NodeHash`], or a
//! leaf carrying a file's hash and type. Manifests are persisted as blobs
//! under a key derived from their id; the codec here is canonical, and
//! decoding an encoded entry list is proved to give the list back.

use vstd::prelude::*;

use crate::codec;
use crate::path::{valid_element_bytes, MPathElement};

verus! {

/// The digest seed of the tree blob naming scheme.
pub const TREE_DIGEST_SEED: u64 = 0xcbf29ce484222325;

/// A content-derived identifier of a persisted tree or leaf node.
#[derive(Clone, Copy, PartialEq, Eq, Structural, Debug, Hash)]
pub struct NodeHash(pub u64);

/// The type of a file carried by a leaf entry.
#[derive(Clone, Copy, PartialEq, Eq, Structural, Debug, Hash)]
pub enum FileType {
    Regular,
    Executable,
    Symlink,
}

/// A file leaf of a manifest: the content hash and the file type.
#[derive(Clone, Copy, PartialEq, Eq, Structural, Debug, Hash)]
pub struct LeafEntry {
    pub hash: NodeHash,
    pub file_type: FileType,
}

impl LeafEntry {
    /// A leaf with the given content hash and file type.
    pub fn new(hash: NodeHash, file_type: FileType) -> (r: Self)
        ensures
            r == (LeafEntry { hash, file_type }),
    {
        LeafEntry { hash, file_type }
    }

    /// The content hash of this leaf.
    pub fn get_hash(&self) -> (r: NodeHash)
        ensures
            r == self.hash,
    {
        self.hash
    }
}

/// One child of a manifest: a subtree or a leaf.
#[derive(Clone, Copy, PartialEq, Eq, Structural, Debug, Hash)]
pub enum Entry<T, L> {
    Tree(T),
    Leaf(L),
}

impl<T, L> Entry<T, L> {
    /// The subtree id, `None` for a leaf.
    pub fn into_tree(self) -> (r: Option<T>)
        ensures
            match self {
                Entry::Tree(t) => r == Some(t),
                Entry::Leaf(_) => r is None,
            },
    {
        match self {
            Entry::Tree(tree) => Some(tree),
            _ => None,
        }
    }

    /// The leaf, `None` for a subtree.
    pub fn into_leaf(self) -> (r: Option<L>)
        ensures
            match self {
                Entry::Leaf(l) => r == Some(l),
                Entry::Tree(_) => r is None,
            },
    {
        match self {
            Entry::Leaf(leaf) => Some(leaf),
            _ => None,
        }
    }
}

/// The entry named `name` in an entry list; the first occurrence decides.
pub open spec fn manifest_find<T, L>(s: Seq<(Seq<u8>, Entry<T, L>)>, name: Seq<u8>) -> Option<
    Entry<T, L>,
>
    decreases s.len(),
{
    if s.len() == 0 {
        None
    } else if s.first().0 == name {
        Some(s.first().1)
    } else {
        manifest_find(s.drop_first(), name)
    }
}

/// A tree of persisted entries, loadable from and storable to a blob store.
pub trait Manifest: Sized {
    /// The identifier type of subtrees.
    type TreeId;

    /// The identifier type of leaves.
    type LeafId;

    /// The named entries of this manifest, in directory-entry order.
    spec fn entries_view(&self) -> Seq<(Seq<u8>, Entry<Self::TreeId, Self::LeafId>)>;

    /// Enumerate the entries, in directory-entry order.
    fn list(&self) -> (r: Vec<(MPathElement, Entry<Self::TreeId, Self::LeafId>)>)
        ensures
            r@.len() == self.entries_view().len(),
            forall|i: int|
                0 <= i < r@.len() ==> (#[trigger] r@[i].0)@ == self.entries_view()[i].0 && r@[i].1
                    == self.entries_view()[i].1,
    ;

    /// Look up one child by name.
    fn lookup(&self, name: &MPathElement) -> (r: Option<Entry<Self::TreeId, Self::LeafId>>)
        ensures
            r == manifest_find(self.entries_view(), name@),
    ;
}

/// The deep view of an entry list: each name's bytes with its entry.
pub open spec fn entries_deep_view(s: Seq<(MPathElement, Entry<NodeHash, LeafEntry>)>) -> Seq<
    (Seq<u8>, Entry<NodeHash, LeafEntry>),
> {
    Seq::new(s.len(), |i: int| (s[i].0@, s[i].1))
}

/// The tag byte of an entry: its kind and, for a leaf, the file type.
pub open spec fn entry_tag(e: Entry<NodeHash, LeafEntry>) -> u8 {
    match e {
        Entry::Tree(_) => 0u8,
        Entry::Leaf(l) => match l.file_type {
            FileType::Regular => 1u8,
            FileType::Executable => 2u8,
            FileType::Symlink => 3u8,
        },
    }
}

/// The hash carried by an entry.
pub open spec fn entry_hash(e: Entry<NodeHash, LeafEntry>) -> u64 {
    match e {
        Entry::Tree(t) => t.0,
        Entry::Leaf(l) => l.hash.0,
    }
}

/// The wire form of one named entry: name length, name, tag, hash.
pub open spec fn encode_entry(name: Seq<u8>, e: Entry<NodeHash, LeafEntry>) -> Seq<u8> {
    codec::u32_to_bytes(name.len() as u32) + name + seq![entry_tag(e)] + codec::u64_to_bytes(
        entry_hash(e),
    )
}

/// The wire form of an entry list: the entries in order.
pub open spec fn encode_entries(s: Seq<(Seq<u8>, Entry<NodeHash, LeafEntry>)>) -> Seq<u8>
    decreases s.len(),
{
    if s.len() == 0 {
        Seq::empty()
    } else {
        encode_entry(s.first().0, s.first().1) + encode_entries(s.drop_first())
    }
}

/// True of entry lists the codec accepts: every name a valid element.
pub open spec fn entries_wf(s: Seq<(Seq<u8>, Entry<NodeHash, LeafEntry>)>) -> bool {
    forall|i: int| 0 <= i < s.len() ==> valid_element_bytes((#[trigger] s[i]).0)
}

/// The entry encoded by a tag and hash, `None` for an unknown tag.
pub open spec fn entry_of_tag(tag: u8, hash: u64) -> Option<Entry<NodeHash, LeafEntry>> {
    if tag == 0u8 {
        Some(Entry::Tree(NodeHash(hash)))
    } else if tag == 1u8 {
        Some(Entry::Leaf(LeafEntry { hash: NodeHash(hash), file_type: FileType::Regular }))
    } else if tag == 2u8 {
        Some(Entry::Leaf(LeafEntry { hash: NodeHash(hash), file_type: FileType::Executable }))
    } else if tag == 3u8 {
        Some(Entry::Leaf(LeafEntry { hash: NodeHash(hash), file_type: FileType::Symlink }))
    } else {
        None
    }
}

/// Decode an entry list from its wire form; `None` on any malformed byte.
pub open spec fn decode_entries(bytes: Seq<u8>) -> Option<
    Seq<(Seq<u8>, Entry<NodeHash, LeafEntry>)>,
>
    decreases bytes.len(),
{
    if bytes.len() == 0 {
        Some(Seq::empty())
    } else if bytes.len() < 4 {
        None
    } else {
        let name_len = codec::u32_from_bytes(bytes.subrange(0, 4)) as int;
        if bytes.len() < 4 + name_len + 1 + 8 {
            None
        } else {
            let name = bytes.subrange(4, 4 + name_len);
            if !valid_element_bytes(name) {
                None
            } else {
                let tag = bytes[4 + name_len];
                let hash = codec::u64_from_bytes(
                    bytes.subrange(4 + name_len + 1, 4 + name_len + 9),
                );
                match entry_of_tag(tag, hash) {
                    None => None,
                    Some(e) => {
                        let rest = decode_entries(
                            bytes.subrange(4 + name_len + 9, bytes.len() as int),
                        );
                        match rest {
                            None => None,
                            Some(s) => Some(seq![(name, e)] + s),
                        }
                    },
                }
            }
        }
    }
}

/// Decoding an encoded well-formed entry list gives the list back.
pub proof fn lemma_entries_round_trip(s: Seq<(Seq<u8>, Entry<NodeHash, LeafEntry>)>)
    requires
        entries_wf(s),
    ensures
        decode_entries(encode_entries(s)) == Some(s),
    decreases s.len(),
{
    if s.len() == 0 {
        assert(encode_entries(s) =~= Seq::<u8>::empty());
    } else {
        let name = s.first().0;
        let e = s.first().1;
        let head = encode_entry(name, e);
        let tail = encode_entries(s.drop_first());
        let bytes = encode_entries(s);
        assert(bytes == head + tail);
        assert(valid_element_bytes(name));
        let nl = name.len() as int;
        assert(head.len() == 4 + nl + 1 + 8);
        codec::lemma_u32_bytes_round_trip(name.len() as u32);
        assert(bytes.subrange(0, 4) =~= codec::u32_to_bytes(name.len() as u32));
        assert(codec::u32_from_bytes(bytes.subrange(0, 4)) == name.len() as u32);
        assert(bytes.subrange(4, 4 + nl) =~= name);
        assert(bytes[4 + nl] == entry_tag(e));
        codec::lemma_u64_bytes_round_trip(entry_hash(e));
        assert(bytes.subrange(4 + nl + 1, 4 + nl + 9) =~= codec::u64_to_bytes(entry_hash(e)));
        assert(codec::u64_from_bytes(bytes.subrange(4 + nl + 1, 4 + nl + 9)) == entry_hash(e));
        assert(entry_of_tag(entry_tag(e), entry_hash(e)) == Some(e));
        assert(bytes.subrange(4 + nl + 9, bytes.len() as int) =~= tail);
        assert(forall|i: int|
            0 <= i < s.drop_first().len() ==> valid_element_bytes(
                (#[trigger] s.drop_first()[i]).0,
            ));
        lemma_entries_round_trip(s.drop_first());
        assert(bytes.len() >= 4 + nl + 9);
        assert(decode_entries(bytes) == Some(seq![(name, e)] + s.drop_first()));
        assert(seq![(name, e)] + s.drop_first() =~= s);
    }
}

/// Encode an entry list into its wire form.
pub fn encode_manifest(entries: &Vec<(MPathElement, Entry<NodeHash, LeafEntry>)>) -> (r: Vec<u8>)
    requires
        forall|i: int| 0 <= i < entries@.len() ==> (#[trigger] entries@[i].0).is_valid(),
    ensures
        r@ == encode_entries(entries_deep_view(entries@)),
{
    let ghost dv = entries_deep_view(entries@);
    let mut r: Vec<u8> = Vec::new();
    let mut i: usize = 0;
    proof {
        lemma_encode_entries_take(dv, 0);
        assert(dv.subrange(0, 0) =~= Seq::<(Seq<u8>, Entry<NodeHash, LeafEntry>)>::empty());
        assert(r@ =~= encode_entries(dv.subrange(0, 0)));
    }
    while i < entries.len()
        invariant
            0 <= i <= entries@.len(),
            dv == entries_deep_view(entries@),
            dv.len() == entries@.len(),
            forall|j: int| 0 <= j < entries@.len() ==> (#[trigger] entries@[j].0).is_valid(),
            r@ == encode_entries(dv.subrange(0, i as int)),
        decreases entries@.len() - i,
    {
        let (name, entry) = (&entries[i].0, &entries[i].1);
        let ghost before = r@;
        let name_bytes = name.bytes();
        let mut piece = crate::codec::u32_encode(name_bytes.len() as u32);
        let tag: u8 = match entry {
            Entry::Tree(_) => 0,
            Entry::Leaf(l) => match l.file_type {
                FileType::Regular => 1,
                FileType::Executable => 2,
                FileType::Symlink => 3,
            },
        };
        let hash: u64 = match entry {
            Entry::Tree(t) => t.0,
            Entry::Leaf(l) => l.hash.0,
        };
        let mut hash_bytes = crate::codec::u64_encode(hash);
        let mut k: usize = 0;
        while k < name_bytes.len()
            invariant
                0 <= k <= name_bytes@.len(),
                piece@ == crate::codec::u32_to_bytes(name_bytes@.len() as u32) + name_bytes@
                    .subrange(0, k as int),
            decreases name_bytes@.len() - k,
        {
            piece.push(name_bytes[k]);
            proof {
                assert(piece@ =~= crate::codec::u32_to_bytes(name_bytes@.len() as u32)
                    + name_bytes@.subrange(0, k as int + 1));
            }
            k = k + 1;
        }
        piece.push(tag);
        piece.append(&mut hash_bytes);
        proof {
            assert(name_bytes@.subrange(0, name_bytes@.len() as int) =~= name_bytes@);
            assert(dv[i as int] == (entries@[i as int].0@, entries@[i as int].1));
            assert(piece@ =~= encode_entry(dv[i as int].0, dv[i as int].1));
        }
        r.append(&mut piece);
        proof {
            lemma_encode_entries_snoc(dv, i as int);
            assert(r@ =~= before + encode_entry(dv[i as int].0, dv[i as int].1));
            assert(r@ == encode_entries(dv.subrange(0, i as int + 1)));
        }
        i = i + 1;
    }
    proof {
        assert(dv.subrange(0, dv.len() as int) =~= dv);
    }
    r
}

/// The wire form of a prefix extended by one entry.
proof fn lemma_encode_entries_snoc(s: Seq<(Seq<u8>, Entry<NodeHash, LeafEntry>)>, i: int)
    requires
        0 <= i < s.len(),
    ensures
        encode_entries(s.subrange(0, i + 1)) == encode_entries(s.subrange(0, i)) + encode_entry(
            s[i].0,
            s[i].1,
        ),
    decreases i,
{
    if i == 0 {
        assert(s.subrange(0, 1).first() == s[0]);
        assert(s.subrange(0, 1).drop_first() =~= Seq::<
            (Seq<u8>, Entry<NodeHash, LeafEntry>),
        >::empty());
        assert(s.subrange(0, 0) =~= Seq::<(Seq<u8>, Entry<NodeHash, LeafEntry>)>::empty());
        assert(encode_entries(s.subrange(0, 1)) =~= encode_entries(s.subrange(0, 0))
            + encode_entry(s[0].0, s[0].1));
    } else {
        let t = s.drop_first();
        lemma_encode_entries_snoc(t, i - 1);
        assert(s.subrange(0, i + 1).drop_first() =~= t.subrange(0, i));
        assert(s.subrange(0, i).drop_first() =~= t.subrange(0, i - 1));
        assert(s.subrange(0, i + 1).first() == s[0]);
        assert(s.subrange(0, i).first() == s[0]);
        assert(t.subrange(0, i)[i - 1] == s[i]);
        assert(t[i - 1] == s[i]);
        assert(encode_entries(s.subrange(0, i + 1)) == encode_entry(s[0].0, s[0].1)
            + encode_entries(t.subrange(0, i)));
        assert(encode_entries(s.subrange(0, i)) == encode_entry(s[0].0, s[0].1) + encode_entries(
            t.subrange(0, i - 1),
        ));
        assert(encode_entry(s[0].0, s[0].1) + (encode_entries(t.subrange(0, i - 1)) + encode_entry(
            s[i].0,
            s[i].1,
        )) =~= (encode_entry(s[0].0, s[0].1) + encode_entries(t.subrange(0, i - 1)))
            + encode_entry(s[i].0, s[i].1));
    }
}

/// Helper naming the empty prefix of an encoding.
proof fn lemma_encode_entries_take(s: Seq<(Seq<u8>, Entry<NodeHash, LeafEntry>)>, i: int)
    ensures
        encode_entries(s.subrange(0, 0)) == Seq::<u8>::empty(),
{
    assert(s.subrange(0, 0) =~= Seq::<(Seq<u8>, Entry<NodeHash, LeafEntry>)>::empty());
}

/// A manifest decoded from its persisted form.
pub struct StoredManifest {
    entries: Vec<(MPathElement, Entry<NodeHash, LeafEntry>)>,
}

impl Manifest for StoredManifest {
    type TreeId = NodeHash;

    type LeafId = LeafEntry;

    closed spec fn entries_view(&self) -> Seq<(Seq<u8>, Entry<NodeHash, LeafEntry>)> {
        entries_deep_view(self.entries@)
    }

    fn list(&self) -> (r: Vec<(MPathElement, Entry<NodeHash, LeafEntry>)>) {
        let mut r: Vec<(MPathElement, Entry<NodeHash, LeafEntry>)> = Vec::new();
        let mut i: usize = 0;
        while i < self.entries.len()
            invariant
                0 <= i <= self.entries@.len(),
                r@.len() == i,
                forall|j: int|
                    0 <= j < i ==> (#[trigger] r@[j].0)@ == self.entries@[j].0@ && r@[j].1
                        == self.entries@[j].1,
            decreases self.entries@.len() - i,
        {
            let name = self.entries[i].0.clone();
            let entry = self.entries[i].1;
            r.push((name, entry));
            i = i + 1;
        }
        r
    }

    fn lookup(&self, name: &MPathElement) -> (r: Option<Entry<NodeHash, LeafEntry>>) {
        let ghost dv = entries_deep_view(self.entries@);
        let mut i: usize = 0;
        proof {
            assert(dv.subrange(0, dv.len() as int) =~= dv);
        }
        while i < self.entries.len()
            invariant
                0 <= i <= self.entries@.len(),
                dv == entries_deep_view(self.entries@),
                manifest_find(dv, name@) == manifest_find(
                    dv.subrange(i as int, dv.len() as int),
                    name@,
                ),
        decreases self.entries@.len() - i,
        {
            proof {
                let rest = dv.subrange(i as int, dv.len() as int);
                assert(rest.first() == dv[i as int]);
                assert(rest.drop_first() =~= dv.subrange(i as int + 1, dv.len() as int));
            }
            if self.entries[i].0 == *name {
                return Some(self.entries[i].1);
            }
            i = i + 1;
        }
        proof {
            assert(dv.subrange(dv.len() as int, dv.len() as int) =~= Seq::<
                (Seq<u8>, Entry<NodeHash, LeafEntry>),
            >::empty());
        }
        None
    }
}

impl StoredManifest {
    /// Assemble a manifest from decoded entries.
    pub fn from_entries(entries: Vec<(MPathElement, Entry<NodeHash, LeafEntry>)>) -> (r: Self)
        ensures
            r.entries_view() == entries_deep_view(entries@),
    {
        StoredManifest { entries }
    }

    /// The number of entries.
    pub fn len(&self) -> (r: usize)
        ensures
            r == self.entries_view().len(),
    {
        self.entries.len()
    }
}

/// Decode a manifest blob into its entry list.
///
/// Succeeds exactly when the bytes are a well-formed encoding, and then
/// returns the one entry list the bytes encode.
pub fn decode_manifest(bytes: &Vec<u8>) -> (r: Result<
    Vec<(MPathElement, Entry<NodeHash, LeafEntry>)>,
    (),
>)
    ensures
        match r {
            Ok(entries) => decode_entries(bytes@) == Some(entries_deep_view(entries@)) && forall|
                i: int,
            |
                0 <= i < entries@.len() ==> (#[trigger] entries@[i].0).is_valid(),
            Err(_) => decode_entries(bytes@) is None,
        },
{
    let ghost whole = bytes@;
    let mut out: Vec<(MPathElement, Entry<NodeHash, LeafEntry>)> = Vec::new();
    let mut pos: usize = 0;
    let n = bytes.len();
    proof {
        assert(whole.subrange(0, n as int) =~= whole);
        if decode_entries(whole) is Some {
            let s = decode_entries(whole)->0;
            assert(entries_deep_view(out@) =~= Seq::<(Seq<u8>, Entry<NodeHash, LeafEntry>)>::empty());
            assert(entries_deep_view(out@) + s =~= s);
        }
    }
    while pos < n
        invariant
            0 <= pos <= n,
            n == whole.len(),
            whole == bytes@,
            forall|i: int| 0 <= i < out@.len() ==> (#[trigger] out@[i].0).is_valid(),
            decode_entries(whole) == match decode_entries(
                whole.subrange(pos as int, n as int),
            ) {
                Some(s) => Some(entries_deep_view(out@) + s),
                None => None::<Seq<(Seq<u8>, Entry<NodeHash, LeafEntry>)>>,
            },
        decreases n - pos,
    {
        let ghost rest = whole.subrange(pos as int, n as int);
        if n - pos < 4 {
            return Err(());
        }
        let name_len_u32 = crate::codec::u32_decode(
            vstd::slice::slice_subrange(bytes.as_slice(), pos, pos + 4),
        );
        proof {
            assert(whole.subrange(pos as int, pos as int + 4) =~= rest.subrange(0, 4));
        }
        let name_len = name_len_u32 as usize;
        if name_len > n - pos - 4 || n - pos - 4 - name_len < 9 {
            proof {
                assert(rest.len() < 4 + name_len + 1 + 8);
            }
            return Err(());
        }
        let name_vec = vstd::slice::slice_to_vec(
            vstd::slice::slice_subrange(bytes.as_slice(), pos + 4, pos + 4 + name_len),
        );
        proof {
            assert(whole.subrange(pos as int + 4, pos as int + 4 + name_len as int)
                =~= rest.subrange(4, 4 + name_len as int));
        }
        let name = match MPathElement::new(name_vec) {
            Ok(e) => e,
            Err(_) => {
                return Err(());
            },
        };
        let tag = bytes[pos + 4 + name_len];
        proof {
            assert(whole[pos as int + 4 + name_len as int] == rest[4 + name_len as int]);
        }
        let hash = crate::codec::u64_decode(
            vstd::slice::slice_subrange(
                bytes.as_slice(),
                pos + 4 + name_len + 1,
                pos + 4 + name_len + 9,
            ),
        );
        proof {
            assert(whole.subrange(
                pos as int + 4 + name_len as int + 1,
                pos as int + 4 + name_len as int + 9,
            ) =~= rest.subrange(4 + name_len as int + 1, 4 + name_len as int + 9));
        }
        let entry: Entry<NodeHash, LeafEntry> = if tag == 0 {
            Entry::Tree(NodeHash(hash))
        } else if tag == 1 {
            Entry::Leaf(LeafEntry { hash: NodeHash(hash), file_type: FileType::Regular })
        } else if tag == 2 {
            Entry::Leaf(LeafEntry { hash: NodeHash(hash), file_type: FileType::Executable })
        } else if tag == 3 {
            Entry::Leaf(LeafEntry { hash: NodeHash(hash), file_type: FileType::Symlink })
        } else {
            return Err(());
        };
        let ghost out_before = out@;
        out.push((name, entry));
        proof {
            let nl = name_len as int;
            assert(entry_of_tag(rest[4 + nl], codec::u64_from_bytes(
                rest.subrange(4 + nl + 1, 4 + nl + 9),
            )) == Some(entry));
            assert(rest.subrange(4 + nl + 9, rest.len() as int) =~= whole.subrange(
                pos as int + 4 + nl + 9,
                n as int,
            ));
            assert(decode_entries(rest) == match decode_entries(
                whole.subrange(pos as int + 4 + nl + 9, n as int),
            ) {
                Some(s) => Some(seq![(name@, entry)] + s),
                None => None::<Seq<(Seq<u8>, Entry<NodeHash, LeafEntry>)>>,
            });
            assert(entries_deep_view(out@) =~= entries_deep_view(out_before) + seq![
                (name@, entry),
            ]);
            if decode_entries(whole.subrange(pos as int + 4 + nl + 9, n as int)) is Some {
                let s = decode_entries(whole.subrange(pos as int + 4 + nl + 9, n as int))->0;
                assert((entries_deep_view(out_before) + seq![(name@, entry)]) + s
                    =~= entries_deep_view(out_before) + (seq![(name@, entry)] + s));
            }
        }
        pos = pos + 4 + name_len + 9;
    }
    proof {
        assert(whole.subrange(n as int, n as int) =~= Seq::<u8>::empty());
        assert(decode_entries(Seq::<u8>::empty()) == Some(Seq::<
            (Seq<u8>, Entry<NodeHash, LeafEntry>),
        >::empty()));
        assert(entries_deep_view(out@) + Seq::<(Seq<u8>, Entry<NodeHash, LeafEntry>)>::empty()
            =~= entries_deep_view(out@));
    }
    Ok(out)
}

} // verus!
