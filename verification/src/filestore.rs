//! The chunked, multi-alias content store.
//!
//! File content is stored under a canonical content-derived id with three
//! further content-derived alias schemes. Content at or below the
//! configured chunk size is stored inline; larger content is split into
//! chunks written under per-index keys, with a list blob recording the
//! count. `store` is all-or-nothing from the caller's view: on success
//! every chunk, alias pointer and metadata record is in place; on failure
//! the content must be treated as absent.

use vstd::prelude::*;

use crate::blobstore::{BlobError, Blobstore, FailingBlobstoreError};
use crate::codec;

verus! {

broadcast use vstd::std_specs::vec::group_vec_axioms;

/// The digest seed of the canonical content naming scheme.
pub const CONTENT_DIGEST_SEED: u64 = 0x9e3779b97f4a7c15;

/// The digest seed of the `sha1` alias scheme.
pub const SHA1_DIGEST_SEED: u64 = 0x6a09e667f3bcc908;

/// The digest seed of the `sha256` alias scheme.
pub const SHA256_DIGEST_SEED: u64 = 0xbb67ae8584caa73b;

/// The digest seed of the `gitsha1` alias scheme.
pub const GITSHA1_DIGEST_SEED: u64 = 0x3c6ef372fe94f82b;

/// The canonical content-derived id of a blob of file content.
#[derive(Clone, Copy, PartialEq, Eq, Structural, Debug, Hash)]
pub struct ContentId(pub u64);

/// The `sha1` scheme's content-derived alias.
#[derive(Clone, Copy, PartialEq, Eq, Structural, Debug, Hash)]
pub struct Sha1(pub u64);

/// The `sha256` scheme's content-derived alias.
#[derive(Clone, Copy, PartialEq, Eq, Structural, Debug, Hash)]
pub struct Sha256(pub u64);

/// The `gitsha1` scheme's content-derived alias.
#[derive(Clone, Copy, PartialEq, Eq, Structural, Debug, Hash)]
pub struct GitSha1(pub u64);

/// The canonical id derived from content bytes.
pub open spec fn content_id_of(data: Seq<u8>) -> ContentId {
    ContentId(codec::digest_from(data, CONTENT_DIGEST_SEED))
}

/// The `sha1` alias derived from content bytes.
pub open spec fn sha1_of(data: Seq<u8>) -> Sha1 {
    Sha1(codec::digest_from(data, SHA1_DIGEST_SEED))
}

/// The `sha256` alias derived from content bytes.
pub open spec fn sha256_of(data: Seq<u8>) -> Sha256 {
    Sha256(codec::digest_from(data, SHA256_DIGEST_SEED))
}

/// The `gitsha1` alias derived from content bytes.
pub open spec fn gitsha1_of(data: Seq<u8>) -> GitSha1 {
    GitSha1(codec::digest_from(data, GITSHA1_DIGEST_SEED))
}

/// The key of the content blob of a canonical id.
pub open spec fn content_key_view(id: ContentId) -> Seq<char> {
    "content."@ + codec::u64_hex_seq(id.0)
}

/// The key of chunk `i` of a canonical id's content.
pub open spec fn chunk_key_view(id: ContentId, i: u64) -> Seq<char> {
    "chunk."@ + codec::u64_hex_seq(id.0) + "."@ + codec::u64_hex_seq(i)
}

/// The key of the metadata record of a canonical id.
pub open spec fn meta_key_view(id: ContentId) -> Seq<char> {
    "meta."@ + codec::u64_hex_seq(id.0)
}

/// The key of the `sha1` alias pointer.
pub open spec fn sha1_key_view(a: Sha1) -> Seq<char> {
    "alias.sha1."@ + codec::u64_hex_seq(a.0)
}

/// The key of the `sha256` alias pointer.
pub open spec fn sha256_key_view(a: Sha256) -> Seq<char> {
    "alias.sha256."@ + codec::u64_hex_seq(a.0)
}

/// The key of the `gitsha1` alias pointer.
pub open spec fn gitsha1_key_view(a: GitSha1) -> Seq<char> {
    "alias.gitsha1."@ + codec::u64_hex_seq(a.0)
}

/// Build a key from its literal prefix and a hexadecimal value.
fn hex_key(prefix: &str, value: u64) -> (r: String)
    ensures
        r@ == prefix@ + codec::u64_hex_seq(value),
{
    let mut s = prefix.to_owned();
    let hex = codec::u64_hex(value);
    s.append(hex.as_str());
    s
}

/// The key of the content blob of a canonical id.
pub fn content_key(id: ContentId) -> (r: String)
    ensures
        r@ == content_key_view(id),
{
    hex_key("content.", id.0)
}

/// The key of chunk `i` of a canonical id's content.
pub fn chunk_key(id: ContentId, i: u64) -> (r: String)
    ensures
        r@ == chunk_key_view(id, i),
{
    let mut s = hex_key("chunk.", id.0);
    s.append(".");
    let hex = codec::u64_hex(i);
    s.append(hex.as_str());
    proof {
        assert(s@ =~= chunk_key_view(id, i));
    }
    s
}

/// The key of the metadata record of a canonical id.
pub fn meta_key(id: ContentId) -> (r: String)
    ensures
        r@ == meta_key_view(id),
{
    hex_key("meta.", id.0)
}

/// Key for fetching: the canonical id or any content-derived alias.
#[derive(Clone, Copy, PartialEq, Eq, Structural, Debug)]
pub enum FetchKey {
    Canonical(ContentId),
    Sha1(Sha1),
    Sha256(Sha256),
    GitSha1(GitSha1),
}

/// The blob store key an alias pointer lives under; canonical keys need no
/// pointer.
pub open spec fn fetch_key_view(key: FetchKey) -> Seq<char> {
    match key {
        FetchKey::Canonical(id) => content_key_view(id),
        FetchKey::Sha1(a) => sha1_key_view(a),
        FetchKey::Sha256(a) => sha256_key_view(a),
        FetchKey::GitSha1(a) => gitsha1_key_view(a),
    }
}

impl FetchKey {
    /// The blob store key this fetch key reads first.
    pub fn blobstore_key(&self) -> (r: String)
        ensures
            r@ == fetch_key_view(*self),
    {
        match self {
            FetchKey::Canonical(id) => content_key(*id),
            FetchKey::Sha1(a) => hex_key("alias.sha1.", a.0),
            FetchKey::Sha256(a) => hex_key("alias.sha256.", a.0),
            FetchKey::GitSha1(a) => hex_key("alias.gitsha1.", a.0),
        }
    }
}

/// The persisted record tying a canonical id to its full set of aliases.
#[derive(Clone, Copy, PartialEq, Eq, Structural, Debug)]
pub struct ContentMetadata {
    pub total_size: u64,
    pub content_id: ContentId,
    pub sha1: Sha1,
    pub sha256: Sha256,
    pub git_sha1: GitSha1,
}

/// The wire form of a metadata record: five big-endian fields.
pub open spec fn encode_metadata(md: ContentMetadata) -> Seq<u8> {
    codec::u64_to_bytes(md.total_size) + codec::u64_to_bytes(md.content_id.0) + codec::u64_to_bytes(
        md.sha1.0,
    ) + codec::u64_to_bytes(md.sha256.0) + codec::u64_to_bytes(md.git_sha1.0)
}

/// The metadata record of content bytes: its size and every derived name.
pub open spec fn metadata_of(data: Seq<u8>) -> ContentMetadata {
    ContentMetadata {
        total_size: data.len() as u64,
        content_id: content_id_of(data),
        sha1: sha1_of(data),
        sha256: sha256_of(data),
        git_sha1: gitsha1_of(data),
    }
}

/// Key for storing: the expected size and any identifiers already known.
/// Identifiers not supplied are computed during store; a supplied one that
/// does not match the computed value is an error.
#[derive(Clone, Copy, PartialEq, Eq, Structural, Debug)]
pub struct StoreRequest {
    pub expected_size: u64,
    pub canonical: Option<ContentId>,
    pub sha1: Option<Sha1>,
    pub sha256: Option<Sha256>,
    pub git_sha1: Option<GitSha1>,
}

impl StoreRequest {
    /// A request that supplies the size alone.
    pub fn new(size: u64) -> (r: Self)
        ensures
            r == (StoreRequest {
                expected_size: size,
                canonical: None::<ContentId>,
                sha1: None::<Sha1>,
                sha256: None::<Sha256>,
                git_sha1: None::<GitSha1>,
            }),
    {
        StoreRequest { expected_size: size, canonical: None, sha1: None, sha256: None, git_sha1: None }
    }

    /// A request that also supplies the canonical id.
    pub fn with_canonical(size: u64, canonical: ContentId) -> (r: Self)
        ensures
            r.expected_size == size && r.canonical == Some(canonical) && r.sha1 is None && r.sha256
                is None && r.git_sha1 is None,
    {
        StoreRequest {
            expected_size: size,
            canonical: Some(canonical),
            sha1: None,
            sha256: None,
            git_sha1: None,
        }
    }

    /// A request that also supplies the `sha1` alias.
    pub fn with_sha1(size: u64, sha1: Sha1) -> (r: Self)
        ensures
            r.expected_size == size && r.canonical is None && r.sha1 == Some(sha1) && r.sha256
                is None && r.git_sha1 is None,
    {
        StoreRequest {
            expected_size: size,
            canonical: None,
            sha1: Some(sha1),
            sha256: None,
            git_sha1: None,
        }
    }

    /// A request that also supplies the `sha256` alias.
    pub fn with_sha256(size: u64, sha256: Sha256) -> (r: Self)
        ensures
            r.expected_size == size && r.canonical is None && r.sha1 is None && r.sha256 == Some(
                sha256,
            ) && r.git_sha1 is None,
    {
        StoreRequest {
            expected_size: size,
            canonical: None,
            sha1: None,
            sha256: Some(sha256),
            git_sha1: None,
        }
    }

    /// A request that also supplies the `gitsha1` alias.
    pub fn with_git_sha1(size: u64, git_sha1: GitSha1) -> (r: Self)
        ensures
            r.expected_size == size && r.canonical is None && r.sha1 is None && r.sha256 is None
                && r.git_sha1 == Some(git_sha1),
    {
        StoreRequest {
            expected_size: size,
            canonical: None,
            sha1: None,
            sha256: None,
            git_sha1: Some(git_sha1),
        }
    }
}

/// An error from storing content.
#[derive(Clone, Copy, PartialEq, Eq, Structural, Debug)]
pub enum StoreError {
    /// The streamed bytes did not match the declared size.
    SizeMismatch,
    /// A supplied identifier did not match the computed one.
    HashMismatch,
    /// The underlying blob store failed.
    Blob(BlobError),
}

/// An error from fetching content.
#[derive(Clone, Copy, PartialEq, Eq, Structural, Debug)]
pub enum FetchError {
    /// The underlying blob store failed.
    Blob(BlobError),
    /// A previously validated record is malformed or a chunk after the
    /// first is missing.
    Corrupt,
}

/// Configuration of the chunking policy.
#[derive(Clone, Copy, PartialEq, Eq, Structural, Debug)]
pub struct FilestoreConfig {
    chunk_size: u64,
}

/// The default chunk size: 256 KiB.
pub const DEFAULT_CHUNK_SIZE: u64 = 262144;

impl FilestoreConfig {
    /// A policy with the given chunk size.
    pub fn new(chunk_size: u64) -> (r: Self)
        requires
            0 < chunk_size,
        ensures
            r.spec_chunk_size() == chunk_size,
    {
        FilestoreConfig { chunk_size }
    }

    /// The configured chunk size.
    pub closed spec fn spec_chunk_size(&self) -> u64 {
        self.chunk_size
    }

    /// The configured chunk size.
    pub fn chunk_size(&self) -> (r: u64)
        ensures
            r == self.spec_chunk_size(),
    {
        self.chunk_size
    }
}

impl Default for FilestoreConfig {
    /// The default chunking policy.
    fn default() -> (r: Self)
        ensures
            r.spec_chunk_size() == DEFAULT_CHUNK_SIZE,
    {
        FilestoreConfig { chunk_size: DEFAULT_CHUNK_SIZE }
    }
}

/// The number of chunks content of length `len` splits into.
pub open spec fn chunk_count(len: nat, cs: nat) -> nat
    recommends
        0 < cs,
{
    if len % cs == 0 {
        len / cs
    } else {
        len / cs + 1
    }
}

/// Chunk `i` of content: `cs` bytes from offset `i * cs`, shorter at the
/// end.
pub open spec fn chunk_at(data: Seq<u8>, cs: nat, i: nat) -> Seq<u8>
    recommends
        0 < cs,
        i < chunk_count(data.len(), cs),
{
    data.subrange(
        (i * cs) as int,
        if (i + 1) * cs <= data.len() {
            ((i + 1) * cs) as int
        } else {
            data.len() as int
        },
    )
}

/// True when `m` holds every record of content `data` chunked at `cs`:
/// the inline or chunk-list blob under the canonical key, each chunk, the
/// three alias pointers and the metadata record.
pub open spec fn content_stored(m: Map<Seq<char>, Seq<u8>>, data: Seq<u8>, cs: nat) -> bool {
    let cid = content_id_of(data);
    &&& 0 < cs
    &&& m.contains_key(content_key_view(cid))
    &&& if data.len() <= cs {
        m[content_key_view(cid)] == seq![0u8] + data
    } else {
        &&& m[content_key_view(cid)] == seq![1u8] + codec::u64_to_bytes(
            chunk_count(data.len(), cs) as u64,
        )
        &&& chunk_count(data.len(), cs) <= u64::MAX
        &&& forall|i: nat|
            i < chunk_count(data.len(), cs) ==> m.contains_key(
                #[trigger] chunk_key_view(cid, i as u64),
            ) && m[chunk_key_view(cid, i as u64)] == chunk_at(data, cs, i)
    }
    &&& m.contains_key(sha1_key_view(sha1_of(data))) && m[sha1_key_view(sha1_of(data))]
        == codec::u64_to_bytes(cid.0)
    &&& m.contains_key(sha256_key_view(sha256_of(data))) && m[sha256_key_view(sha256_of(data))]
        == codec::u64_to_bytes(cid.0)
    &&& m.contains_key(gitsha1_key_view(gitsha1_of(data))) && m[gitsha1_key_view(
        gitsha1_of(data),
    )] == codec::u64_to_bytes(cid.0)
    &&& m.contains_key(meta_key_view(cid)) && m[meta_key_view(cid)] == encode_metadata(
        metadata_of(data),
    )
}


/// The set of keys a store of `data` chunked at `cs` writes.
pub open spec fn store_keys(data: Seq<u8>, cs: nat) -> Set<Seq<char>> {
    let cid = content_id_of(data);
    Set::new(
        |k: Seq<char>|
            k == content_key_view(cid) || k == meta_key_view(cid) || k == sha1_key_view(
                sha1_of(data),
            ) || k == sha256_key_view(sha256_of(data)) || k == gitsha1_key_view(gitsha1_of(data))
                || exists|i: nat| i < chunk_count(data.len(), cs) && k == #[trigger] chunk_key_view(
                cid,
                i as u64,
            ),
    )
}

/// The lengths of the six key families; each family has its own length, so
/// keys of different families never collide.
pub proof fn lemma_key_lengths(id: ContentId, i: u64, a1: Sha1, a2: Sha256, a3: GitSha1)
    ensures
        content_key_view(id).len() == 24,
        chunk_key_view(id, i).len() == 39,
        meta_key_view(id).len() == 21,
        sha1_key_view(a1).len() == 27,
        sha256_key_view(a2).len() == 29,
        gitsha1_key_view(a3).len() == 30,
{
    reveal_strlit("content.");
    reveal_strlit("chunk.");
    reveal_strlit("meta.");
    reveal_strlit("alias.sha1.");
    reveal_strlit("alias.sha256.");
    reveal_strlit("alias.gitsha1.");
    reveal_strlit(".");
}

/// Chunk keys of one content are distinct across indices.
pub proof fn lemma_chunk_keys_injective(id: ContentId, i: u64, j: u64)
    requires
        i != j,
    ensures
        chunk_key_view(id, i) != chunk_key_view(id, j),
{
    reveal_strlit("chunk.");
    reveal_strlit(".");
    if chunk_key_view(id, i) == chunk_key_view(id, j) {
        let ki = chunk_key_view(id, i);
        let kj = chunk_key_view(id, j);
        assert(ki.subrange(23, 39) =~= codec::u64_hex_seq(i));
        assert(kj.subrange(23, 39) =~= codec::u64_hex_seq(j));
        codec::lemma_u64_hex_injective(i, j);
    }
}

/// The store of file content: chunking policy over a blob store.
pub struct Filestore {
    config: FilestoreConfig,
}

impl Filestore {
    /// A store with the default chunking policy.
    pub fn new() -> (r: Self)
        ensures
            r.spec_config().spec_chunk_size() == DEFAULT_CHUNK_SIZE,
    {
        Filestore { config: FilestoreConfig { chunk_size: DEFAULT_CHUNK_SIZE } }
    }

    /// A store with the given chunking policy.
    pub fn with_config(config: FilestoreConfig) -> (r: Self)
        ensures
            r.spec_config() == config,
    {
        Filestore { config }
    }

    /// The configured policy.
    pub closed spec fn spec_config(&self) -> FilestoreConfig {
        self.config
    }

    /// Store `data` whole: every chunk, alias pointer and metadata record
    /// lands, or an error is returned and the content must be treated as
    /// not stored.
    ///
    /// Fails with `SizeMismatch` exactly when the declared size is not the
    /// data's length, with `HashMismatch` exactly when a supplied
    /// identifier is not the computed one, and otherwise only when the
    /// underlying store fails.
    pub fn store<B: Blobstore>(&self, store: &mut B, req: &StoreRequest, data: &[u8]) -> (r:
        Result<(), StoreError>)
        requires
            0 < self.spec_config().spec_chunk_size(),
        ensures
            final(store).reliable() == old(store).reliable(),
            final(store).reads_fail() == old(store).reads_fail(),
            r == Err::<(), StoreError>(StoreError::SizeMismatch) <==> req.expected_size
                != data@.len(),
            req.expected_size == data@.len() ==> (r == Err::<(), StoreError>(
                StoreError::HashMismatch,
            ) <==> ((req.canonical matches Some(c) && c != content_id_of(data@)) || (req.sha1
                matches Some(a) && a != sha1_of(data@)) || (req.sha256 matches Some(a) && a
                != sha256_of(data@)) || (req.git_sha1 matches Some(a) && a != gitsha1_of(
                data@,
            )))),
            r is Ok ==> content_stored(
                final(store).contents(),
                data@,
                self.spec_config().spec_chunk_size() as nat,
            ),
            r is Ok ==> req.expected_size == data@.len(),
            old(store).reliable() && req.expected_size == data@.len() && !((req.canonical matches
                Some(c) && c != content_id_of(data@)) || (req.sha1 matches Some(a) && a != sha1_of(
                data@,
            )) || (req.sha256 matches Some(a) && a != sha256_of(data@)) || (req.git_sha1 matches
                Some(a) && a != gitsha1_of(data@))) ==> r is Ok,
            forall|k: Seq<char>|
                #[trigger] old(store).contents().contains_key(k) && !store_keys(
                    data@,
                    self.spec_config().spec_chunk_size() as nat,
                ).contains(k) ==> final(store).contents().contains_key(k)
                    && final(store).contents()[k] == old(store).contents()[k],
            r is Err ==> ({
                let mk = meta_key_view(content_id_of(data@));
                &&& final(store).contents().contains_key(mk) == old(store).contents().contains_key(
                    mk,
                )
                &&& old(store).contents().contains_key(mk) ==> final(store).contents()[mk] == old(
                    store,
                ).contents()[mk]
            }),
    {
        let cs = self.config.chunk_size;
        let ghost csn = cs as nat;
        let len = data.len();
        if (len as u64) != req.expected_size {
            return Err(StoreError::SizeMismatch);
        }
        let cid = ContentId(codec::digest(data, CONTENT_DIGEST_SEED));
        let sha1 = Sha1(codec::digest(data, SHA1_DIGEST_SEED));
        let sha256 = Sha256(codec::digest(data, SHA256_DIGEST_SEED));
        let git_sha1 = GitSha1(codec::digest(data, GITSHA1_DIGEST_SEED));
        match req.canonical {
            Some(c) => if !(c.0 == cid.0) {
                return Err(StoreError::HashMismatch);
            },
            None => {},
        }
        match req.sha1 {
            Some(a) => if !(a.0 == sha1.0) {
                return Err(StoreError::HashMismatch);
            },
            None => {},
        }
        match req.sha256 {
            Some(a) => if !(a.0 == sha256.0) {
                return Err(StoreError::HashMismatch);
            },
            None => {},
        }
        match req.git_sha1 {
            Some(a) => if !(a.0 == git_sha1.0) {
                return Err(StoreError::HashMismatch);
            },
            None => {},
        }
        let ghost keys = store_keys(data@, csn);
        let ghost mk = meta_key_view(content_id_of(data@));
        proof {
            lemma_key_lengths(cid, 0, sha1, sha256, git_sha1);
        }
        // write the content blob (and, for large content, its chunks first)
        if (len as u64) <= cs {
            let mut blob: Vec<u8> = Vec::new();
            blob.push(0u8);
            blob.extend_from_slice(data);
            proof {
                assert(blob@ =~= seq![0u8] + data@);
            }
            match store.put(content_key(cid), blob) {
                Ok(_) => {
                    proof {
                        assert(content_key_view(cid) != mk);
                    }
                },
                Err(e) => {
                    return Err(StoreError::Blob(e));
                },
            }
        } else {
            let csz = cs as usize;
            proof {
                assert(cs < len as u64);
            }
            let mut offset: usize = 0;
            let mut idx: u64 = 0;
            let ghost count = chunk_count(data@.len(), csn);
            proof {
                lemma_chunking(data@.len(), csn, 0);
            }
            while offset < len
                invariant
                    0 < csn,
                    csn == cs,
                    cs < len as u64,
                    len == data@.len(),
                    csz == cs,
                    keys == store_keys(data@, csn),
                    count == chunk_count(data@.len(), csn),
                    cid == content_id_of(data@),
                    sha1 == sha1_of(data@),
                    sha256 == sha256_of(data@),
                    git_sha1 == gitsha1_of(data@),
                    req.expected_size == data@.len(),
                    !((req.canonical matches Some(c) && c != content_id_of(data@)) || (req.sha1
                        matches Some(a) && a != sha1_of(data@)) || (req.sha256 matches Some(a)
                        && a != sha256_of(data@)) || (req.git_sha1 matches Some(a) && a
                        != gitsha1_of(data@))),
                    cs == self.spec_config().spec_chunk_size(),
                    idx < count ==> offset == idx * csn,
                    offset <= len,
                    idx <= count,
                    offset == len <==> idx == count,
                    store.reliable() == old(store).reliable(),
                    store.reads_fail() == old(store).reads_fail(),
                    mk == meta_key_view(content_id_of(data@)),
                    store.contents().contains_key(mk) == old(store).contents().contains_key(mk),
                    old(store).contents().contains_key(mk) ==> store.contents()[mk] == old(
                        store,
                    ).contents()[mk],
                    forall|i: nat|
                        i < idx ==> store.contents().contains_key(
                            #[trigger] chunk_key_view(content_id_of(data@), i as u64),
                        ) && store.contents()[chunk_key_view(content_id_of(data@), i as u64)]
                            == chunk_at(data@, csn, i),
                    forall|k: Seq<char>|
                        #[trigger] old(store).contents().contains_key(k) && !keys.contains(k)
                            ==> store.contents().contains_key(k) && store.contents()[k] == old(
                            store,
                        ).contents()[k],
                decreases len - offset,
            {
                let remaining = len - offset;
                let end = if remaining > csz {
                    offset + csz
                } else {
                    len
                };
                let chunk = vstd::slice::slice_to_vec(
                    vstd::slice::slice_subrange(data, offset, end),
                );
                proof {
                    lemma_chunking(data@.len(), csn, idx as nat);
                    assert(chunk@ =~= chunk_at(data@, csn, idx as nat));
                    assert(keys.contains(chunk_key_view(content_id_of(data@), idx))) by {
                        assert((idx as nat) < count && chunk_key_view(content_id_of(data@), idx)
                            == chunk_key_view(content_id_of(data@), (idx as nat) as u64));
                    }
                }
                match store.put(chunk_key(cid, idx), chunk) {
                    Ok(_) => {
                        proof {
                            lemma_key_lengths(cid, idx, sha1, sha256, git_sha1);
                            assert(chunk_key_view(cid, idx) != mk);
                        }
                    },
                    Err(e) => {
                        return Err(StoreError::Blob(e));
                    },
                }
                proof {
                    assert forall|i: nat| i < idx + 1 implies store.contents().contains_key(
                        #[trigger] chunk_key_view(content_id_of(data@), i as u64),
                    ) && store.contents()[chunk_key_view(content_id_of(data@), i as u64)]
                        == chunk_at(data@, csn, i) by {
                        if i < idx as nat {
                            lemma_chunk_keys_injective(content_id_of(data@), i as u64, idx);
                        } else {
                            assert(i == idx as nat);
                            assert(i as u64 == idx);
                        }
                    }
                    lemma_chunking(data@.len(), csn, idx as nat);
                    lemma_chunking(data@.len(), csn, idx as nat + 1);
                }
                offset = end;
                idx = idx + 1;
            }
            let mut blob: Vec<u8> = Vec::new();
            blob.push(1u8);
            let mut count_bytes = codec::u64_encode(idx);
            blob.append(&mut count_bytes);
            proof {
                assert(blob@ =~= seq![1u8] + codec::u64_to_bytes(count as u64));
                assert(count <= u64::MAX);
            }
            match store.put(content_key(cid), blob) {
                Ok(_) => {
                    proof {
                        assert(content_key_view(cid) != mk);
                    }
                },
                Err(e) => {
                    return Err(StoreError::Blob(e));
                },
            }
            proof {
                lemma_key_lengths(cid, 0, sha1, sha256, git_sha1);
                assert forall|i: nat| i < count implies store.contents().contains_key(
                    #[trigger] chunk_key_view(content_id_of(data@), i as u64),
                ) && store.contents()[chunk_key_view(content_id_of(data@), i as u64)] == chunk_at(
                    data@,
                    csn,
                    i,
                ) by {
                    lemma_key_lengths(content_id_of(data@), i as u64, sha1, sha256, git_sha1);
                }
            }
        }
        // then the alias pointers, then the metadata record
        let alias_blob = codec::u64_encode(cid.0);
        match store.put(hex_key("alias.sha1.", sha1.0), alias_blob) {
            Ok(_) => {
                proof {
                    assert(sha1_key_view(sha1) != mk);
                }
            },
            Err(e) => {
                return Err(StoreError::Blob(e));
            },
        }
        let alias_blob = codec::u64_encode(cid.0);
        match store.put(hex_key("alias.sha256.", sha256.0), alias_blob) {
            Ok(_) => {
                proof {
                    assert(sha256_key_view(sha256) != mk);
                }
            },
            Err(e) => {
                return Err(StoreError::Blob(e));
            },
        }
        let alias_blob = codec::u64_encode(cid.0);
        match store.put(hex_key("alias.gitsha1.", git_sha1.0), alias_blob) {
            Ok(_) => {
                proof {
                    assert(gitsha1_key_view(git_sha1) != mk);
                }
            },
            Err(e) => {
                return Err(StoreError::Blob(e));
            },
        }
        let mut md: Vec<u8> = codec::u64_encode(len as u64);
        let mut f = codec::u64_encode(cid.0);
        md.append(&mut f);
        let mut f = codec::u64_encode(sha1.0);
        md.append(&mut f);
        let mut f = codec::u64_encode(sha256.0);
        md.append(&mut f);
        let mut f = codec::u64_encode(git_sha1.0);
        md.append(&mut f);
        proof {
            assert(md@ =~= encode_metadata(metadata_of(data@)));
            lemma_key_lengths(cid, 0, sha1, sha256, git_sha1);
        }
        match store.put(meta_key(cid), md) {
            Ok(_) => {},
            Err(e) => {
                return Err(StoreError::Blob(e));
            },
        }
        proof {
            assert forall|i: nat|
                data@.len() > csn && i < chunk_count(data@.len(), csn) implies store.contents()
                .contains_key(#[trigger] chunk_key_view(content_id_of(data@), i as u64))
                && store.contents()[chunk_key_view(content_id_of(data@), i as u64)] == chunk_at(
                data@,
                csn,
                i,
            ) by {
                lemma_key_lengths(content_id_of(data@), i as u64, sha1, sha256, git_sha1);
            }
        }
        Ok(())
    }
}

/// Arithmetic of the chunking policy: where chunk `i` starts and ends,
/// and how the final chunk decides the count.
pub proof fn lemma_chunking(len: nat, cs: nat, i: nat)
    requires
        0 < cs,
    ensures
        0 < len ==> 1 <= chunk_count(len, cs),
        chunk_count(len, cs) <= len,
        i < chunk_count(len, cs) ==> i * cs < len,
        i * cs < len && len <= i * cs + cs ==> chunk_count(len, cs) == i + 1,
        i * cs + cs < len ==> i + 1 < chunk_count(len, cs),
        (i + 1) * cs == i * cs + cs,
{
    let q = len / cs;
    let r = len % cs;
    vstd::arithmetic::div_mod::lemma_fundamental_div_mod(len as int, cs as int);
    vstd::arithmetic::div_mod::lemma_mod_bound(len as int, cs as int);
    vstd::arithmetic::div_mod::lemma_div_pos_is_pos(len as int, cs as int);
    assert(len == cs * q + r);
    assert((i + 1) * cs == i * cs + cs) by (nonlinear_arith);
    assert(q * cs <= len) by (nonlinear_arith)
        requires
            len == cs * q + r,
            r >= 0,
    ;
    assert(q <= q * cs) by (nonlinear_arith)
        requires
            cs >= 1,
            q >= 0,
    ;
    if r == 0 {
        assert(chunk_count(len, cs) == q);
    } else {
        assert(chunk_count(len, cs) == q + 1);
        assert(q * cs <= len - 1) by (nonlinear_arith)
            requires
                len == cs * q + r,
                r >= 1,
        ;
    }
    if 0 < len {
        if q == 0 && r == 0 {
            assert(len == 0) by (nonlinear_arith)
                requires
                    len == cs * q + r,
                    q == 0,
                    r == 0,
            ;
        }
    }
    if i < chunk_count(len, cs) {
        assert(i * cs < len) by (nonlinear_arith)
            requires
                len == cs * q + r,
                0 <= r < cs,
                0 < cs,
                (r == 0 && i < q) || (r > 0 && i < q + 1),
        ;
    }
    if i * cs < len && len <= i * cs + cs {
        if len == i * cs + cs {
            vstd::arithmetic::div_mod::lemma_fundamental_div_mod_converse(
                len as int,
                cs as int,
                i as int + 1,
                0,
            );
        } else {
            vstd::arithmetic::div_mod::lemma_fundamental_div_mod_converse(
                len as int,
                cs as int,
                i as int,
                len as int - i as int * cs as int,
            );
        }
    }
    if i * cs + cs < len {
        assert(i + 1 < chunk_count(len, cs)) by (nonlinear_arith)
            requires
                len == cs * q + r,
                0 <= r < cs,
                0 < cs,
                i * cs + cs < len,
                chunk_count(len, cs) == if r == 0 {
                    q
                } else {
                    q + 1
                },
        ;
    }
}


/// True when a fetch of `cid` legitimately reports absence: the content
/// blob is missing, or the content is chunked into at least one chunk and
/// the first chunk blob is missing. A malformed record, or a chunk missing
/// after the first, is never absence.
pub open spec fn content_absent(m: Map<Seq<char>, Seq<u8>>, cid: ContentId) -> bool {
    ||| !m.contains_key(content_key_view(cid))
    ||| {
        let blob = m[content_key_view(cid)];
        &&& blob.len() == 9
        &&& blob[0] == 1u8
        &&& codec::u64_from_bytes(blob.drop_first()) > 0
        &&& !m.contains_key(chunk_key_view(cid, 0))
    }
}

/// True when `chunks` is exactly what the store holds for `cid`: the
/// content blob exists, is well-formed, and the chunks follow it.
pub open spec fn fetch_chunks_ok(
    m: Map<Seq<char>, Seq<u8>>,
    cid: ContentId,
    chunks: Seq<Seq<u8>>,
) -> bool {
    &&& m.contains_key(content_key_view(cid))
    &&& {
        let blob = m[content_key_view(cid)];
        &&& blob.len() >= 1
        &&& (blob[0] == 0u8 || blob[0] == 1u8)
        &&& (blob[0] == 0u8 ==> chunks == if blob.len() == 1 {
            Seq::<Seq<u8>>::empty()
        } else {
            seq![blob.drop_first()]
        })
        &&& (blob[0] == 1u8 ==> blob.len() == 9 && chunks.len() == codec::u64_from_bytes(
            blob.drop_first(),
        ) && forall|i: int|
            0 <= i < chunks.len() ==> m.contains_key(
                #[trigger] chunk_key_view(cid, i as u64),
            ) && chunks[i] == m[chunk_key_view(cid, i as u64)] && chunks[i].len() > 0)
    }
}

/// The concatenation of a chunk list.
pub open spec fn concat_chunks(chunks: Seq<Seq<u8>>) -> Seq<u8>
    decreases chunks.len(),
{
    if chunks.len() == 0 {
        Seq::empty()
    } else {
        chunks.first() + concat_chunks(chunks.drop_first())
    }
}

/// Appending one chunk appends its bytes to the concatenation.
proof fn lemma_concat_chunks_push(s: Seq<Seq<u8>>, x: Seq<u8>)
    ensures
        concat_chunks(s.push(x)) == concat_chunks(s) + x,
    decreases s.len(),
{
    if s.len() == 0 {
        assert(s.push(x).first() == x);
        assert(s.push(x).drop_first() =~= Seq::<Seq<u8>>::empty());
        assert(concat_chunks(Seq::<Seq<u8>>::empty()) == Seq::<u8>::empty());
        assert(concat_chunks(s.push(x)) == x + Seq::<u8>::empty());
        assert(concat_chunks(s.push(x)) =~= concat_chunks(s) + x);
    } else {
        lemma_concat_chunks_push(s.drop_first(), x);
        assert(s.push(x).first() == s.first());
        assert(s.push(x).drop_first() =~= s.drop_first().push(x));
        assert(concat_chunks(s.push(x)) =~= concat_chunks(s) + x);
    }
}

/// The canonical id a fetch key resolves to through the store `m`: the id
/// itself for a canonical key, the id a well-formed alias pointer names,
/// and nothing for an absent or malformed pointer.
pub open spec fn resolved_canonical(m: Map<Seq<char>, Seq<u8>>, key: FetchKey) -> Option<
    ContentId,
> {
    match key {
        FetchKey::Canonical(c) => Some(c),
        _ => {
            let ak = fetch_key_view(key);
            if m.contains_key(ak) && m[ak].len() == 8 {
                Some(ContentId(codec::u64_from_bytes(m[ak])))
            } else {
                None
            }
        },
    }
}

/// An error of re-chunking content.
#[derive(Clone, Copy, PartialEq, Eq, Structural, Debug)]
pub enum ErrorKind {
    /// No content lives under the canonical id.
    ContentNotFound(ContentId),
    /// Reading the existing content failed.
    Fetch(FetchError),
    /// Writing the re-chunked content failed.
    Store(StoreError),
}

impl Filestore {
    /// The canonical id a fetch key resolves to: the id itself for a
    /// canonical key, the id the alias pointer blob names for an alias.
    /// `Ok(None)` means no content is known under the alias.
    pub fn get_canonical_id<B: Blobstore>(&self, store: &B, key: &FetchKey) -> (r: Result<
        Option<ContentId>,
        FetchError,
    >)
        ensures
            ({
                let m = store.contents();
                match *key {
                    FetchKey::Canonical(c) => r == Ok::<Option<ContentId>, FetchError>(Some(c)),
                    _ => {
                        let ak = fetch_key_view(*key);
                        match r {
                            Ok(Some(c)) => m.contains_key(ak) && m[ak].len() == 8 && c.0
                                == codec::u64_from_bytes(m[ak]),
                            Ok(None) => !m.contains_key(ak),
                            Err(FetchError::Corrupt) => m.contains_key(ak) && m[ak].len() != 8,
                            Err(FetchError::Blob(_)) => true,
                        }
                    },
                }
            }),
            store.reads_fail() && !(*key is Canonical) ==> r == Err::<
                Option<ContentId>,
                FetchError,
            >(FetchError::Blob(BlobError::Injected(FailingBlobstoreError))),
            store.reliable() ==> !(r matches Err(FetchError::Blob(_))),
            store.reliable() && !(store.contents().contains_key(fetch_key_view(*key))
                && store.contents()[fetch_key_view(*key)].len() != 8 && !(*key is Canonical))
                ==> r is Ok,
    {
        match key {
            FetchKey::Canonical(c) => Ok(Some(*c)),
            _ => {
                let k = key.blobstore_key();
                match store.get(&k) {
                    Err(e) => Err(FetchError::Blob(e)),
                    Ok(None) => Ok(None),
                    Ok(Some(v)) => {
                        if v.len() == 8 {
                            let id = codec::u64_decode(v.as_slice());
                            Ok(Some(ContentId(id)))
                        } else {
                            Err(FetchError::Corrupt)
                        }
                    },
                }
            },
        }
    }

    /// Fetch the chunks stored for a canonical id: `Ok(None)` when the
    /// content blob, or the first chunk of chunked content, is absent; a
    /// missing later chunk or any malformed record is a hard error.
    pub fn fetch_by_id<B: Blobstore>(&self, store: &B, cid: ContentId) -> (r: Result<
        Option<Vec<Vec<u8>>>,
        FetchError,
    >)
        ensures
            ({
                let m = store.contents();
                match r {
                    Ok(Some(chunks)) => fetch_chunks_ok(
                        m,
                        cid,
                        Seq::new(chunks@.len(), |i: int| chunks@[i]@),
                    ),
                    Ok(None) => content_absent(m, cid),
                    Err(FetchError::Blob(_)) => true,
                    Err(FetchError::Corrupt) => true,
                }
            }),
            store.reads_fail() ==> r == Err::<Option<Vec<Vec<u8>>>, FetchError>(
                FetchError::Blob(BlobError::Injected(FailingBlobstoreError)),
            ),
            ({
                let m = store.contents();
                store.reliable() && (exists|chunks: Seq<Seq<u8>>|
                    fetch_chunks_ok(m, cid, chunks)) ==> r matches Ok(Some(_))
            }),
            store.reliable() && content_absent(store.contents(), cid) ==> r == Ok::<
                Option<Vec<Vec<u8>>>,
                FetchError,
            >(None),
    {
        let ghost m = store.contents();
        let ckey = content_key(cid);
        let blob = match store.get(&ckey) {
            Err(e) => {
                return Err(FetchError::Blob(e));
            },
            Ok(None) => {
                proof {
                    if exists|chunks: Seq<Seq<u8>>| fetch_chunks_ok(m, cid, chunks) {
                        let w = choose|chunks: Seq<Seq<u8>>| fetch_chunks_ok(m, cid, chunks);
                        assert(m.contains_key(content_key_view(cid)));
                    }
                }
                return Ok(None);
            },
            Ok(Some(b)) => b,
        };
        if blob.len() == 0 {
            proof {
                if exists|chunks: Seq<Seq<u8>>| fetch_chunks_ok(m, cid, chunks) {
                    let w = choose|chunks: Seq<Seq<u8>>| fetch_chunks_ok(m, cid, chunks);
                }
            }
            return Err(FetchError::Corrupt);
        }
        let tag = blob[0];
        if tag == 0 {
            let mut chunks: Vec<Vec<u8>> = Vec::new();
            if blob.len() > 1 {
                let body = vstd::slice::slice_to_vec(
                    vstd::slice::slice_subrange(blob.as_slice(), 1, blob.len()),
                );
                proof {
                    assert(body@ =~= m[content_key_view(cid)].drop_first());
                }
                chunks.push(body);
            }
            proof {
                let cv = Seq::new(chunks@.len(), |i: int| chunks@[i]@);
                if blob@.len() == 1 {
                    assert(cv =~= Seq::<Seq<u8>>::empty());
                } else {
                    assert(cv =~= seq![m[content_key_view(cid)].drop_first()]);
                }
            }
            return Ok(Some(chunks));
        }
        if tag != 1 || blob.len() != 9 {
            proof {
                if exists|chunks: Seq<Seq<u8>>| fetch_chunks_ok(m, cid, chunks) {
                    let w = choose|chunks: Seq<Seq<u8>>| fetch_chunks_ok(m, cid, chunks);
                }
            }
            return Err(FetchError::Corrupt);
        }
        let count = codec::u64_decode(vstd::slice::slice_subrange(blob.as_slice(), 1, 9));
        proof {
            assert(blob@.subrange(1, 9) =~= m[content_key_view(cid)].drop_first());
        }
        let mut chunks: Vec<Vec<u8>> = Vec::new();
        let mut i: u64 = 0;
        while i < count
            invariant
                0 <= i <= count,
                m == store.contents(),
                chunks@.len() == i,
                count == codec::u64_from_bytes(m[content_key_view(cid)].drop_first()),
                m.contains_key(content_key_view(cid)),
                m[content_key_view(cid)].len() == 9,
                m[content_key_view(cid)][0] == 1u8,
                forall|j: int|
                    0 <= j < i ==> m.contains_key(#[trigger] chunk_key_view(cid, j as u64))
                        && chunks@[j]@ == m[chunk_key_view(cid, j as u64)] && chunks@[j]@.len()
                        > 0,
            decreases count - i,
        {
            let kk = chunk_key(cid, i);
            match store.get(&kk) {
                Err(e) => {
                    return Err(FetchError::Blob(e));
                },
                Ok(None) => {
                    proof {
                        if exists|cw: Seq<Seq<u8>>| fetch_chunks_ok(m, cid, cw) {
                            let w = choose|cw: Seq<Seq<u8>>| fetch_chunks_ok(m, cid, cw);
                            assert(w.len() == count);
                            assert(m.contains_key(chunk_key_view(cid, (i as int) as u64)));
                        }
                    }
                    if i == 0 {
                        return Ok(None);
                    }
                    proof {
                        let j0: int = 0;
                        assert(m.contains_key(chunk_key_view(cid, j0 as u64)));
                        assert(m.contains_key(chunk_key_view(cid, 0u64)));
                    }
                    return Err(FetchError::Corrupt);
                },
                Ok(Some(c)) => {
                    if c.len() == 0 {
                        proof {
                            if exists|cw: Seq<Seq<u8>>| fetch_chunks_ok(m, cid, cw) {
                                let w = choose|cw: Seq<Seq<u8>>| fetch_chunks_ok(m, cid, cw);
                                assert(w.len() == count);
                                assert(w[i as int] == m[chunk_key_view(cid, (i as int) as u64)]);
                            }
                            if i == 0 {
                                assert(m.contains_key(chunk_key_view(cid, 0u64)));
                            } else {
                                let j0: int = 0;
                                assert(m.contains_key(chunk_key_view(cid, j0 as u64)));
                                assert(m.contains_key(chunk_key_view(cid, 0u64)));
                            }
                        }
                        return Err(FetchError::Corrupt);
                    }
                    chunks.push(c);
                },
            }
            i = i + 1;
        }
        proof {
            let cv = Seq::new(chunks@.len(), |j: int| chunks@[j]@);
            assert forall|j: int| 0 <= j < cv.len() implies m.contains_key(
                #[trigger] chunk_key_view(cid, j as u64),
            ) && cv[j] == m[chunk_key_view(cid, j as u64)] && cv[j].len() > 0 by {
                assert(chunks@[j]@ == m[chunk_key_view(cid, j as u64)]);
            }
            if codec::u64_from_bytes(m[content_key_view(cid)].drop_first()) > 0 {
                let j0: int = 0;
                assert(m.contains_key(chunk_key_view(cid, j0 as u64)));
                assert(m.contains_key(chunk_key_view(cid, 0u64)));
            }
        }
        Ok(Some(chunks))
    }

    /// Fetch content by any of its keys: the chunks as stored, `Ok(None)`
    /// when nothing is known under the key.
    pub fn fetch<B: Blobstore>(&self, store: &B, key: &FetchKey) -> (r: Result<
        Option<Vec<Vec<u8>>>,
        FetchError,
    >)
        ensures
            ({
                let m = store.contents();
                r matches Ok(Some(chunks)) ==> match *key {
                    FetchKey::Canonical(c) => fetch_chunks_ok(
                        m,
                        c,
                        Seq::new(chunks@.len(), |i: int| chunks@[i]@),
                    ),
                    _ => {
                        let ak = fetch_key_view(*key);
                        &&& m.contains_key(ak)
                        &&& m[ak].len() == 8
                        &&& fetch_chunks_ok(
                            m,
                            ContentId(codec::u64_from_bytes(m[ak])),
                            Seq::new(chunks@.len(), |i: int| chunks@[i]@),
                        )
                    },
                }
            }),
            ({
                let m = store.contents();
                r matches Ok(None) ==> match *key {
                    FetchKey::Canonical(c) => content_absent(m, c),
                    _ => {
                        let ak = fetch_key_view(*key);
                        !m.contains_key(ak) || (m[ak].len() == 8 && content_absent(
                            m,
                            ContentId(codec::u64_from_bytes(m[ak])),
                        ))
                    },
                }
            }),
            store.reads_fail() ==> r == Err::<Option<Vec<Vec<u8>>>, FetchError>(
                FetchError::Blob(BlobError::Injected(FailingBlobstoreError)),
            ),
            ({
                let m = store.contents();
                store.reliable() && (*key matches FetchKey::Canonical(c) && exists|
                    chunks: Seq<Seq<u8>>,
                |
                    fetch_chunks_ok(m, c, chunks)) ==> r matches Ok(Some(_))
            }),
            ({
                let m = store.contents();
                let ak = fetch_key_view(*key);
                store.reliable() && !(*key is Canonical) && m.contains_key(ak) && m[ak].len() == 8
                    && (exists|chunks: Seq<Seq<u8>>|
                    fetch_chunks_ok(m, ContentId(codec::u64_from_bytes(m[ak])), chunks)) ==> r
                    matches Ok(Some(_))
            }),
    {
        let resolved = match self.get_canonical_id(store, key) {
            Err(e) => {
                return Err(e);
            },
            Ok(None) => {
                return Ok(None);
            },
            Ok(Some(c)) => c,
        };
        self.fetch_by_id(store, resolved)
    }

    /// Report whether content is known and present under a key: a failed
    /// alias resolution is absence, not an error.
    pub fn content_exists<B: Blobstore>(&self, store: &B, key: &FetchKey) -> (r: Result<
        bool,
        FetchError,
    >)
        ensures
            ({
                let m = store.contents();
                match r {
                    Ok(true) => match *key {
                        FetchKey::Canonical(c) => m.contains_key(content_key_view(c)),
                        _ => {
                            let ak = fetch_key_view(*key);
                            m.contains_key(ak) && m[ak].len() == 8 && m.contains_key(
                                content_key_view(ContentId(codec::u64_from_bytes(m[ak]))),
                            )
                        },
                    },
                    Ok(false) => true,
                    Err(FetchError::Blob(_)) => true,
                    Err(FetchError::Corrupt) => false,
                }
            }),
            store.reads_fail() ==> r == Err::<bool, FetchError>(
                FetchError::Blob(BlobError::Injected(FailingBlobstoreError)),
            ),
            store.reliable() ==> r is Ok,
            ({
                let m = store.contents();
                store.reliable() ==> r == Ok::<bool, FetchError>(
                    match *key {
                        FetchKey::Canonical(c) => m.contains_key(content_key_view(c)),
                        _ => {
                            let ak = fetch_key_view(*key);
                            m.contains_key(ak) && m[ak].len() == 8 && m.contains_key(
                                content_key_view(ContentId(codec::u64_from_bytes(m[ak]))),
                            )
                        },
                    },
                )
            }),
    {
        let resolved = match self.get_canonical_id(store, key) {
            Err(FetchError::Corrupt) => {
                return Ok(false);
            },
            Err(e) => {
                return Err(e);
            },
            Ok(None) => {
                return Ok(false);
            },
            Ok(Some(c)) => c,
        };
        let ckey = content_key(resolved);
        match store.is_present(&ckey) {
            Err(e) => Err(FetchError::Blob(e)),
            Ok(b) => Ok(b),
        }
    }

    /// The full alias record of the content a key names, `Ok(None)` when
    /// the key or its metadata record is unknown.
    pub fn get_aliases<B: Blobstore>(&self, store: &B, key: &FetchKey) -> (r: Result<
        Option<ContentMetadata>,
        FetchError,
    >)
        ensures
            ({
                let m = store.contents();
                r matches Ok(Some(md)) ==> m.contains_key(meta_key_view(md.content_id))
                    && m[meta_key_view(md.content_id)] == encode_metadata(md) && match *key {
                    FetchKey::Canonical(c) => md.content_id == c,
                    _ => true,
                }
            }),
            ({
                let m = store.contents();
                r matches Ok(None) ==> match *key {
                    FetchKey::Canonical(c) => !m.contains_key(meta_key_view(c)),
                    _ => {
                        let ak = fetch_key_view(*key);
                        !m.contains_key(ak) || (m[ak].len() == 8 && !m.contains_key(
                            meta_key_view(ContentId(codec::u64_from_bytes(m[ak]))),
                        ))
                    },
                }
            }),
            store.reliable() ==> !(r matches Err(FetchError::Blob(_))),
            ({
                let m = store.contents();
                match resolved_canonical(m, *key) {
                    Some(c) => store.reliable() && m.contains_key(meta_key_view(c))
                        && m[meta_key_view(c)].len() == 40 && codec::u64_from_bytes(
                        m[meta_key_view(c)].subrange(8, 16),
                    ) == c.0 ==> (r matches Ok(Some(md)) && encode_metadata(md) == m[meta_key_view(
                        c,
                    )] && md.content_id == c),
                    None => true,
                }
            }),
            store.reads_fail() ==> r == Err::<Option<ContentMetadata>, FetchError>(
                FetchError::Blob(BlobError::Injected(FailingBlobstoreError)),
            ),
    {
        let ghost m = store.contents();
        let resolved = match self.get_canonical_id(store, key) {
            Err(e) => {
                return Err(e);
            },
            Ok(None) => {
                return Ok(None);
            },
            Ok(Some(c)) => c,
        };
        let mkey = meta_key(resolved);
        let blob = match store.get(&mkey) {
            Err(e) => {
                return Err(FetchError::Blob(e));
            },
            Ok(None) => {
                return Ok(None);
            },
            Ok(Some(v)) => v,
        };
        if blob.len() != 40 {
            return Err(FetchError::Corrupt);
        }
        let total_size = codec::u64_decode(vstd::slice::slice_subrange(blob.as_slice(), 0, 8));
        let cid = codec::u64_decode(vstd::slice::slice_subrange(blob.as_slice(), 8, 16));
        let sha1 = codec::u64_decode(vstd::slice::slice_subrange(blob.as_slice(), 16, 24));
        let sha256 = codec::u64_decode(vstd::slice::slice_subrange(blob.as_slice(), 24, 32));
        let git_sha1 = codec::u64_decode(vstd::slice::slice_subrange(blob.as_slice(), 32, 40));
        if !(cid == resolved.0) {
            return Err(FetchError::Corrupt);
        }
        let md = ContentMetadata {
            total_size,
            content_id: ContentId(cid),
            sha1: Sha1(sha1),
            sha256: Sha256(sha256),
            git_sha1: GitSha1(git_sha1),
        };
        proof {
            let bv = m[meta_key_view(md.content_id)];
            codec::lemma_u64_bytes_round_trip(md.total_size);
            codec::lemma_u64_bytes_round_trip(md.content_id.0);
            codec::lemma_u64_bytes_round_trip(md.sha1.0);
            codec::lemma_u64_bytes_round_trip(md.sha256.0);
            codec::lemma_u64_bytes_round_trip(md.git_sha1.0);
            assert(codec::u64_to_bytes(codec::u64_from_bytes(bv.subrange(0, 8))) =~= bv.subrange(
                0,
                8,
            )) by {
                lemma_u64_bytes_of_subrange(bv, 0);
            }
            assert(codec::u64_to_bytes(codec::u64_from_bytes(bv.subrange(8, 16))) =~= bv.subrange(
                8,
                16,
            )) by {
                lemma_u64_bytes_of_subrange(bv, 8);
            }
            assert(codec::u64_to_bytes(codec::u64_from_bytes(bv.subrange(16, 24))) =~= bv.subrange(
                16,
                24,
            )) by {
                lemma_u64_bytes_of_subrange(bv, 16);
            }
            assert(codec::u64_to_bytes(codec::u64_from_bytes(bv.subrange(24, 32))) =~= bv.subrange(
                24,
                32,
            )) by {
                lemma_u64_bytes_of_subrange(bv, 24);
            }
            assert(codec::u64_to_bytes(codec::u64_from_bytes(bv.subrange(32, 40))) =~= bv.subrange(
                32,
                40,
            )) by {
                lemma_u64_bytes_of_subrange(bv, 32);
            }
            assert(encode_metadata(md) =~= bv);
        }
        Ok(Some(md))
    }

    /// Read existing content end to end and store it again under the
    /// current chunking policy: a fetch-and-store composition. The
    /// re-stored bytes are exactly the concatenation of the chunks the
    /// store held for `content_id`; absent content is
    /// [`ErrorKind::ContentNotFound`], and a failed re-store leaves every
    /// key outside the new records untouched.
    pub fn rechunk<B: Blobstore>(&self, store: &mut B, content_id: ContentId) -> (r: Result<
        ContentMetadata,
        ErrorKind,
    >)
        requires
            0 < self.spec_config().spec_chunk_size(),
        ensures
            final(store).reliable() == old(store).reliable(),
            final(store).reads_fail() == old(store).reads_fail(),
            r matches Ok(md) ==> md.content_id == content_id,
            r is Ok ==> exists|chunks: Seq<Seq<u8>>|
                #[trigger] fetch_chunks_ok(old(store).contents(), content_id, chunks),
            r matches Ok(md) ==> forall|chunks: Seq<Seq<u8>>|
                #[trigger] fetch_chunks_ok(old(store).contents(), content_id, chunks) ==> ({
                    let data = concat_chunks(chunks);
                    let cs = self.spec_config().spec_chunk_size() as nat;
                    &&& content_stored(final(store).contents(), data, cs)
                    &&& md == metadata_of(data)
                    &&& content_id_of(data) == content_id
                    &&& forall|k: Seq<char>|
                        #[trigger] old(store).contents().contains_key(k) && !store_keys(
                            data,
                            cs,
                        ).contains(k) ==> final(store).contents().contains_key(k)
                            && final(store).contents()[k] == old(store).contents()[k]
                }),
            r == Err::<ContentMetadata, ErrorKind>(ErrorKind::ContentNotFound(content_id))
                ==> content_absent(old(store).contents(), content_id),
            old(store).reliable() && content_absent(old(store).contents(), content_id) ==> r
                == Err::<ContentMetadata, ErrorKind>(ErrorKind::ContentNotFound(content_id)),
            old(store).reliable() && (exists|chunks: Seq<Seq<u8>>|
                #[trigger] fetch_chunks_ok(old(store).contents(), content_id, chunks)
                    && content_id_of(concat_chunks(chunks)) == content_id) ==> r is Ok,
            r matches Err(e) ==> (e matches ErrorKind::Store(_) || final(store).contents() == old(
                store,
            ).contents()),
    {
        let ghost m0 = store.contents();
        let chunks = match self.fetch_by_id(&*store, content_id) {
            Err(e) => {
                return Err(ErrorKind::Fetch(e));
            },
            Ok(None) => {
                return Err(ErrorKind::ContentNotFound(content_id));
            },
            Ok(Some(chunks)) => chunks,
        };
        let ghost cv = Seq::new(chunks@.len(), |i: int| chunks@[i]@);
        let mut data: Vec<u8> = Vec::new();
        let n = chunks.len();
        let mut i: usize = 0;
        proof {
            assert(cv.subrange(0, 0) =~= Seq::<Seq<u8>>::empty());
        }
        while i < n
            invariant
                0 <= i <= n,
                n == chunks@.len(),
                cv == Seq::new(chunks@.len(), |j: int| chunks@[j]@),
                data@ == concat_chunks(cv.subrange(0, i as int)),
            decreases n - i,
        {
            data.extend_from_slice(chunks[i].as_slice());
            proof {
                lemma_concat_chunks_push(cv.subrange(0, i as int), cv[i as int]);
                assert(cv.subrange(0, i as int).push(cv[i as int]) =~= cv.subrange(
                    0,
                    i as int + 1,
                ));
            }
            i = i + 1;
        }
        proof {
            assert(cv.subrange(0, n as int) =~= cv);
            assert(data@ == concat_chunks(cv));
        }
        let len = data.len();
        let req = StoreRequest::with_canonical(len as u64, content_id);
        let ghost dv = data@;
        proof {
            assert(fetch_chunks_ok(m0, content_id, cv));
            assert forall|w: Seq<Seq<u8>>| #[trigger] fetch_chunks_ok(m0, content_id, w) implies w
                == cv by {
                lemma_fetch_chunks_unique(m0, content_id, w, cv);
            }
        }
        match self.store(store, &req, data.as_slice()) {
            Err(e) => Err(ErrorKind::Store(e)),
            Ok(_) => {
                let sha1 = Sha1(codec::digest(data.as_slice(), SHA1_DIGEST_SEED));
                let sha256 = Sha256(codec::digest(data.as_slice(), SHA256_DIGEST_SEED));
                let git_sha1 = GitSha1(codec::digest(data.as_slice(), GITSHA1_DIGEST_SEED));
                proof {
                    assert(content_id == content_id_of(dv));
                }
                Ok(
                    ContentMetadata {
                        total_size: len as u64,
                        content_id,
                        sha1,
                        sha256,
                        git_sha1,
                    },
                )
            },
        }
    }
}

/// A value written as eight bytes inside a larger blob reads back.
pub proof fn lemma_u64_bytes_of_subrange(bv: Seq<u8>, at: int)
    requires
        0 <= at,
        at + 8 <= bv.len(),
    ensures
        codec::u64_to_bytes(codec::u64_from_bytes(bv.subrange(at, at + 8))) =~= bv.subrange(
            at,
            at + 8,
        ),
{
    codec::lemma_u64_from_to(bv.subrange(at, at + 8));
}


/// The chunk list a store of `data` at chunk size `cs` lays down: the data
/// whole when it fits one chunk, else one maximal chunk per index.
pub open spec fn canonical_chunks(data: Seq<u8>, cs: nat) -> Seq<Seq<u8>> {
    if data.len() == 0 {
        Seq::empty()
    } else if data.len() <= cs {
        seq![data]
    } else {
        Seq::new(chunk_count(data.len(), cs), |i: int| chunk_at(data, cs, i as nat))
    }
}

/// Concatenating the first `n` canonical chunks gives the first bytes of
/// the data, up to the end of chunk `n`.
proof fn lemma_concat_prefix(data: Seq<u8>, cs: nat, n: nat)
    requires
        0 < cs,
        cs < data.len(),
        n <= chunk_count(data.len(), cs),
    ensures
        concat_chunks(
            Seq::new(chunk_count(data.len(), cs), |i: int| chunk_at(data, cs, i as nat)).subrange(
                (chunk_count(data.len(), cs) - n) as int,
                chunk_count(data.len(), cs) as int,
            ),
        ) == data.subrange(
            ((chunk_count(data.len(), cs) - n) * cs) as int,
            data.len() as int,
        ) || n == 0,
    decreases n,
{
    let count = chunk_count(data.len(), cs);
    let all = Seq::new(count, |i: int| chunk_at(data, cs, i as nat));
    if n == 0 {
    } else {
        let start = (count - n) as nat;
        lemma_chunking(data.len(), cs, start);
        let tail = all.subrange(start as int, count as int);
        assert(tail.first() == chunk_at(data, cs, start));
        assert(tail.drop_first() =~= all.subrange(start as int + 1, count as int));
        if n == 1 {
            assert(start == count - 1);
            lemma_chunking(data.len(), cs, start + 1);
            assert(start * cs + cs >= data.len()) by {
                if start * cs + cs < data.len() {
                    assert(start + 1 < count);
                }
            }
            assert(chunk_at(data, cs, start) =~= data.subrange(
                (start * cs) as int,
                data.len() as int,
            ));
            assert(tail.len() == 1);
            assert(tail.drop_first() =~= Seq::<Seq<u8>>::empty());
            assert(concat_chunks(tail.drop_first()) == Seq::<u8>::empty());
            assert(concat_chunks(tail) == tail.first() + Seq::<u8>::empty());
            assert(tail.first() + Seq::<u8>::empty() =~= tail.first());
            assert(concat_chunks(tail) =~= data.subrange((start * cs) as int, data.len() as int));
        } else {
            lemma_concat_prefix(data, cs, (n - 1) as nat);
            assert(start + 1 == count - (n - 1));
            lemma_chunking(data.len(), cs, start + 1);
            assert((start + 1) * cs < data.len()) by {
                assert(start + 1 < count);
            }
            assert(chunk_at(data, cs, start) =~= data.subrange(
                (start * cs) as int,
                ((start + 1) * cs) as int,
            ));
            assert(concat_chunks(tail) == chunk_at(data, cs, start) + concat_chunks(
                all.subrange(start as int + 1, count as int),
            ));
            assert(chunk_at(data, cs, start) + data.subrange(
                ((start + 1) * cs) as int,
                data.len() as int,
            ) =~= data.subrange((start * cs) as int, data.len() as int));
        }
    }
}

/// Round trip of the content store: after a store of `data` at chunk size
/// `cs`, the canonical key and every declared alias resolve to the stored
/// chunks, the chunks are non-empty and at most `cs` long, and their
/// concatenation is `data` again.
pub proof fn lemma_round_trip(m: Map<Seq<char>, Seq<u8>>, data: Seq<u8>, cs: nat)
    requires
        content_stored(m, data, cs),
        data.len() <= u64::MAX,
    ensures
        fetch_chunks_ok(m, content_id_of(data), canonical_chunks(data, cs)),
        concat_chunks(canonical_chunks(data, cs)) == data,
        forall|i: int|
            0 <= i < canonical_chunks(data, cs).len() ==> 0 < (#[trigger] canonical_chunks(
                data,
                cs,
            )[i]).len() <= cs,
        m[sha1_key_view(sha1_of(data))] == codec::u64_to_bytes(content_id_of(data).0)
            && codec::u64_from_bytes(m[sha1_key_view(sha1_of(data))]) == content_id_of(data).0,
        m[sha256_key_view(sha256_of(data))] == codec::u64_to_bytes(content_id_of(data).0)
            && codec::u64_from_bytes(m[sha256_key_view(sha256_of(data))]) == content_id_of(data).0,
        m[gitsha1_key_view(gitsha1_of(data))] == codec::u64_to_bytes(content_id_of(data).0)
            && codec::u64_from_bytes(m[gitsha1_key_view(gitsha1_of(data))]) == content_id_of(
            data,
        ).0,
    decreases cs,
{
    let cid = content_id_of(data);
    let chunks = canonical_chunks(data, cs);
    codec::lemma_u64_bytes_round_trip(cid.0);
    let blob = m[content_key_view(cid)];
    if data.len() <= cs {
        assert(blob == seq![0u8] + data);
        assert(blob[0] == 0u8);
        if data.len() == 0 {
            assert(blob.len() == 1);
            assert(chunks =~= Seq::<Seq<u8>>::empty());
            assert(concat_chunks(chunks) =~= data);
        } else {
            assert(blob.drop_first() =~= data);
            assert(chunks =~= seq![blob.drop_first()]);
            assert(chunks.first() == data);
            assert(chunks.drop_first() =~= Seq::<Seq<u8>>::empty());
            assert(concat_chunks(chunks.drop_first()) == Seq::<u8>::empty());
            assert(data + Seq::<u8>::empty() =~= data);
            assert(concat_chunks(chunks) =~= data);
        }
    } else {
        let count = chunk_count(data.len(), cs);
        assert(blob == seq![1u8] + codec::u64_to_bytes(count as u64));
        assert(blob[0] == 1u8);
        assert(blob.len() == 9);
        assert(blob.drop_first() =~= codec::u64_to_bytes(count as u64));
        codec::lemma_u64_bytes_round_trip(count as u64);
        assert(chunks.len() == count);
        assert forall|i: int| 0 <= i < chunks.len() implies m.contains_key(
            #[trigger] chunk_key_view(cid, i as u64),
        ) && chunks[i] == m[chunk_key_view(cid, i as u64)] && chunks[i].len() > 0 by {
            assert(m.contains_key(chunk_key_view(cid, (i as nat) as u64)) && m[chunk_key_view(
                cid,
                (i as nat) as u64,
            )] == chunk_at(data, cs, i as nat));
            lemma_chunking(data.len(), cs, i as nat);
            lemma_chunking(data.len(), cs, i as nat + 1);
            assert(chunk_at(data, cs, i as nat).len() > 0);
        }
        assert forall|i: int| 0 <= i < chunks.len() implies 0 < (#[trigger] chunks[i]).len()
            <= cs by {
            lemma_chunking(data.len(), cs, i as nat);
        }
        lemma_concat_prefix(data, cs, count);
        assert(Seq::new(count, |i: int| chunk_at(data, cs, i as nat)).subrange(0, count as int)
            =~= chunks);
        assert(data.subrange(0, data.len() as int) =~= data);
        lemma_chunking(data.len(), cs, 0);
        assert(count >= 1);
        assert(concat_chunks(chunks) == data);
    }
}

/// Two chunk lists the store vouches for under one id are the same list.
pub proof fn lemma_fetch_chunks_unique(
    m: Map<Seq<char>, Seq<u8>>,
    cid: ContentId,
    a: Seq<Seq<u8>>,
    b: Seq<Seq<u8>>,
)
    requires
        fetch_chunks_ok(m, cid, a),
        fetch_chunks_ok(m, cid, b),
    ensures
        a == b,
{
    let blob = m[content_key_view(cid)];
    if blob[0] == 0u8 {
    } else {
        assert(a.len() == b.len());
        assert forall|i: int| 0 <= i < a.len() implies a[i] == b[i] by {
            assert(a[i] == m[chunk_key_view(cid, i as u64)]);
            assert(b[i] == m[chunk_key_view(cid, i as u64)]);
        }
        assert(a =~= b);
    }
}

/// Idempotent alias resolution: two stores of the same content, under any
/// chunk sizes, derive one canonical id, and the alias pointers of both
/// post-states name exactly that id.
pub proof fn lemma_idempotent_alias(
    m1: Map<Seq<char>, Seq<u8>>,
    m2: Map<Seq<char>, Seq<u8>>,
    data: Seq<u8>,
    cs1: nat,
    cs2: nat,
)
    requires
        content_stored(m1, data, cs1),
        content_stored(m2, data, cs2),
    ensures
        m1[sha1_key_view(sha1_of(data))] == m2[sha1_key_view(sha1_of(data))],
        m1[sha256_key_view(sha256_of(data))] == m2[sha256_key_view(sha256_of(data))],
        m1[gitsha1_key_view(gitsha1_of(data))] == m2[gitsha1_key_view(gitsha1_of(data))],
        codec::u64_from_bytes(m1[sha1_key_view(sha1_of(data))]) == content_id_of(data).0,
        codec::u64_from_bytes(m2[sha1_key_view(sha1_of(data))]) == content_id_of(data).0,
        m1[meta_key_view(content_id_of(data))] == m2[meta_key_view(content_id_of(data))],
{
    codec::lemma_u64_bytes_round_trip(content_id_of(data).0);
}

} // verus!
