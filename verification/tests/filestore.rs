use storecore::blobstore::{Blobstore, EagerMemblob, LazyMemblob};
use storecore::failing::FailingBlobstore;
use storecore::filestore::{
    ErrorKind, FetchError, FetchKey, Filestore, FilestoreConfig, StoreError, StoreRequest,
};

fn concat(chunks: &Vec<Vec<u8>>) -> Vec<u8> {
    let mut out = Vec::new();
    for c in chunks {
        out.extend_from_slice(c.as_slice());
    }
    out
}

#[test]
fn round_trip_inline() {
    let mut store = EagerMemblob::new();
    let fs = Filestore::new();
    let data = b"small content".to_vec();
    let req = StoreRequest::new(data.len() as u64);
    fs.store(&mut store, &req, data.as_slice()).expect("store failed");

    let md = fs
        .get_aliases(&store, &FetchKey::Sha1(storecore::filestore::Sha1(0)))
        .expect("alias read failed");
    assert!(md.is_none(), "an unrelated alias must resolve to nothing");

    let md = fs
        .get_aliases(&store, &FetchKey::Canonical(canonical_of(&data)))
        .expect("metadata read failed")
        .expect("metadata missing");
    assert_eq!(md.total_size, data.len() as u64);

    for key in [
        FetchKey::Canonical(md.content_id),
        FetchKey::Sha1(md.sha1),
        FetchKey::Sha256(md.sha256),
        FetchKey::GitSha1(md.git_sha1),
    ] {
        let chunks = fs
            .fetch(&store, &key)
            .expect("fetch failed")
            .expect("content must exist");
        assert_eq!(concat(&chunks), data, "round trip changed the bytes");
        assert_eq!(chunks.len(), 1, "small content is one inline chunk");
    }
}

fn canonical_of(data: &Vec<u8>) -> storecore::filestore::ContentId {
    storecore::filestore::ContentId(storecore::codec::digest(
        data.as_slice(),
        storecore::filestore::CONTENT_DIGEST_SEED,
    ))
}

#[test]
fn round_trip_chunked() {
    let mut store = LazyMemblob::new();
    let fs = Filestore::with_config(FilestoreConfig::new(4));
    let data = b"a larger payload split into chunks".to_vec();
    let req = StoreRequest::new(data.len() as u64);
    fs.store(&mut store, &req, data.as_slice()).expect("store failed");

    let cid = canonical_of(&data);
    let chunks = fs
        .fetch(&store, &FetchKey::Canonical(cid))
        .expect("fetch failed")
        .expect("content must exist");
    assert_eq!(concat(&chunks), data, "round trip changed the bytes");
    assert!(chunks.len() > 1, "large content must be chunked");
    for c in &chunks {
        assert!(!c.is_empty(), "chunks are non-empty");
        assert!(c.len() <= 4, "chunks are bounded by the chunk size");
    }
}

#[test]
fn idempotent_alias_resolution() {
    let data = b"the same content twice".to_vec();

    let mut store1 = EagerMemblob::new();
    let fs1 = Filestore::with_config(FilestoreConfig::new(4));
    fs1.store(&mut store1, &StoreRequest::new(data.len() as u64), data.as_slice())
        .expect("first store failed");

    let mut store2 = EagerMemblob::new();
    let fs2 = Filestore::with_config(FilestoreConfig::new(1024));
    fs2.store(&mut store2, &StoreRequest::new(data.len() as u64), data.as_slice())
        .expect("second store failed");

    let cid = canonical_of(&data);
    let md1 = fs1
        .get_aliases(&store1, &FetchKey::Canonical(cid))
        .expect("metadata read failed")
        .expect("metadata missing");
    let md2 = fs2
        .get_aliases(&store2, &FetchKey::Canonical(cid))
        .expect("metadata read failed")
        .expect("metadata missing");
    assert_eq!(md1.content_id, md2.content_id, "canonical ids must agree");
    assert_eq!(md1, md2, "alias records must agree");

    let r1 = fs1
        .get_canonical_id(&store1, &FetchKey::Sha1(md1.sha1))
        .expect("alias resolution failed")
        .expect("alias must resolve");
    let r2 = fs2
        .get_canonical_id(&store2, &FetchKey::Sha1(md2.sha1))
        .expect("alias resolution failed")
        .expect("alias must resolve");
    assert_eq!(r1, cid);
    assert_eq!(r2, cid);
}

#[test]
fn store_size_mismatch() {
    let mut store = EagerMemblob::new();
    let fs = Filestore::new();
    let data = b"four".to_vec();
    let req = StoreRequest::new(5);
    match fs.store(&mut store, &req, data.as_slice()) {
        Err(StoreError::SizeMismatch) => {}
        other => panic!("expected a size mismatch, got {:?}", other),
    }
}

#[test]
fn store_hash_mismatch() {
    let mut store = EagerMemblob::new();
    let fs = Filestore::new();
    let data = b"content".to_vec();
    let req = StoreRequest::with_canonical(
        data.len() as u64,
        storecore::filestore::ContentId(0xbad),
    );
    match fs.store(&mut store, &req, data.as_slice()) {
        Err(StoreError::HashMismatch) => {}
        other => panic!("expected a hash mismatch, got {:?}", other),
    }
}

#[test]
fn fetch_of_unknown_content() {
    let store = EagerMemblob::new();
    let fs = Filestore::new();
    let r = fs
        .fetch(&store, &FetchKey::Canonical(storecore::filestore::ContentId(1)))
        .expect("fetch of unknown content is not an error");
    assert!(r.is_none());
    let e = fs
        .content_exists(&store, &FetchKey::Canonical(storecore::filestore::ContentId(1)))
        .expect("existence of unknown content is not an error");
    assert!(!e);
}

#[test]
fn corrupt_alias_pointer() {
    let mut store = EagerMemblob::new();
    let fs = Filestore::new();
    let key = FetchKey::Sha1(storecore::filestore::Sha1(7));
    store
        .put(key.blobstore_key(), vec![1, 2, 3])
        .expect("put failed");
    match fs.get_canonical_id(&store, &key) {
        Err(FetchError::Corrupt) => {}
        other => panic!("expected corruption, got {:?}", other),
    }
    // a corrupt alias is conservative absence for existence checks
    assert!(!fs.content_exists(&store, &key).expect("exists must not fail"));
}

#[test]
fn rechunk_content() {
    let mut store = EagerMemblob::new();
    let coarse = Filestore::with_config(FilestoreConfig::new(1024));
    let data = b"rechunk me into fine pieces".to_vec();
    coarse
        .store(&mut store, &StoreRequest::new(data.len() as u64), data.as_slice())
        .expect("store failed");
    let cid = canonical_of(&data);

    let chunks = coarse
        .fetch(&store, &FetchKey::Canonical(cid))
        .expect("fetch failed")
        .expect("content must exist");
    assert_eq!(chunks.len(), 1, "stored inline at first");

    let fine = Filestore::with_config(FilestoreConfig::new(4));
    let md = fine.rechunk(&mut store, cid).expect("rechunk failed");
    assert_eq!(md.content_id, cid);
    assert_eq!(md.total_size, data.len() as u64);

    let chunks = fine
        .fetch(&store, &FetchKey::Canonical(cid))
        .expect("fetch failed")
        .expect("content must exist");
    assert_eq!(concat(&chunks), data);
    assert!(chunks.len() > 1, "re-chunked under the finer policy");
}

#[test]
fn rechunk_missing_content() {
    let mut store = EagerMemblob::new();
    let fs = Filestore::new();
    match fs.rechunk(&mut store, storecore::filestore::ContentId(42)) {
        Err(ErrorKind::ContentNotFound(c)) => {
            assert_eq!(c, storecore::filestore::ContentId(42))
        }
        other => panic!("expected content-not-found, got {:?}", other),
    }
}

#[test]
fn failing_reads_fail_every_fetch() {
    let mut store = EagerMemblob::new();
    let fs = Filestore::new();
    let data = b"present but unreachable".to_vec();
    fs.store(&mut store, &StoreRequest::new(data.len() as u64), data.as_slice())
        .expect("store failed");
    let cid = canonical_of(&data);

    let failing = FailingBlobstore::new(store, 0, 1, 1, 1);
    for key in [FetchKey::Canonical(cid), FetchKey::Sha1(storecore::filestore::Sha1(1))] {
        match fs.fetch(&failing, &key) {
            Err(FetchError::Blob(storecore::blobstore::BlobError::Injected(_))) => {}
            other => panic!("expected the injected error, got {:?}", other),
        }
        match fs.content_exists(&failing, &key) {
            Err(FetchError::Blob(storecore::blobstore::BlobError::Injected(_))) => {}
            other => panic!("expected the injected error, got {:?}", other),
        }
    }
}

#[test]
fn reliable_wrapper_behaves_like_inner() {
    let mut store = EagerMemblob::new();
    let fs = Filestore::new();
    let data = b"reachable through a benign wrapper".to_vec();
    fs.store(&mut store, &StoreRequest::new(data.len() as u64), data.as_slice())
        .expect("store failed");
    let cid = canonical_of(&data);

    let wrapped = FailingBlobstore::new(store, 1, 1, 1, 1);
    let chunks = fs
        .fetch(&wrapped, &FetchKey::Canonical(cid))
        .expect("fetch failed")
        .expect("content must exist");
    assert_eq!(concat(&chunks), data);
}

#[test]
fn store_request_constructors() {
    let r = StoreRequest::new(9);
    assert_eq!(r.expected_size, 9);
    assert!(r.canonical.is_none() && r.sha1.is_none() && r.sha256.is_none());
    let r = StoreRequest::with_sha1(9, storecore::filestore::Sha1(5));
    assert_eq!(r.sha1, Some(storecore::filestore::Sha1(5)));
    let r = StoreRequest::with_sha256(9, storecore::filestore::Sha256(6));
    assert_eq!(r.sha256, Some(storecore::filestore::Sha256(6)));
    let r = StoreRequest::with_git_sha1(9, storecore::filestore::GitSha1(7));
    assert_eq!(r.git_sha1, Some(storecore::filestore::GitSha1(7)));
}

#[test]
fn failing_writes_fail_every_put() {
    let store = EagerMemblob::new();
    let mut failing = FailingBlobstore::new(store, 1, 1, 0, 1);
    match failing.put("k".to_string(), vec![1, 2, 3]) {
        Err(storecore::blobstore::BlobError::Injected(_)) => {}
        other => panic!("expected the injected error, got {:?}", other),
    }
    let fs = Filestore::new();
    let data = b"never lands".to_vec();
    match fs.store(&mut failing, &StoreRequest::new(data.len() as u64), data.as_slice()) {
        Err(StoreError::Blob(storecore::blobstore::BlobError::Injected(_))) => {}
        other => panic!("expected the injected error, got {:?}", other),
    }
}
