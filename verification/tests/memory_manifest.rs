use storecore::blobstore::{Blobstore, EagerMemblob};
use storecore::manifest::{Entry, FileType, LeafEntry, NodeHash};
use storecore::memory_manifest::{MemoryManifestEntry, MemoryRootManifest};
use storecore::path::{MPath, MPathElement};

fn insert_entry(tree: &mut MemoryManifestEntry, path: MPathElement, entry: MemoryManifestEntry) {
    match tree {
        MemoryManifestEntry::MemTree { changes, .. } => {
            changes.set(path, Some(entry));
        }
        _ => panic!("Inserting into a non-Tree"),
    }
}

fn leaf(hash: u64) -> LeafEntry {
    LeafEntry::new(NodeHash(hash), FileType::Regular)
}

/// A store holding one persisted manifest with `dir2/file_1_in_dir2`, and
/// the files `1` and `shared` at the root; hands back the store and the
/// persisted root id.
fn base_repo() -> (EagerMemblob, NodeHash) {
    let mut store = EagerMemblob::new();
    let mut root = MemoryRootManifest::new(None, None).expect("Could not create empty manifest");
    root.change_entry(
        &store,
        &MPath::new(b"dir2/file_1_in_dir2").expect("Can't create MPath"),
        Some(leaf(0x1111)),
    )
    .expect("Failed to set");
    root.change_entry(&store, &MPath::new(b"1").expect("Can't create MPath"), Some(leaf(0x2222)))
        .expect("Failed to set");
    root.change_entry(
        &store,
        &MPath::new(b"shared").expect("Can't create MPath"),
        Some(leaf(0x3333)),
    )
    .expect("Failed to set");
    let id = root.save(&mut store).expect("Could not save base manifest");
    (store, id)
}

#[test]
fn empty_manifest() {
    let memory_manifest = MemoryRootManifest::new(None, None)
        .expect("Could not create empty manifest");

    if let MemoryManifestEntry::MemTree { base_manifest_id, p1, p2, changes } =
        memory_manifest.unittest_root()
    {
        assert!(base_manifest_id.is_none(), "Empty manifest had a baseline");
        assert!(p1.is_none(), "Empty manifest had p1");
        assert!(p2.is_none(), "Empty manifest had p2");
        assert!(changes.is_empty(), "Empty manifest had new entries changed");
    } else {
        panic!("Empty manifest is not a MemTree");
    }
}

#[test]
fn load_manifest() {
    let (_store, manifest_id) = base_repo();

    let memory_manifest =
        MemoryRootManifest::new(Some(manifest_id), None).expect("Could not load manifest");

    if let MemoryManifestEntry::MemTree { base_manifest_id, p1, p2, changes } =
        memory_manifest.unittest_root()
    {
        assert_eq!(
            *base_manifest_id,
            Some(manifest_id),
            "Loaded manifest had wrong base {:?}",
            base_manifest_id
        );
        assert_eq!(*p1, Some(manifest_id), "Loaded manifest had wrong p1 {:?}", p1);
        assert!(p2.is_none(), "Loaded manifest had p2");
        assert!(changes.is_empty(), "Loaded (unaltered) manifest has had entries changed");
    } else {
        panic!("Loaded manifest is not a MemTree");
    }
}

#[test]
fn save_manifest() {
    let mut store = EagerMemblob::new();

    let mut memory_manifest =
        MemoryRootManifest::new(None, None).expect("Could not create empty manifest");

    // Add an unmodified directory entry, kept by its persisted id alone
    let dir_nodehash = NodeHash(0xb267a686);
    let dir = MemoryManifestEntry::MemTree {
        base_manifest_id: Some(dir_nodehash),
        p1: Some(dir_nodehash),
        p2: None,
        changes: storecore::memory_manifest::ChangeMap::new(),
    };
    let path = MPathElement::new(b"dir".to_vec()).expect("dir is no longer a valid MPathElement");
    let mut root_val = MemoryManifestEntry::MemTree {
        base_manifest_id: None,
        p1: None,
        p2: None,
        changes: storecore::memory_manifest::ChangeMap::new(),
    };
    insert_entry(&mut root_val, path.clone(), dir);
    memory_manifest = MemoryRootManifest::from_entry(root_val).expect("root must be a tree");

    let manifest_id = memory_manifest.save(&mut store).expect("Could not save manifest");

    let reloaded =
        MemoryRootManifest::new(Some(manifest_id), None).expect("Could not reload manifest");
    let refound = reloaded
        .lookup(&store, &MPath::new(b"dir").expect("Could not create MPath"))
        .expect("Lookup of entry just saved failed")
        .expect("Just saved entry not present");

    // Confirm that the entry we put in the root manifest is present
    match refound {
        Entry::Tree(Some(found)) => assert_eq!(found, dir_nodehash, "directory hash changed"),
        other => panic!("directory entry changed shape: {:?}", other),
    }
}

#[test]
fn remove_item() {
    let (mut store, manifest_id) = base_repo();

    let dir2 = MPathElement::new(b"dir2".to_vec()).expect("Can't create MPathElement dir2");

    let mut memory_manifest =
        MemoryRootManifest::new(Some(manifest_id), None).expect("Could not load manifest");

    if !memory_manifest.unittest_root().is_mem_tree() {
        panic!("Loaded manifest is not a MemTree");
    }

    // Remove a file
    memory_manifest
        .change_entry(&store, &MPath::new(b"dir2/file_1_in_dir2").expect("Can't create MPath"), None)
        .expect("Failed to remove");

    // Assert that dir2 is now empty, since we've removed the item
    if let MemoryManifestEntry::MemTree { changes, .. } = memory_manifest.unittest_root() {
        let dir2_entry = changes.get(&dir2).expect("dir2 is missing");
        let dir2_entry = dir2_entry.as_ref().expect("dir2 was deleted outright");
        assert!(
            dir2_entry.is_empty(&store).expect("is_empty failed"),
            "Bad after remove"
        );
        if let MemoryManifestEntry::MemTree { changes, .. } = dir2_entry {
            assert!(!changes.is_empty(), "dir2 has no change entries");
            let mut k = 0;
            let mut all_removed = true;
            while k < changes.entries.len() {
                if changes.entries[k].1.is_some() {
                    all_removed = false;
                }
                k += 1;
            }
            assert!(all_removed, "dir2 has some add entries");
        }
    } else {
        panic!("Loaded manifest is not a MemTree");
    }

    // And check that dir2 disappears over a save/reload operation
    let new_id = memory_manifest.save(&mut store).expect("Could not save manifest");

    let reloaded = MemoryRootManifest::new(Some(new_id), None).expect("Could not reload");
    let refound = reloaded
        .lookup(&store, &MPath::new(b"dir2").expect("Can't create MPath"))
        .expect("Lookup of entry just saved failed");

    assert!(refound.is_none(), "Found dir2 when we should have deleted it on save");
}

#[test]
fn add_item() {
    let (mut store, manifest_id) = base_repo();

    let new_file = MPath::new(b"new_file").expect("Could not create MPath");

    let mut memory_manifest =
        MemoryRootManifest::new(Some(manifest_id), None).expect("Could not load manifest");

    // Add a file
    let nodehash = NodeHash(0xb267a686);
    memory_manifest
        .change_entry(&store, &new_file, Some(leaf(0xb267a686)))
        .expect("Failed to set");

    // And check that new_file persists
    let new_id = memory_manifest.save(&mut store).expect("Could not save manifest");

    let reloaded = MemoryRootManifest::new(Some(new_id), None).expect("Could not reload");
    let refound = reloaded
        .lookup(&store, &new_file)
        .expect("Lookup of entry just saved failed")
        .expect("new_file did not persist");
    match refound {
        Entry::Leaf(l) => assert_eq!(l.get_hash(), nodehash, "nodehash hash changed"),
        other => panic!("new_file changed shape: {:?}", other),
    }
}

#[test]
fn replace_item() {
    let (mut store, manifest_id) = base_repo();

    let new_file = MPath::new(b"1").expect("Could not create MPath");

    let mut memory_manifest =
        MemoryRootManifest::new(Some(manifest_id), None).expect("Could not load manifest");

    // Replace an existing file
    let nodehash = NodeHash(0xb267a686);
    memory_manifest
        .change_entry(&store, &new_file, Some(leaf(0xb267a686)))
        .expect("Failed to set");

    // And check that the replacement persists
    let new_id = memory_manifest.save(&mut store).expect("Could not save manifest");

    let reloaded = MemoryRootManifest::new(Some(new_id), None).expect("Could not reload");
    let refound = reloaded
        .lookup(&store, &new_file)
        .expect("Lookup of entry just saved failed")
        .expect("1 did not persist");
    match refound {
        Entry::Leaf(l) => assert_eq!(l.get_hash(), nodehash, "nodehash hash changed"),
        other => panic!("1 changed shape: {:?}", other),
    }
}

fn fresh_tree_with(entries: Vec<(&[u8], MemoryManifestEntry)>, p1: Option<NodeHash>) -> MemoryManifestEntry {
    let mut changes = storecore::memory_manifest::ChangeMap::new();
    for (name, entry) in entries {
        let name = MPathElement::new(name.to_vec()).unwrap();
        changes.set(name, Some(entry));
    }
    MemoryManifestEntry::MemTree { base_manifest_id: None, p1, p2: None, changes }
}

#[test]
fn conflict_resolution() {
    let ones = NodeHash(0x1111);

    let dir_file_conflict = MPathElement::new(b"dir_file_conflict".to_vec()).unwrap();

    let base = fresh_tree_with(
        vec![(b"dir_file_conflict", MemoryManifestEntry::Blob(leaf(0x1111)))],
        Some(ones),
    );

    let other_sub = fresh_tree_with(vec![(b"file", MemoryManifestEntry::Blob(leaf(0x1111)))], None);
    let other = fresh_tree_with(vec![(b"dir_file_conflict", other_sub)], Some(ones));

    let mut merge = base.merge_with_conflicts(other);
    match &merge {
        MemoryManifestEntry::MemTree { changes, .. } => {
            match changes.get(&dir_file_conflict) {
                Some(Some(MemoryManifestEntry::Conflict(conflict))) => {
                    assert_eq!(conflict.len(), 2)
                }
                _ => panic!("Conflict expected"),
            }
        }
        _ => panic!("Tree expected"),
    };

    merge.change(dir_file_conflict.clone(), None).expect("Should succeed");
    match &merge {
        MemoryManifestEntry::MemTree { changes, .. } => {
            match changes.get(&dir_file_conflict) {
                Some(Some(MemoryManifestEntry::MemTree { .. })) => (),
                _ => panic!("Tree expected"),
            }
        }
        _ => panic!("Tree expected"),
    };
}

#[test]
fn merge_manifests() {
    let ones = NodeHash(0x1111);
    let twos = NodeHash(0x2222);

    let base = fresh_tree_with(
        vec![
            (b"shared".as_slice(), MemoryManifestEntry::Blob(leaf(0x1111))),
            (b"base".as_slice(), MemoryManifestEntry::Blob(leaf(0x1111))),
            (b"conflict".as_slice(), MemoryManifestEntry::Blob(leaf(0x1111))),
        ],
        Some(ones),
    );
    let other = fresh_tree_with(
        vec![
            (b"shared".as_slice(), MemoryManifestEntry::Blob(leaf(0x1111))),
            (b"other".as_slice(), MemoryManifestEntry::Blob(leaf(0x2222))),
            (b"conflict".as_slice(), MemoryManifestEntry::Blob(leaf(0x2222))),
        ],
        Some(twos),
    );

    let merged = base.merge_with_conflicts(other);

    if let MemoryManifestEntry::MemTree { changes, .. } = merged {
        assert_eq!(changes.len(), 4, "Should merge to 4 entries");
        match changes.get(&MPathElement::new(b"shared".to_vec()).unwrap()) {
            Some(Some(MemoryManifestEntry::Blob(blob))) => {
                assert_eq!(blob.get_hash(), ones, "Wrong hash for shared")
            }
            _ => panic!("shared is not a blob"),
        }
        match changes.get(&MPathElement::new(b"base".to_vec()).unwrap()) {
            Some(Some(MemoryManifestEntry::Blob(blob))) => {
                assert_eq!(blob.get_hash(), ones, "Wrong hash for base")
            }
            _ => panic!("base is not a blob"),
        }
        match changes.get(&MPathElement::new(b"other".to_vec()).unwrap()) {
            Some(Some(MemoryManifestEntry::Blob(blob))) => {
                assert_eq!(blob.get_hash(), twos, "Wrong hash for other")
            }
            _ => panic!("other is not a blob"),
        }
        match changes.get(&MPathElement::new(b"conflict".to_vec()).unwrap()) {
            Some(Some(MemoryManifestEntry::Conflict(conflicts))) => {
                assert_eq!(conflicts.len(), 2, "Should have two conflicts")
            }
            _ => panic!("conflict did not create a conflict"),
        }
    } else {
        panic!("Merge failed to produce a merged tree");
    }
}

#[test]
fn save_rejects_conflicts() {
    let mut store = EagerMemblob::new();
    let base = fresh_tree_with(
        vec![(b"conflict", MemoryManifestEntry::Blob(leaf(0x1111)))],
        Some(NodeHash(0x1111)),
    );
    let other = fresh_tree_with(
        vec![(b"conflict", MemoryManifestEntry::Blob(leaf(0x2222)))],
        Some(NodeHash(0x2222)),
    );
    let merged = base.merge_with_conflicts(other);
    let root = MemoryRootManifest::from_entry(merged).expect("merged root is a tree");
    match root.save(&mut store) {
        Err(storecore::memory_manifest::MemError::UnresolvedConflict) => {}
        other => panic!("save of a conflicted tree must fail: {:?}", other),
    }
}

#[test]
fn lookup_missing_tree_fails() {
    let store = EagerMemblob::new();
    let root = MemoryRootManifest::new(Some(NodeHash(0xdead)), None).expect("load");
    match root.lookup(&store, &MPath::new(b"anything").unwrap()) {
        Err(storecore::memory_manifest::MemError::MissingTree(h)) => {
            assert_eq!(h, NodeHash(0xdead))
        }
        other => panic!("expected a missing tree error, got {:?}", other),
    }
}

#[test]
fn failing_reads_fail_lookup() {
    let (store, manifest_id) = base_repo();
    let failing = storecore::failing::FailingBlobstore::new(store, 0, 1, 1, 1);
    let root = MemoryRootManifest::new(Some(manifest_id), None).expect("load");
    match root.lookup(&failing, &MPath::new(b"dir2/file_1_in_dir2").unwrap()) {
        Err(storecore::memory_manifest::MemError::Blob(
            storecore::blobstore::BlobError::Injected(_),
        )) => {}
        other => panic!("expected the injected error, got {:?}", other),
    }
    // is_present goes through the same failing reads
    let key = storecore::memory_manifest::tree_key(manifest_id);
    match failing.is_present(&key) {
        Err(storecore::blobstore::BlobError::Injected(_)) => {}
        other => panic!("expected the injected error, got {:?}", other),
    }
}
