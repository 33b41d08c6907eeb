use storecore::blobstore::{BlobError, Blobstore, EagerMemblob, LazyMemblob};
use storecore::bundle::{
    validate_header, BundleError, EmptyUnpacker, InfinitepushBookmarksUnpacker, PartHeader,
    PartHeaderType,
};
use storecore::codec;
use storecore::manifest::{decode_manifest, encode_manifest, Entry, FileType, LeafEntry, NodeHash};
use storecore::path::{MPath, MPathElement};
use storecore::path_tree::PathTree;
use storecore::traversal::{bounded_traversal_stream, TreeNode, TreeUnfold};

#[test]
fn integer_codecs_have_exact_bytes() {
    assert_eq!(codec::u64_encode(0x0102030405060708), vec![1, 2, 3, 4, 5, 6, 7, 8]);
    assert_eq!(codec::u64_decode(&[1, 2, 3, 4, 5, 6, 7, 8]), 0x0102030405060708);
    assert_eq!(codec::u32_encode(0xdeadbeef), vec![0xde, 0xad, 0xbe, 0xef]);
    assert_eq!(codec::u32_decode(&[0xde, 0xad, 0xbe, 0xef]), 0xdeadbeef);
    assert_eq!(codec::u64_hex(0xff), "00000000000000ff");
    assert_eq!(codec::u64_hex(0x0123456789abcdef), "0123456789abcdef");
}

#[test]
fn digest_is_a_function_of_the_bytes() {
    let a = codec::digest(b"some bytes", 7);
    let b = codec::digest(b"some bytes", 7);
    let c = codec::digest(b"other bytes", 7);
    let d = codec::digest(b"some bytes", 8);
    assert_eq!(a, b, "equal input, equal digest");
    assert_ne!(a, c, "these inputs must give distinct digests");
    assert_ne!(a, d, "distinct seeds must give distinct digests here");
}

#[test]
fn path_elements_reject_bad_bytes() {
    assert!(MPathElement::new(b"name".to_vec()).is_ok());
    assert!(MPathElement::new(b"".to_vec()).is_err());
    assert!(MPathElement::new(b"a/b".to_vec()).is_err());
    assert!(MPathElement::new(b"a\0b".to_vec()).is_err());
}

#[test]
fn paths_parse_and_reject() {
    let p = MPath::new(b"a/bc/d").expect("valid path");
    assert_eq!(p.depth(), 3);
    assert_eq!(p.elements()[0].bytes(), &b"a".to_vec());
    assert_eq!(p.elements()[1].bytes(), &b"bc".to_vec());
    assert_eq!(p.elements()[2].bytes(), &b"d".to_vec());
    assert!(MPath::new(b"").is_err());
    assert!(MPath::new(b"/a").is_err());
    assert!(MPath::new(b"a/").is_err());
    assert!(MPath::new(b"a//b").is_err());
    assert!(MPath::new(b"a/\0").is_err());
}

#[test]
fn path_tree_insert_and_drain() {
    let mut tree: PathTree<u64> = PathTree { value: 0, subentries: Vec::new() };
    tree.insert(&MPath::new(b"a/b").unwrap(), 7);
    tree.insert(&MPath::new(b"a/c").unwrap(), 8);
    tree.insert(&MPath::new(b"d").unwrap(), 9);
    let mut it = tree.into_iter();
    let mut seen = Vec::new();
    while let Some((path, value)) = it.next() {
        let rendered = match path {
            None => Vec::new(),
            Some(p) => {
                let mut parts = Vec::new();
                for e in p.elements() {
                    parts.push(e.bytes().clone());
                }
                parts
            }
        };
        seen.push((rendered, value));
    }
    assert_eq!(seen.len(), 5, "root, a, a/b, a/c and d");
    assert!(seen.contains(&(vec![], 0)));
    assert!(seen.contains(&(vec![b"a".to_vec(), b"b".to_vec()], 7)));
    assert!(seen.contains(&(vec![b"a".to_vec(), b"c".to_vec()], 8)));
    assert!(seen.contains(&(vec![b"d".to_vec()], 9)));
}

#[test]
fn path_tree_overwrites() {
    let mut tree: PathTree<u64> = PathTree { value: 0, subentries: Vec::new() };
    tree.insert(&MPath::new(b"x").unwrap(), 1);
    tree.insert(&MPath::new(b"x").unwrap(), 2);
    let mut it = tree.into_iter();
    let mut values = Vec::new();
    while let Some((_, v)) = it.next() {
        values.push(v);
    }
    values.sort();
    assert_eq!(values, vec![0, 2], "the second insert replaced the first");
}

#[test]
fn memblobs_read_their_writes() {
    let mut eager = EagerMemblob::new();
    eager.put("k".to_string(), vec![1, 2]).unwrap();
    assert_eq!(eager.get(&"k".to_string()).unwrap(), Some(vec![1, 2]));
    eager.put("k".to_string(), vec![3]).unwrap();
    assert_eq!(eager.get(&"k".to_string()).unwrap(), Some(vec![3]));
    assert_eq!(eager.get(&"absent".to_string()).unwrap(), None);
    assert!(eager.is_present(&"k".to_string()).unwrap());
    assert!(eager.assert_present(&"k".to_string()).is_ok());
    assert_eq!(
        eager.assert_present(&"absent".to_string()),
        Err(BlobError::Missing)
    );

    let mut lazy = LazyMemblob::new();
    lazy.put("k".to_string(), vec![1, 2]).unwrap();
    assert_eq!(lazy.get(&"k".to_string()).unwrap(), Some(vec![1, 2]));
    lazy.put("k".to_string(), vec![9]).unwrap();
    assert_eq!(lazy.get(&"k".to_string()).unwrap(), Some(vec![9]));
    assert_eq!(lazy.get(&"absent".to_string()).unwrap(), None);
    assert_eq!(
        lazy.assert_present(&"absent".to_string()),
        Err(BlobError::Missing)
    );
}

#[test]
fn manifest_codec_round_trips() {
    let entries = vec![
        (
            MPathElement::new(b"dir".to_vec()).unwrap(),
            Entry::Tree(NodeHash(0x11)),
        ),
        (
            MPathElement::new(b"file".to_vec()).unwrap(),
            Entry::Leaf(LeafEntry::new(NodeHash(0x22), FileType::Executable)),
        ),
    ];
    let blob = encode_manifest(&entries);
    let decoded = decode_manifest(&blob).expect("decoding an encoding succeeds");
    assert_eq!(decoded.len(), 2);
    assert_eq!(decoded[0].0.bytes(), &b"dir".to_vec());
    assert_eq!(decoded[0].1, Entry::Tree(NodeHash(0x11)));
    assert_eq!(decoded[1].0.bytes(), &b"file".to_vec());
    assert_eq!(
        decoded[1].1,
        Entry::Leaf(LeafEntry::new(NodeHash(0x22), FileType::Executable))
    );
    assert!(decode_manifest(&vec![1, 2, 3]).is_err(), "truncated bytes are rejected");
}

#[test]
fn entry_projections() {
    let t: Entry<u32, u8> = Entry::Tree(5);
    assert_eq!(t.into_tree(), Some(5));
    let t: Entry<u32, u8> = Entry::Tree(5);
    assert_eq!(t.into_leaf(), None);
    let l: Entry<u32, u8> = Entry::Leaf(9);
    assert_eq!(l.into_leaf(), Some(9));
    let l: Entry<u32, u8> = Entry::Leaf(9);
    assert_eq!(l.into_tree(), None);
}

fn node(value: u64, children: Vec<TreeNode>) -> TreeNode {
    TreeNode { value, children }
}

#[test]
fn traversal_visits_every_node_sequentially() {
    // the degenerate bound of one admitted unfolding at a time
    let tree = node(1, vec![node(2, vec![node(4, vec![]), node(5, vec![])]), node(3, vec![])]);
    let mut outs = bounded_traversal_stream(1, tree, &TreeUnfold).expect("traversal failed");
    outs.sort();
    assert_eq!(outs, vec![1, 2, 3, 4, 5]);
}

#[test]
fn traversal_visits_every_node_with_wider_bounds() {
    let tree = node(10, vec![node(20, vec![node(40, vec![])]), node(30, vec![]), node(35, vec![])]);
    let mut outs = bounded_traversal_stream(3, tree, &TreeUnfold).expect("traversal failed");
    outs.sort();
    assert_eq!(outs, vec![10, 20, 30, 35, 40]);

    let single = node(7, vec![]);
    let outs = bounded_traversal_stream(128, single, &TreeUnfold).expect("traversal failed");
    assert_eq!(outs, vec![7]);
}

#[test]
fn bookmarks_unpacker_frames_one_payload() {
    let mut unpacker = InfinitepushBookmarksUnpacker::new();
    let mut buf = bytes::BytesMut::new();

    // a partial header is not enough
    buf.extend_from_slice(&[0, 0]);
    assert_eq!(unpacker.decode(&mut buf).unwrap(), None);

    // the full header announces five payload bytes
    buf.extend_from_slice(&[0, 5]);
    assert_eq!(unpacker.decode(&mut buf).unwrap(), None);
    assert_eq!(buf.len(), 0, "the header was consumed");

    // a partial payload is not enough
    buf.extend_from_slice(b"bo");
    assert_eq!(unpacker.decode(&mut buf).unwrap(), None);

    // the whole payload arrives and is handed out once
    buf.extend_from_slice(b"okstail");
    let payload = unpacker.decode(&mut buf).unwrap().expect("payload ready");
    assert_eq!(payload.as_ref(), b"books");
    assert_eq!(buf.as_ref(), b"tail", "bytes past the frame stay");

    // nothing more is ever handed out
    assert_eq!(unpacker.decode(&mut buf).unwrap(), None);
}

#[test]
fn empty_unpacker_consumes_nothing() {
    let mut unpacker = EmptyUnpacker;
    let mut buf = bytes::BytesMut::new();
    buf.extend_from_slice(b"anything");
    assert_eq!(unpacker.decode(&mut buf).unwrap(), None);
    assert_eq!(buf.as_ref(), b"anything");
}

#[test]
fn validate_header_accepts_known_parts() {
    let header = PartHeader {
        part_type: PartHeaderType::Changegroup,
        mandatory: true,
        mparams: vec!["version".to_string(), "nbchanges".to_string()],
    };
    let validated = validate_header(header).expect("known params pass");
    assert!(validated.is_some());
}

#[test]
fn validate_header_rejects_unknown_params() {
    let header = PartHeader {
        part_type: PartHeaderType::Pushkey,
        mandatory: true,
        mparams: vec!["namespace".to_string(), "surprise".to_string()],
    };
    match validate_header(header) {
        Err(BundleError::UnknownPartParams) => {}
        _ => panic!("unknown params must be rejected"),
    }
}

#[test]
fn validate_header_handles_unknown_parts() {
    let mandatory = PartHeader {
        part_type: PartHeaderType::B2xCommonHeads,
        mandatory: true,
        mparams: vec![],
    };
    match validate_header(mandatory) {
        Err(BundleError::UnknownPart) => {}
        _ => panic!("an unknown mandatory part must be rejected"),
    }

    let advisory = PartHeader {
        part_type: PartHeaderType::B2xCommonHeads,
        mandatory: false,
        mparams: vec![],
    };
    assert!(validate_header(advisory).expect("advisory parts pass").is_none());
}

#[test]
fn record_types_carry_their_fields() {
    let hook = storecore::records::LuaHook::new("name".to_string(), "code".to_string());
    assert_eq!(hook.name, "name");
    assert_eq!(hook.code, "code");

    let change = storecore::records::FileChange {
        content_id: storecore::filestore::ContentId(3),
        size: 12,
    };
    let path = MPath::new(b"a/b").unwrap();
    let info = storecore::records::FileInformation::maybe_from_change(
        NodeHash(1),
        &path,
        Some(&change),
    )
    .expect("a change yields a record");
    assert_eq!(info.content_id(), storecore::filestore::ContentId(3));
    assert_eq!(info.size(), 12);
    assert!(storecore::records::FileInformation::maybe_from_change(NodeHash(1), &path, None)
        .is_none());

    let mut stream = storecore::records::NotReadyEmptyStream::new(2);
    assert_eq!(stream.poll(), storecore::records::PollOutcome::Pending);
    assert_eq!(stream.poll(), storecore::records::PollOutcome::Pending);
    assert_eq!(stream.poll(), storecore::records::PollOutcome::Finished);
    assert_eq!(stream.poll(), storecore::records::PollOutcome::Finished);
}

#[test]
fn traversal_single_slot_emits_preorder() {
    // one admitted unfolding at a time walks depth-first: each node before
    // its descendants, each subtree contiguous, children in order
    let tree = node(1, vec![node(2, vec![node(4, vec![]), node(5, vec![])]), node(3, vec![])]);
    let outs = bounded_traversal_stream(1, tree, &TreeUnfold).expect("traversal failed");
    assert_eq!(outs, vec![1, 2, 4, 5, 3]);
}

#[test]
fn path_tree_iteration_orders_parents_first() {
    let mut tree: PathTree<u64> = PathTree { value: 0, subentries: Vec::new() };
    tree.insert(&MPath::new(b"a/b/c").unwrap(), 1);
    tree.insert(&MPath::new(b"a/d").unwrap(), 2);
    tree.insert(&MPath::new(b"e").unwrap(), 3);
    let mut it = tree.into_iter();
    let mut emitted: Vec<Option<Vec<Vec<u8>>>> = Vec::new();
    while let Some((path, _)) = it.next() {
        let rendered = path.map(|p| {
            p.elements().iter().map(|e| e.bytes().clone()).collect::<Vec<_>>()
        });
        match &rendered {
            None => assert!(emitted.is_empty(), "the root comes first"),
            Some(parts) => {
                let parent = if parts.len() == 1 {
                    None
                } else {
                    Some(parts[..parts.len() - 1].to_vec())
                };
                assert!(
                    emitted.contains(&parent),
                    "a node must come after its parent: {:?}",
                    parts
                );
            }
        }
        emitted.push(rendered);
    }
    assert_eq!(emitted.len(), 6, "root, a, a/b, a/b/c, a/d and e");
}

#[test]
fn path_tree_from_iter_last_value_wins() {
    let entries = vec![
        (MPath::new(b"p/q").unwrap(), 1u64),
        (MPath::new(b"r").unwrap(), 2u64),
        (MPath::new(b"p/q").unwrap(), 3u64),
    ];
    let tree = PathTree::from_iter(entries);
    let mut it = tree.into_iter();
    let mut seen = Vec::new();
    while let Some((path, value)) = it.next() {
        let rendered = match path {
            None => Vec::new(),
            Some(p) => p.elements().iter().map(|e| e.bytes().clone()).collect(),
        };
        seen.push((rendered, value));
    }
    assert!(seen.contains(&(vec![b"p".to_vec(), b"q".to_vec()], 3)), "the last value won");
    assert!(seen.contains(&(vec![b"r".to_vec()], 2)));
    assert!(!seen.contains(&(vec![b"p".to_vec(), b"q".to_vec()], 1)));
}
