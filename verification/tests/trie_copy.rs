//! Tests of the reachability copy engine over the trie store.

use casper_db_utils::{
    copy_state_root, CopyError, Digest, DigestMap, Pointer, PointerKind, TrieNode, BRANCH_WIDTH,
};

fn digest(n: u64) -> Digest {
    let mut bytes = [0u8; 32];
    let mut v: u64 = n;
    let mut i: usize = 0;
    while i < 8 {
        bytes[i] = (v & 0xff) as u8;
        v >>= 8;
        i += 1;
    }
    Digest::new(bytes)
}

fn leaf(key: Vec<u8>, value: Vec<u8>) -> TrieNode {
    TrieNode::Leaf { key, value }
}

fn branch(children: Vec<(usize, Pointer)>) -> TrieNode {
    let mut slots: Vec<Option<Pointer>> = Vec::new();
    for _ in 0..BRANCH_WIDTH {
        slots.push(None);
    }
    for (idx, p) in children {
        slots[idx] = Some(p);
    }
    TrieNode::Branch { slots }
}

fn leaf_ptr(d: Digest) -> Pointer {
    Pointer {
        kind: PointerKind::Leaf,
        digest: d,
    }
}

fn node_ptr(d: Digest) -> Pointer {
    Pointer {
        kind: PointerKind::Node,
        digest: d,
    }
}

/// The fixture trie: `node1` points at `leaf1` and at an extension that
/// leads through `node2` to `leaf2` and `leaf3`. Returns the digests and
/// store in the order leaf1, leaf2, leaf3, node1, node2, ext.
fn create_data() -> (Vec<Digest>, DigestMap<TrieNode>) {
    let leaf_1 = leaf(vec![0u8, 0, 0], b"val_1".to_vec());
    let leaf_2 = leaf(vec![1u8, 0, 0], b"val_2".to_vec());
    let leaf_3 = leaf(vec![1u8, 0, 1], b"val_3".to_vec());
    let d_leaf_1 = digest(1);
    let d_leaf_2 = digest(2);
    let d_leaf_3 = digest(3);
    let node_2 = branch(vec![(0, leaf_ptr(d_leaf_2)), (1, leaf_ptr(d_leaf_3))]);
    let d_node_2 = digest(5);
    let ext_node = TrieNode::Extension {
        affix: vec![1u8, 0],
        pointer: node_ptr(d_node_2),
    };
    let d_ext = digest(6);
    let node_1 = branch(vec![(0, leaf_ptr(d_leaf_1)), (1, node_ptr(d_ext))]);
    let d_node_1 = digest(4);

    let mut store: DigestMap<TrieNode> = DigestMap::new();
    store.insert(d_leaf_1, leaf_1);
    store.insert(d_leaf_2, leaf_2);
    store.insert(d_leaf_3, leaf_3);
    store.insert(d_node_1, node_1);
    store.insert(d_node_2, node_2);
    store.insert(d_ext, ext_node);
    (
        vec![d_leaf_1, d_leaf_2, d_leaf_3, d_node_1, d_node_2, d_ext],
        store,
    )
}

fn nodes_equal(store_a: &DigestMap<TrieNode>, store_b: &DigestMap<TrieNode>, d: &Digest) -> bool {
    match (store_a.get(d), store_b.get(d)) {
        (Some(a), Some(b)) => a == b,
        _ => false,
    }
}

#[test]
fn copy_state_root_roundtrip() {
    let (digests, source) = create_data();
    let mut destination: DigestMap<TrieNode> = DigestMap::new();

    // copy from node1, the root of the created trie: all data is copied
    let root = digests[3];
    copy_state_root(&root, &source, &mut destination).unwrap();

    for d in &digests {
        assert!(destination.contains_key(d));
        assert!(nodes_equal(&source, &destination, d));
    }
    assert_eq!(destination.entries.len(), 6);
}

#[test]
fn check_no_extra_tries() {
    let (digests, source) = create_data();
    let mut destination: DigestMap<TrieNode> = DigestMap::new();

    // copy from node2, which only has leaf2 and leaf3 under it
    let root = digests[4];
    copy_state_root(&root, &source, &mut destination).unwrap();

    // exactly leaf2, leaf3 and node2 are present, byte-identical
    let included = vec![digests[1], digests[2], digests[4]];
    let excluded = vec![digests[0], digests[3], digests[5]];
    for d in &included {
        assert!(destination.contains_key(d));
        assert!(nodes_equal(&source, &destination, d));
    }
    for d in &excluded {
        assert!(!destination.contains_key(d));
    }
    assert_eq!(destination.entries.len(), included.len());
}

#[test]
fn copy_twice_changes_nothing() {
    let (digests, source) = create_data();
    let mut destination: DigestMap<TrieNode> = DigestMap::new();
    let root = digests[3];

    copy_state_root(&root, &source, &mut destination).unwrap();
    let after_first: Vec<(Digest, TrieNode)> = destination
        .entries
        .iter()
        .map(|(d, n)| {
            (
                *d,
                match source.get(d) {
                    Some(_) => casper_db_utils::clone_node(n),
                    None => panic!("unexpected digest"),
                },
            )
        })
        .collect();

    // the second call succeeds and changes nothing
    copy_state_root(&root, &source, &mut destination).unwrap();
    assert_eq!(destination.entries.len(), after_first.len());
    for (d, n) in &after_first {
        assert_eq!(destination.get(d), Some(n));
    }
}

#[test]
fn copy_resumes_after_partial_copy() {
    let (digests, source) = create_data();

    // a partial state holding only the closed subtree under node2, as a
    // commit boundary would leave it
    let mut destination: DigestMap<TrieNode> = DigestMap::new();
    let sub_root = digests[4];
    copy_state_root(&sub_root, &source, &mut destination).unwrap();
    assert_eq!(destination.entries.len(), 3);

    // rerunning from the full root completes the closure exactly
    let root = digests[3];
    copy_state_root(&root, &source, &mut destination).unwrap();
    for d in &digests {
        assert!(destination.contains_key(d));
        assert!(nodes_equal(&source, &destination, d));
    }
    assert_eq!(destination.entries.len(), 6);
}

#[test]
fn copy_missing_root_fails() {
    let (_digests, source) = create_data();
    let mut destination: DigestMap<TrieNode> = DigestMap::new();
    let absent = digest(99);
    match copy_state_root(&absent, &source, &mut destination) {
        Err(CopyError::MissingTrieNode(d)) => assert!(d == absent),
        Ok(()) => panic!("copy of a missing root unexpectedly succeeded"),
    }
    assert_eq!(destination.entries.len(), 0);
}

#[test]
fn copy_missing_child_fails_without_writing() {
    // a dangling branch: node1 points at a leaf that is not stored
    let d_node = digest(1);
    let d_present = digest(2);
    let d_absent = digest(3);
    let mut source: DigestMap<TrieNode> = DigestMap::new();
    source.insert(
        d_node,
        branch(vec![(0, leaf_ptr(d_present)), (1, leaf_ptr(d_absent))]),
    );
    source.insert(d_present, leaf(vec![0u8], b"present".to_vec()));

    let mut destination: DigestMap<TrieNode> = DigestMap::new();
    match copy_state_root(&d_node, &source, &mut destination) {
        Err(CopyError::MissingTrieNode(d)) => assert!(d == d_absent),
        Ok(()) => panic!("copy with a missing child unexpectedly succeeded"),
    }
    // the failed call left the destination untouched
    assert_eq!(destination.entries.len(), 0);
}
