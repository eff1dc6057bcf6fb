use merkle_store::digest::{compress, Digest, InnerNodeInfo};
use merkle_store::empty::empty_chain;
use merkle_store::index::{MerkleError, NodeIndex};
use merkle_store::path::{MerklePath, MerklePathSet, ValuePath};
use merkle_store::serial::{read_from, DeserializationError};
use merkle_store::store::{MerkleStore, RecordingMerkleStore};

fn leaf(v: u64) -> Digest {
    Digest { w0: v, w1: 0, w2: 0, w3: 0 }
}

/// Builds a balanced 8-leaf tree: returns its root and its 7 inner nodes.
fn tree8(leaves: &[Digest; 8]) -> (Digest, Vec<InnerNodeInfo>) {
    let mut infos = Vec::new();
    let mut lvl: Vec<Digest> = leaves.to_vec();
    while lvl.len() > 1 {
        let mut next = Vec::new();
        for i in 0..lvl.len() / 2 {
            let l = lvl[2 * i];
            let r = lvl[2 * i + 1];
            let p = compress(&l, &r);
            infos.push(InnerNodeInfo { value: p, left: l, right: r });
            next.push(p);
        }
        lvl = next;
    }
    (lvl[0], infos)
}

fn leaves0() -> [Digest; 8] {
    [leaf(1), leaf(2), leaf(3), leaf(4), leaf(5), leaf(6), leaf(7), leaf(8)]
}

fn leaves1() -> [Digest; 8] {
    [leaf(1), leaf(2), leaf(3), leaf(4), leaf(5), leaf(6), leaf(7), leaf(9)]
}

fn idx(depth: u8, value: u64) -> NodeIndex {
    NodeIndex::new(depth, value).unwrap()
}

#[test]
fn new_store_holds_bootstrap_entries() {
    let store = MerkleStore::new();
    assert_eq!(store.num_internal_nodes(), 255);
}

#[test]
fn default_digest_is_zero() {
    assert_eq!(Digest::default(), leaf(0));
}

#[test]
fn dedup_shared_subtrees() {
    let mut store = MerkleStore::new();
    assert_eq!(store.num_internal_nodes(), 255);
    let (root0, t0) = tree8(&leaves0());
    let (root1, t1) = tree8(&leaves1());
    store.extend(t0);
    store.extend(t1);
    // the two trees have 14 nodes in all, but only 10 unique ones
    assert_eq!(store.num_internal_nodes() - 255, 10);
    // every leaf except the last is the same in both trees
    for i in 0..7 {
        let d0 = store.get_node(root0, idx(3, i)).unwrap();
        let d1 = store.get_node(root1, idx(3, i)).unwrap();
        assert_eq!(d0, d1);
    }
    // the first four leaves share their two lowest sibling levels
    for i in 0..4 {
        let p0 = store.get_path(root0, idx(3, i)).unwrap();
        let p1 = store.get_path(root1, idx(3, i)).unwrap();
        assert_eq!(p0.path.siblings[0], p1.path.siblings[0]);
        assert_eq!(p0.path.siblings[1], p1.path.siblings[1]);
    }
    // leaves read back as supplied
    for i in 0..8 {
        assert_eq!(store.get_node(root0, idx(3, i)).unwrap(), leaves0()[i as usize]);
        assert_eq!(store.get_node(root1, idx(3, i)).unwrap(), leaves1()[i as usize]);
    }
}

#[test]
fn get_path_round_trip() {
    let mut store = MerkleStore::new();
    let (root0, t0) = tree8(&leaves0());
    store.extend(t0);
    for i in 0..8 {
        let vp = store.get_path(root0, idx(3, i)).unwrap();
        let mut cur = vp.value;
        let mut v = i;
        for s in &vp.path.siblings {
            cur = if v & 1 == 0 { compress(&cur, s) } else { compress(s, &cur) };
            v >>= 1;
        }
        assert_eq!(cur, root0);
    }
}

#[test]
fn set_node_noop_keeps_root_and_count() {
    let mut store = MerkleStore::new();
    let (root0, t0) = tree8(&leaves0());
    store.extend(t0);
    let before = store.num_internal_nodes();
    let vp = store.get_path(root0, idx(3, 2)).unwrap();
    let rp = store.set_node(root0, idx(3, 2), vp.value).unwrap();
    assert_eq!(rp.root, root0);
    assert_eq!(store.num_internal_nodes(), before);
}

#[test]
fn set_node_updates_leaf() {
    let mut store = MerkleStore::new();
    let (root0, t0) = tree8(&leaves0());
    store.extend(t0);
    let rp = store.set_node(root0, idx(3, 2), leaf(42)).unwrap();
    assert_ne!(rp.root, root0);
    assert_eq!(store.get_node(rp.root, idx(3, 2)).unwrap(), leaf(42));
    // the sibling leaves are untouched
    assert_eq!(store.get_node(rp.root, idx(3, 3)).unwrap(), leaf(4));
    // the old tree is still present
    assert_eq!(store.get_node(root0, idx(3, 2)).unwrap(), leaf(3));
}

#[test]
fn merge_roots_children() {
    let mut store = MerkleStore::new();
    let l = leaf(100);
    let r = leaf(200);
    let parent = store.merge_roots(l, r).unwrap();
    assert_eq!(parent, compress(&l, &r));
    assert_eq!(store.get_node(parent, idx(1, 0)).unwrap(), l);
    assert_eq!(store.get_node(parent, idx(1, 1)).unwrap(), r);
}

#[test]
fn subset_contains_reachable_only() {
    let mut store = MerkleStore::new();
    let (root0, t0) = tree8(&leaves0());
    let (root1, t1) = tree8(&leaves1());
    store.extend(t0);
    store.extend(t1);
    let mut sub = store.subset(&vec![root0]);
    // everything under root0 is present
    for i in 0..8 {
        assert_eq!(sub.get_node(root0, idx(3, i)).unwrap(), leaves0()[i as usize]);
    }
    // the other tree's root is not, so its lookups fail
    assert!(matches!(
        sub.get_node(root1, idx(3, 7)),
        Err(MerkleError::RootNotInStore(_))
    ));
    // a root absent from the source is silently skipped
    let ghost_root = leaf(12345);
    let mut sub2 = store.subset(&vec![ghost_root]);
    assert!(matches!(
        sub2.get_node(ghost_root, idx(3, 0)),
        Err(MerkleError::RootNotInStore(_))
    ));
}

#[test]
fn recording_replay_is_sound() {
    let mut store = MerkleStore::new();
    let (root0, t0) = tree8(&leaves0());
    store.extend(t0);
    let mut rec: RecordingMerkleStore = store.into_recording();
    // read one leaf and one opening
    let d0 = rec.get_node(root0, idx(3, 0)).unwrap();
    let p1 = rec.get_path(root0, idx(3, 1)).unwrap();
    let proof_map = rec.into_proof();
    let mut small = MerkleStore::from_map(proof_map);
    // replaying the same reads gives identical results
    assert_eq!(small.get_node(root0, idx(3, 0)).unwrap(), d0);
    let p2 = small.get_path(root0, idx(3, 1)).unwrap();
    assert_eq!(p2.value, p1.value);
    assert_eq!(p2.path.siblings, p1.path.siblings);
    // a read not originally performed fails against the exported subset
    assert!(matches!(
        small.get_node(root0, idx(3, 7)),
        Err(MerkleError::NodeNotInStore(_, _))
    ));
}

#[test]
fn leaf_depth_on_all_empty_root() {
    let mut store = MerkleStore::new();
    let chain = empty_chain(64);
    for t in 1..=64u8 {
        let d = store.get_leaf_depth(chain[t as usize], t, 0).unwrap();
        assert_eq!(d, 0);
    }
    // depth zero returns zero with no traversal at all
    assert_eq!(store.get_leaf_depth(leaf(7), 0, 0).unwrap(), 0);
}

#[test]
fn leaf_depth_rejects_depth_over_max() {
    let mut store = MerkleStore::new();
    let (root0, t0) = tree8(&leaves0());
    store.extend(t0);
    assert_eq!(
        store.get_leaf_depth(root0, 65, 0),
        Err(MerkleError::DepthTooBig(65))
    );
    assert_eq!(
        store.get_leaf_depth(root0, 255, 0),
        Err(MerkleError::DepthTooBig(255))
    );
}

#[test]
fn leaf_depth_finds_real_leaves() {
    let mut store = MerkleStore::new();
    let (root0, t0) = tree8(&leaves0());
    store.extend(t0);
    // each leaf of the tree sits at depth 3 of an 8-leaf tree
    for i in 0..8 {
        assert_eq!(store.get_leaf_depth(root0, 3, i).unwrap(), 3);
    }
    // declaring the tree shallower than it is fails
    assert_eq!(
        store.get_leaf_depth(root0, 2, 0),
        Err(MerkleError::DepthTooBig(3))
    );
}

#[test]
fn error_cases() {
    let mut store = MerkleStore::new();
    let (root0, t0) = tree8(&leaves0());
    store.extend(t0);
    // unknown root
    assert!(matches!(
        store.get_node(leaf(999), idx(0, 0)),
        Err(MerkleError::RootNotInStore(_))
    ));
    // traversal past a leaf
    assert!(matches!(
        store.get_node(root0, idx(4, 0)),
        Err(MerkleError::NodeNotInStore(_, _))
    ));
    // index construction errors
    assert_eq!(NodeIndex::new(65, 0), Err(MerkleError::DepthTooBig(65)));
    assert_eq!(
        NodeIndex::new(3, 8),
        Err(MerkleError::InvalidIndex { depth: 3, value: 8 })
    );
    assert!(NodeIndex::new(3, 7).is_ok());
    assert!(NodeIndex::new(64, u64::MAX).is_ok());
}

#[test]
fn add_merkle_path_rebuilds_root() {
    let mut full = MerkleStore::new();
    let (root0, t0) = tree8(&leaves0());
    full.extend(t0);
    let vp = full.get_path(root0, idx(3, 5)).unwrap();
    let mut fresh = MerkleStore::new();
    let got = fresh
        .add_merkle_path(5, vp.value, MerklePath::new(vp.path.siblings.clone()))
        .unwrap();
    assert_eq!(got, root0);
    assert_eq!(fresh.get_node(root0, idx(3, 5)).unwrap(), leaves0()[5]);
}

#[test]
fn add_merkle_path_rejects_bad_index() {
    let mut store = MerkleStore::new();
    // a 3-level path cannot open position 8
    let path = MerklePath::new(vec![leaf(1), leaf(2), leaf(3)]);
    assert_eq!(
        store.add_merkle_path(8, leaf(0), path),
        Err(MerkleError::InvalidIndex { depth: 3, value: 8 })
    );
}

#[test]
fn add_merkle_paths_batch() {
    let mut full = MerkleStore::new();
    let (root0, t0) = tree8(&leaves0());
    full.extend(t0);
    let vp2 = full.get_path(root0, idx(3, 2)).unwrap();
    let vp6 = full.get_path(root0, idx(3, 6)).unwrap();
    let mut fresh = MerkleStore::new();
    fresh
        .add_merkle_paths(vec![
            (2, vp2.value, MerklePath::new(vp2.path.siblings.clone())),
            (6, vp6.value, MerklePath::new(vp6.path.siblings.clone())),
        ])
        .unwrap();
    assert_eq!(fresh.get_node(root0, idx(3, 2)).unwrap(), leaves0()[2]);
    assert_eq!(fresh.get_node(root0, idx(3, 6)).unwrap(), leaves0()[6]);
}

#[test]
fn add_merkle_path_set_returns_advertised_root() {
    let mut full = MerkleStore::new();
    let (root0, t0) = tree8(&leaves0());
    full.extend(t0);
    let vp = full.get_path(root0, idx(3, 4)).unwrap();
    let set = MerklePathSet {
        root: root0,
        paths: vec![(
            4,
            ValuePath {
                value: vp.value,
                path: MerklePath::new(vp.path.siblings.clone()),
            },
        )],
    };
    let mut fresh = MerkleStore::new();
    assert_eq!(fresh.add_merkle_path_set(&set).unwrap(), root0);
    assert_eq!(fresh.get_node(root0, idx(3, 4)).unwrap(), leaves0()[4]);
}

#[test]
fn serialization_round_trip() {
    let mut store = MerkleStore::new();
    let (root0, t0) = tree8(&leaves0());
    store.extend(t0);
    let mut bytes: Vec<u8> = Vec::new();
    store.write_into(&mut bytes);
    assert_eq!(bytes.len(), 8 + 96 * store.num_internal_nodes());
    let mut decoded = read_from(&bytes).unwrap();
    assert_eq!(decoded.num_internal_nodes(), store.num_internal_nodes());
    for i in 0..8 {
        assert_eq!(decoded.get_node(root0, idx(3, i)).unwrap(), leaves0()[i as usize]);
    }
}

#[test]
fn deserialization_is_strict_on_truncation() {
    let mut store = MerkleStore::new();
    let mut bytes: Vec<u8> = Vec::new();
    store.write_into(&mut bytes);
    bytes.truncate(bytes.len() - 1);
    assert!(matches!(read_from(&bytes), Err(DeserializationError::UnexpectedEnd)));
    assert!(matches!(read_from(&vec![1, 2, 3]), Err(DeserializationError::UnexpectedEnd)));
}

#[test]
fn inner_nodes_enumerates_the_table() {
    let mut store = MerkleStore::new();
    let (root0, t0) = tree8(&leaves0());
    store.extend(t0.clone());
    let infos = store.inner_nodes();
    assert_eq!(infos.len(), store.num_internal_nodes());
    for want in &t0 {
        assert!(infos.iter().any(|i| i.value == want.value
            && i.left == want.left
            && i.right == want.right));
    }
    let _ = root0;
}

#[test]
fn from_inner_nodes_combines_with_bootstrap() {
    let (root0, t0) = tree8(&leaves0());
    let mut store: MerkleStore = MerkleStore::from_inner_nodes(t0);
    assert_eq!(store.num_internal_nodes(), 255 + 7);
    assert_eq!(store.get_node(root0, idx(3, 0)).unwrap(), leaf(1));
}

#[test]
fn depth_zero_lookup_returns_root() {
    let mut store = MerkleStore::new();
    let (root0, t0) = tree8(&leaves0());
    store.extend(t0);
    assert_eq!(store.get_node(root0, idx(0, 0)).unwrap(), root0);
    let vp = store.get_path(root0, idx(0, 0)).unwrap();
    assert_eq!(vp.value, root0);
    assert_eq!(vp.path.siblings.len(), 0);
}
