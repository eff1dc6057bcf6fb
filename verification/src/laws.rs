//! The store's cross-operation guarantees, stated and proved over the same
//! specification functions its operations' contracts use.

use vstd::prelude::*;
use crate::digest::{hash_consistent, spec_compress, Digest, Node};
use crate::empty::empty_digest;
use crate::index::{index_valid, MerkleError, NodeIndex};
use crate::path::{chain_value, lemma_chain_value_push};
use crate::store::{
    lemma_get_path_rec_len, spec_get_leaf_depth, spec_get_node, spec_get_node_rec, spec_get_path,
    spec_get_path_rec,
};

verus! {

proof fn lemma_round_trip_rec(m: Map<Digest, Node>, index: NodeIndex, hash: Digest, i: nat)
    requires
        hash_consistent(m),
        i <= 64,
        spec_get_path_rec(m, index, hash, i) is Ok,
    ensures
        ({
            let p = spec_get_path_rec(m, index, hash, i)->Ok_0;
            chain_value(p.0, index.value, p.1) == hash
        }),
    decreases i,
{
    if i == 0 {
    } else {
        let node = m[hash];
        let bit = (index.value >> ((i - 1) as u64)) & 1;
        let next = if bit == 0 {
            node.left
        } else {
            node.right
        };
        let sib = if bit == 0 {
            node.right
        } else {
            node.left
        };
        lemma_round_trip_rec(m, index, next, (i - 1) as nat);
        let p = spec_get_path_rec(m, index, next, (i - 1) as nat)->Ok_0;
        lemma_get_path_rec_len(m, index, next, (i - 1) as nat);
        lemma_chain_value_push(p.0, index.value, p.1, sib);
        assert(chain_value(p.0, index.value, p.1.push(sib)) == (if bit == 0 {
            spec_compress(next, sib)
        } else {
            spec_compress(sib, next)
        }));
        assert(hash == spec_compress(node.left, node.right));
    }
}

/// Round trip: combining the digests along a successful opening with the
/// returned value, bottom up, reproduces the root — wherever every stored
/// key is consistent with its children.
pub proof fn lemma_get_path_round_trip(m: Map<Digest, Node>, root: Digest, index: NodeIndex)
    requires
        hash_consistent(m),
        index.wf(),
        spec_get_path(m, root, index) is Ok,
    ensures
        ({
            let p = spec_get_path(m, root, index)->Ok_0;
            chain_value(p.0, index.value, p.1) == root
        }),
{
    lemma_round_trip_rec(m, index, root, index.depth as nat);
}

/// Merge primitive: after merging two digests, the two depth-one positions
/// under the combined digest hold exactly the two children merged.
pub proof fn lemma_merge_roots_children(m: Map<Digest, Node>, l: Digest, r: Digest)
    ensures
        ({
            let parent = spec_compress(l, r);
            let m1 = m.insert(parent, Node { left: l, right: r });
            spec_get_node(m1, parent, NodeIndex { depth: 1, value: 0 }) == Ok::<
                Digest,
                MerkleError,
            >(l) && spec_get_node(m1, parent, NodeIndex { depth: 1, value: 1 }) == Ok::<
                Digest,
                MerkleError,
            >(r)
        }),
{
    let parent = spec_compress(l, r);
    let m1 = m.insert(parent, Node { left: l, right: r });
    assert((0u64 >> 0u64) & 1 == 0) by (bit_vector);
    assert((1u64 >> 0u64) & 1 == 1) by (bit_vector);
    assert(spec_get_node_rec(m1, NodeIndex { depth: 1, value: 0 }, l, 0) == Ok::<
        Digest,
        MerkleError,
    >(l));
    assert(spec_get_node_rec(m1, NodeIndex { depth: 1, value: 1 }, r, 0) == Ok::<
        Digest,
        MerkleError,
    >(r));
}

proof fn lemma_get_node_monotone_rec(
    small: Map<Digest, Node>,
    big: Map<Digest, Node>,
    index: NodeIndex,
    hash: Digest,
    i: nat,
)
    requires
        small.submap_of(big),
        spec_get_node_rec(small, index, hash, i) is Ok,
    ensures
        spec_get_node_rec(big, index, hash, i) == spec_get_node_rec(small, index, hash, i),
    decreases i,
{
    if i > 0 {
        let node = small[hash];
        let next = if (index.value >> ((i - 1) as u64)) & 1 == 0 {
            node.left
        } else {
            node.right
        };
        lemma_get_node_monotone_rec(small, big, index, next, (i - 1) as nat);
    }
}

/// Recording soundness, lookup half: a lookup that succeeds against a map —
/// such as an exported read history — returns the same digest against any
/// larger map, so replaying it against the full store, or against any store
/// holding the exported entries, agrees.
pub proof fn lemma_get_node_monotone(
    small: Map<Digest, Node>,
    big: Map<Digest, Node>,
    root: Digest,
    index: NodeIndex,
)
    requires
        small.submap_of(big),
        spec_get_node(small, root, index) is Ok,
    ensures
        spec_get_node(big, root, index) == spec_get_node(small, root, index),
{
    lemma_get_node_monotone_rec(small, big, index, root, index.depth as nat);
}

proof fn lemma_get_path_monotone_rec(
    small: Map<Digest, Node>,
    big: Map<Digest, Node>,
    index: NodeIndex,
    hash: Digest,
    i: nat,
)
    requires
        small.submap_of(big),
        spec_get_path_rec(small, index, hash, i) is Ok,
    ensures
        spec_get_path_rec(big, index, hash, i) == spec_get_path_rec(small, index, hash, i),
    decreases i,
{
    if i > 0 {
        let node = small[hash];
        let bit = (index.value >> ((i - 1) as u64)) & 1;
        let next = if bit == 0 {
            node.left
        } else {
            node.right
        };
        lemma_get_path_monotone_rec(small, big, index, next, (i - 1) as nat);
    }
}

/// Recording soundness, opening half: an opening that succeeds against a
/// map returns the same value and siblings against any larger map.
pub proof fn lemma_get_path_monotone(
    small: Map<Digest, Node>,
    big: Map<Digest, Node>,
    root: Digest,
    index: NodeIndex,
)
    requires
        small.submap_of(big),
        spec_get_path(small, root, index) is Ok,
    ensures
        spec_get_path(big, root, index) == spec_get_path(small, root, index),
{
    lemma_get_path_monotone_rec(small, big, index, root, index.depth as nat);
}

/// Depth reconstruction boundary, empty half: on a root that is the
/// canonical all-empty digest of the tree's own depth, reconstruction stops
/// at depth zero for every position, provided the root is a held key.
pub proof fn lemma_leaf_depth_all_empty(m: Map<Digest, Node>, t: nat, index: u64)
    requires
        t <= 64,
        index_valid(t, index),
        t > 0 ==> m.contains_key(empty_digest(t)),
    ensures
        spec_get_leaf_depth(m, empty_digest(t), t, index) == Ok::<u8, MerkleError>(0u8),
{
}

/// Depth reconstruction boundary, overflow half: a nominal depth over the
/// maximum always fails `DepthTooBig`, whatever the store holds.
pub proof fn lemma_leaf_depth_too_big(m: Map<Digest, Node>, root: Digest, t: nat, index: u64)
    requires
        t > 64,
    ensures
        spec_get_leaf_depth(m, root, t, index) == Err::<u8, MerkleError>(
            MerkleError::DepthTooBig(t as u64),
        ),
{
}

} // verus!
