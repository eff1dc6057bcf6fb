//! The node store: lookup, path opening, depth reconstruction, the mutating
//! operations that preserve deduplication, and subset extraction.

use vstd::prelude::*;
use crate::backend::{
    insert_all, seq_to_map, MerkleMap, MerkleMapT, RecordingMerkleMap,
};
use crate::digest::{compress, hash_consistent, spec_compress, Digest, InnerNodeInfo, Node};
use crate::empty::{bootstrap, bootstrap_upto, empty_chain, empty_digest, empty_hashes, empty_node, EMPTY_CHAIN_DEPTH};
use crate::index::{index_valid, MerkleError, NodeIndex};
use crate::reach::{copy_closed, lemma_closed_complete, lemma_closed_extend, lemma_reaches_self, lemma_reaches_step, reaches, reaches_within};
use crate::path::{chain_map, chain_value, lemma_chain_map_consistent, MerklePath, MerklePathSet, RootPath, ValuePath};

verus! {

/// Traversal from `hash` down `i` more levels, reading bits of the position
/// from the most significant (closest to the root) to the least.
pub open spec fn spec_get_node_rec(
    m: Map<Digest, Node>,
    index: NodeIndex,
    hash: Digest,
    i: nat,
) -> Result<Digest, MerkleError>
    decreases i,
{
    if i == 0 {
        Ok(hash)
    } else if !m.contains_key(hash) {
        Err(MerkleError::NodeNotInStore(hash, index))
    } else {
        let node = m[hash];
        let next = if (index.value >> ((i - 1) as u64)) & 1 == 0 {
            node.left
        } else {
            node.right
        };
        spec_get_node_rec(m, index, next, (i - 1) as nat)
    }
}

/// What looking the position `index` up under `root` returns against the
/// map `m`: the digest at that position, or the first failure met.
pub open spec fn spec_get_node(m: Map<Digest, Node>, root: Digest, index: NodeIndex) -> Result<
    Digest,
    MerkleError,
> {
    if !m.contains_key(root) {
        Err(MerkleError::RootNotInStore(root))
    } else {
        spec_get_node_rec(m, index, root, index.depth as nat)
    }
}

/// Like `spec_get_node_rec`, but also collects the sibling not taken at each
/// level, ordered from the queried position's sibling up toward the root.
pub open spec fn spec_get_path_rec(
    m: Map<Digest, Node>,
    index: NodeIndex,
    hash: Digest,
    i: nat,
) -> Result<(Digest, Seq<Digest>), MerkleError>
    decreases i,
{
    if i == 0 {
        Ok((hash, Seq::empty()))
    } else if !m.contains_key(hash) {
        Err(MerkleError::NodeNotInStore(hash, index))
    } else {
        let node = m[hash];
        let bit = (index.value >> ((i - 1) as u64)) & 1;
        let next = if bit == 0 {
            node.left
        } else {
            node.right
        };
        let sib = if bit == 0 {
            node.right
        } else {
            node.left
        };
        match spec_get_path_rec(m, index, next, (i - 1) as nat) {
            Ok(p) => Ok((p.0, p.1.push(sib))),
            Err(e) => Err(e),
        }
    }
}

/// What opening the position `index` under `root` returns against `m`: the
/// digest reached and the sibling path, leaf side first.
pub open spec fn spec_get_path(m: Map<Digest, Node>, root: Digest, index: NodeIndex) -> Result<
    (Digest, Seq<Digest>),
    MerkleError,
> {
    if !m.contains_key(root) {
        Err(MerkleError::RootNotInStore(root))
    } else {
        spec_get_path_rec(m, index, root, index.depth as nat)
    }
}

/// The root an inserted chain produces: the combined digest, or the all-zero
/// digest for an empty path.
pub open spec fn spec_add_root(value: Digest, index: u64, path: Seq<Digest>) -> Digest {
    if path.len() == 0 {
        Digest::spec_default()
    } else {
        chain_value(value, index, path)
    }
}

/// The error a malformed `(index, path)` pair raises.
pub open spec fn spec_path_error(index: u64, len: nat) -> MerkleError {
    if len > 64 {
        MerkleError::DepthTooBig(len as u64)
    } else {
        MerkleError::InvalidIndex { depth: len as u8, value: index }
    }
}

/// An in-memory, deduplicated store of Merkle internal nodes, generic over
/// the backend map that holds them.
pub struct GenericMerkleStore<T: MerkleMapT> {
    nodes: T,
}

/// The standard store, over the plain backend.
pub type MerkleStore = GenericMerkleStore<MerkleMap>;

/// The store with recording capabilities, over the recording backend.
pub type RecordingMerkleStore = GenericMerkleStore<RecordingMerkleMap>;

impl<T: MerkleMapT> GenericMerkleStore<T> {
    /// The key-to-node map held.
    pub closed spec fn nodes_map(&self) -> Map<Digest, Node> {
        self.nodes.data()
    }

    /// The read history accumulated, empty on a plain backend.
    pub closed spec fn recorded_map(&self) -> Map<Digest, Node> {
        self.nodes.recorded()
    }

    /// The store's internal well-formedness.
    pub closed spec fn inv(&self) -> bool {
        self.nodes.inv()
    }

    /// The held map is finite.
    pub proof fn lemma_inv(&self)
        requires
            self.inv(),
        ensures
            self.nodes_map().dom().finite(),
            self.recorded_map().dom().finite(),
    {
        self.nodes.lemma_inv();
    }

    /// Creates an empty store, pre-populated with the empty-subtree entries.
    pub fn new() -> (r: GenericMerkleStore<T>)
        ensures
            r.inv(),
            r.nodes_map() == bootstrap(),
            r.recorded_map() == Map::<Digest, Node>::empty(),
    {
        let eh = empty_hashes();
        proof {
            lemma_empty_hashes_map(eh@, EMPTY_CHAIN_DEPTH as nat);
            assert(eh@.take(EMPTY_CHAIN_DEPTH as int) =~= eh@);
        }
        GenericMerkleStore { nodes: T::from_entries(eh) }
    }

    /// A count of the nodes held, the bootstrap entries included.
    pub fn num_internal_nodes(&self) -> (n: usize)
        requires
            self.inv(),
        ensures
            n == self.nodes_map().dom().len(),
    {
        self.nodes.len()
    }

    /// Returns the node at `index` rooted on the tree `root`, or
    /// `RootNotInStore` when the root is unknown, or `NodeNotInStore` when
    /// traversal meets a digest with no recorded children. On a recording
    /// backend the nodes read are noted, and a successful lookup can be
    /// replayed against the history alone.
    pub fn get_node(&mut self, root: Digest, index: NodeIndex) -> (r: Result<Digest, MerkleError>)
        requires
            old(self).inv(),
            index.wf(),
        ensures
            final(self).inv(),
            final(self).nodes_map() == old(self).nodes_map(),
            r == spec_get_node(old(self).nodes_map(), root, index),
            !T::records() ==> final(self).recorded_map() == old(self).recorded_map(),
            T::records() ==> old(self).recorded_map().submap_of(final(self).recorded_map()),
            T::records() && old(self).recorded_map().submap_of(old(self).nodes_map())
                ==> final(self).recorded_map().submap_of(old(self).nodes_map()),
            T::records() && old(self).recorded_map().submap_of(old(self).nodes_map()) && r is Ok
                ==> spec_get_node(final(self).recorded_map(), root, index) == r,
    {
        let ghost m = old(self).nodes_map();
        let ghost rec0 = old(self).recorded_map();
        let ghost replayable = T::records() && rec0.submap_of(m);
        let mut hash = root;
        if self.nodes.get(&hash).is_none() {
            return Err(MerkleError::RootNotInStore(hash));
        }
        proof {
            if replayable {
                assert(self.nodes.recorded().submap_of(m));
                assert(self.nodes.recorded().contains_key(root)
                    && self.nodes.recorded()[root] == m[root]);
            }
        }
        let depth = index.depth;
        let mut i: u8 = depth;
        while i > 0
            invariant
                m == old(self).nodes_map(),
                rec0 == old(self).recorded_map(),
                replayable == (T::records() && rec0.submap_of(m)),
                self.inv(),
                self.nodes.data() == m,
                index.wf(),
                i <= depth,
                depth == index.depth,
                m.contains_key(root),
                spec_get_node_rec(m, index, root, depth as nat) == spec_get_node_rec(
                    m,
                    index,
                    hash,
                    i as nat,
                ),
                !T::records() ==> self.nodes.recorded() == rec0,
                T::records() ==> rec0.submap_of(self.nodes.recorded()),
                replayable ==> self.nodes.recorded().submap_of(m),
                replayable ==> self.nodes.recorded().contains_key(root)
                    && self.nodes.recorded()[root] == m[root],
                replayable ==> forall|mm: Map<Digest, Node>|
                    #[trigger] self.nodes.recorded().submap_of(mm) ==> spec_get_node_rec(
                        mm,
                        index,
                        root,
                        depth as nat,
                    ) == spec_get_node_rec(mm, index, hash, i as nat),
            decreases i,
        {
            let ghost rec_prev = self.nodes.recorded();
            let ghost hash_prev = hash;
            let node = match self.nodes.get(&hash) {
                Some(n) => n,
                None => {
                    return Err(MerkleError::NodeNotInStore(hash, index));
                },
            };
            let bit = (index.value >> ((i - 1) as u64)) & 1;
            hash = if bit == 0 {
                node.left
            } else {
                node.right
            };
            proof {
                if replayable {
                    assert(self.nodes.recorded().contains_key(hash_prev)
                        && self.nodes.recorded()[hash_prev] == m[hash_prev]);
                    assert forall|mm: Map<Digest, Node>|
                        #[trigger] self.nodes.recorded().submap_of(mm) implies spec_get_node_rec(
                        mm,
                        index,
                        root,
                        depth as nat,
                    ) == spec_get_node_rec(mm, index, hash, (i - 1) as nat) by {
                        assert(rec_prev.submap_of(self.nodes.recorded()));
                        vstd::map_lib::lemma_submap_of_trans(rec_prev, self.nodes.recorded(), mm);
                        assert(rec_prev.submap_of(mm));
                        assert(mm.contains_key(hash_prev) && mm[hash_prev] == m[hash_prev]);
                        assert(spec_get_node_rec(mm, index, hash_prev, i as nat)
                            == spec_get_node_rec(mm, index, hash, (i - 1) as nat));
                    }
                }
            }
            i = i - 1;
        }
        proof {
            if replayable {
                assert(self.nodes.recorded().submap_of(self.nodes.recorded()));
            }
        }
        Ok(hash)
    }

    /// Returns the node at `index` and its opening to `root`: the digest
    /// reached and the sibling at each level, starting at the sibling of the
    /// target position. Errors as `get_node`. On a recording backend a
    /// successful opening can be replayed against the history alone.
    pub fn get_path(&mut self, root: Digest, index: NodeIndex) -> (r: Result<
        ValuePath,
        MerkleError,
    >)
        requires
            old(self).inv(),
            index.wf(),
        ensures
            final(self).inv(),
            final(self).nodes_map() == old(self).nodes_map(),
            r matches Ok(vp) ==> spec_get_path(old(self).nodes_map(), root, index) == Ok::<
                (Digest, Seq<Digest>),
                MerkleError,
            >((vp.value, vp.path@)),
            r matches Err(e) ==> spec_get_path(old(self).nodes_map(), root, index) == Err::<
                (Digest, Seq<Digest>),
                MerkleError,
            >(e),
            !T::records() ==> final(self).recorded_map() == old(self).recorded_map(),
            T::records() ==> old(self).recorded_map().submap_of(final(self).recorded_map()),
            T::records() && old(self).recorded_map().submap_of(old(self).nodes_map())
                ==> final(self).recorded_map().submap_of(old(self).nodes_map()),
            T::records() && old(self).recorded_map().submap_of(old(self).nodes_map()) ==> (r
                matches Ok(vp) ==> spec_get_path(final(self).recorded_map(), root, index) == Ok::<
                (Digest, Seq<Digest>),
                MerkleError,
            >((vp.value, vp.path@))),
    {
        let ghost m = old(self).nodes_map();
        let ghost rec0 = old(self).recorded_map();
        let ghost replayable = T::records() && rec0.submap_of(m);
        let mut hash = root;
        let mut acc: Vec<Digest> = Vec::new();
        if self.nodes.get(&hash).is_none() {
            return Err(MerkleError::RootNotInStore(hash));
        }
        proof {
            if replayable {
                assert(self.nodes.recorded().submap_of(m));
                assert(self.nodes.recorded().contains_key(root)
                    && self.nodes.recorded()[root] == m[root]);
            }
        }
        let depth = index.depth;
        let mut i: u8 = depth;
        while i > 0
            invariant
                m == old(self).nodes_map(),
                rec0 == old(self).recorded_map(),
                replayable == (T::records() && rec0.submap_of(m)),
                self.inv(),
                self.nodes.data() == m,
                index.wf(),
                i <= depth,
                depth == index.depth,
                m.contains_key(root),
                acc@.len() == depth - i,
                spec_get_path_rec(m, index, root, depth as nat) == path_join(
                    spec_get_path_rec(m, index, hash, i as nat),
                    acc@,
                ),
                !T::records() ==> self.nodes.recorded() == rec0,
                T::records() ==> rec0.submap_of(self.nodes.recorded()),
                replayable ==> self.nodes.recorded().submap_of(m),
                replayable ==> self.nodes.recorded().contains_key(root)
                    && self.nodes.recorded()[root] == m[root],
                replayable ==> forall|mm: Map<Digest, Node>|
                    #[trigger] self.nodes.recorded().submap_of(mm) ==> spec_get_path_rec(
                        mm,
                        index,
                        root,
                        depth as nat,
                    ) == path_join(spec_get_path_rec(mm, index, hash, i as nat), acc@),
            decreases i,
        {
            let ghost rec_prev = self.nodes.recorded();
            let ghost hash_prev = hash;
            let ghost acc_prev = acc@;
            let node = match self.nodes.get(&hash) {
                Some(n) => n,
                None => {
                    return Err(MerkleError::NodeNotInStore(hash, index));
                },
            };
            let bit = (index.value >> ((i - 1) as u64)) & 1;
            let sib = if bit == 0 {
                node.right
            } else {
                node.left
            };
            hash = if bit == 0 {
                node.left
            } else {
                node.right
            };
            acc.push(sib);
            proof {
                lemma_path_join_step(m, index, hash_prev, i as nat, acc_prev);
                if replayable {
                    assert(self.nodes.recorded().contains_key(hash_prev)
                        && self.nodes.recorded()[hash_prev] == m[hash_prev]);
                    assert forall|mm: Map<Digest, Node>|
                        #[trigger] self.nodes.recorded().submap_of(mm) implies spec_get_path_rec(
                        mm,
                        index,
                        root,
                        depth as nat,
                    ) == path_join(spec_get_path_rec(mm, index, hash, (i - 1) as nat), acc@) by {
                        assert(rec_prev.submap_of(self.nodes.recorded()));
                        vstd::map_lib::lemma_submap_of_trans(rec_prev, self.nodes.recorded(), mm);
                        assert(rec_prev.submap_of(mm));
                        assert(mm.contains_key(hash_prev) && mm[hash_prev] == m[hash_prev]);
                        lemma_path_join_step(mm, index, hash_prev, i as nat, acc_prev);
                    }
                }
            }
            i = i - 1;
        }
        // the siblings were collected from the root down, so they are
        // reversed into the conventional leaf-to-root order
        let n = acc.len();
        let mut path: Vec<Digest> = Vec::new();
        let mut j: usize = 0;
        while j < n
            invariant
                n == acc@.len(),
                j <= n,
                path@ =~= acc@.reverse().take(j as int),
            decreases n - j,
        {
            path.push(acc[n - 1 - j]);
            proof {
                assert(acc@.reverse().take(j + 1) =~= acc@.reverse().take(j as int).push(
                    acc@[n - 1 - j],
                ));
            }
            j = j + 1;
        }
        proof {
            assert(path@ =~= acc@.reverse());
            lemma_path_join_ok(m, index, root, depth as nat, hash, acc@);
            if replayable {
                assert(self.nodes.recorded().submap_of(self.nodes.recorded()));
                lemma_path_join_ok(self.nodes.recorded(), index, root, depth as nat, hash, acc@);
            }
        }
        Ok(ValuePath { value: hash, path: MerklePath::new(path) })
    }
}

/// Traversal for depth reconstruction, from depth `d` under a nominal tree
/// depth `t`: stop where the current digest is the canonical empty-subtree
/// digest for the remaining height, or a digest with no recorded children.
pub open spec fn spec_leaf_depth_rec(
    m: Map<Digest, Node>,
    t: nat,
    index: u64,
    hash: Digest,
    d: nat,
) -> Result<u8, MerkleError>
    decreases t - d,
{
    if d >= t {
        if m.contains_key(hash) {
            Err(MerkleError::DepthTooBig((t + 1) as u64))
        } else {
            Ok(t as u8)
        }
    } else if hash == empty_digest((t - d) as nat) {
        Ok(d as u8)
    } else if !m.contains_key(hash) {
        Ok(d as u8)
    } else {
        let node = m[hash];
        let next = if (index >> ((t - d - 1) as u64)) & 1 == 0 {
            node.left
        } else {
            node.right
        };
        spec_leaf_depth_rec(m, t, index, next, (d + 1) as nat)
    }
}

/// What reconstructing the effective depth under `root` returns against `m`:
/// the depth at which traversal stops, or the failure met first.
pub open spec fn spec_get_leaf_depth(m: Map<Digest, Node>, root: Digest, t: nat, index: u64) -> Result<
    u8,
    MerkleError,
> {
    if t > 64 {
        Err(MerkleError::DepthTooBig(t as u64))
    } else if !index_valid(t, index) {
        Err(MerkleError::InvalidIndex { depth: t as u8, value: index })
    } else if t == 0 {
        Ok(0u8)
    } else if !m.contains_key(root) {
        Err(MerkleError::RootNotInStore(root))
    } else {
        spec_leaf_depth_rec(m, t, index, root, 0)
    }
}

impl<T: MerkleMapT> GenericMerkleStore<T> {
    /// Reconstructs a path from `root` until a leaf or empty node and
    /// returns its depth. Fails `DepthTooBig` for a nominal depth over the
    /// maximum, or where structure continues below `tree_depth`; fails
    /// `RootNotInStore` for an unknown root; rejects a position value that
    /// does not fit in `tree_depth` bits.
    pub fn get_leaf_depth(&mut self, root: Digest, tree_depth: u8, index: u64) -> (r: Result<
        u8,
        MerkleError,
    >)
        requires
            old(self).inv(),
        ensures
            final(self).inv(),
            final(self).nodes_map() == old(self).nodes_map(),
            r == spec_get_leaf_depth(old(self).nodes_map(), root, tree_depth as nat, index),
            !T::records() ==> final(self).recorded_map() == old(self).recorded_map(),
            T::records() ==> old(self).recorded_map().submap_of(final(self).recorded_map()),
            T::records() && old(self).recorded_map().submap_of(old(self).nodes_map())
                ==> final(self).recorded_map().submap_of(old(self).nodes_map()),
    {
        let ghost m = old(self).nodes_map();
        let ghost rec0 = old(self).recorded_map();
        let ghost keeps = T::records() && rec0.submap_of(m);
        if tree_depth > 64 {
            return Err(MerkleError::DepthTooBig(tree_depth as u64));
        }
        match NodeIndex::new(tree_depth, index) {
            Err(e) => {
                return Err(e);
            },
            Ok(_) => {},
        }
        if tree_depth == 0 {
            return Ok(0);
        }
        if !self.nodes.contains_key(&root) {
            return Err(MerkleError::RootNotInStore(root));
        }
        let empty = empty_chain(tree_depth);
        let mut hash = root;
        let mut d: u8 = 0;
        while d < tree_depth
            invariant
                m == old(self).nodes_map(),
                rec0 == old(self).recorded_map(),
                keeps == (T::records() && rec0.submap_of(m)),
                self.inv(),
                self.nodes.data() == m,
                0 < tree_depth <= 64,
                d <= tree_depth,
                index_valid(tree_depth as nat, index),
                m.contains_key(root),
                empty@.len() == tree_depth as nat + 1,
                forall|h: int| 0 <= h <= tree_depth as int ==> empty@[h] == empty_digest(h as nat),
                spec_leaf_depth_rec(m, tree_depth as nat, index, root, 0) == spec_leaf_depth_rec(
                    m,
                    tree_depth as nat,
                    index,
                    hash,
                    d as nat,
                ),
                !T::records() ==> self.nodes.recorded() == rec0,
                T::records() ==> rec0.submap_of(self.nodes.recorded()),
                keeps ==> self.nodes.recorded().submap_of(m),
            decreases tree_depth as int - d as int,
        {
            if hash == empty[(tree_depth - d) as usize] {
                return Ok(d);
            }
            let ghost rec_prev = self.nodes.recorded();
            let node = match self.nodes.get(&hash) {
                Some(n) => n,
                None => {
                    return Ok(d);
                },
            };
            proof {
                if T::records() {
                    vstd::map_lib::lemma_submap_of_trans(rec0, rec_prev, self.nodes.recorded());
                }
            }
            let bit = (index >> ((tree_depth - d - 1) as u64)) & 1;
            hash = if bit == 0 {
                node.left
            } else {
                node.right
            };
            d = d + 1;
        }
        if self.nodes.contains_key(&hash) {
            Err(MerkleError::DepthTooBig(tree_depth as u64 + 1))
        } else {
            Ok(tree_depth)
        }
    }

    /// Merges two digests: inserts the node of the pair under their combined
    /// digest and returns it. The children need not themselves be present,
    /// which permits lazy or partial trees.
    pub fn merge_roots(&mut self, left_root: Digest, right_root: Digest) -> (r: Result<
        Digest,
        MerkleError,
    >)
        requires
            old(self).inv(),
        ensures
            final(self).inv(),
            r == Ok::<Digest, MerkleError>(spec_compress(left_root, right_root)),
            final(self).nodes_map() == old(self).nodes_map().insert(
                spec_compress(left_root, right_root),
                Node { left: left_root, right: right_root },
            ),
            final(self).recorded_map() == old(self).recorded_map(),
            hash_consistent(old(self).nodes_map()) ==> hash_consistent(final(self).nodes_map()),
    {
        let parent = compress(&left_root, &right_root);
        self.nodes.insert(parent, Node { left: left_root, right: right_root });
        proof {
            if hash_consistent(old(self).nodes_map()) {
                assert forall|k: Digest| #[trigger] self.nodes.data().contains_key(k) implies k
                    == spec_compress(self.nodes.data()[k].left, self.nodes.data()[k].right) by {
                    if k != parent {
                        assert(old(self).nodes_map().contains_key(k));
                    }
                }
            }
        }
        Ok(parent)
    }

    /// Adds all the nodes of a Merkle path opening to `node` at position
    /// `index`: each ancestor is re-derived by compression and inserted, and
    /// the resulting root returned. Fails with the index-construction error
    /// where the position does not fit the path's depth, inserting nothing.
    pub fn add_merkle_path(&mut self, index: u64, node: Digest, path: MerklePath) -> (r: Result<
        Digest,
        MerkleError,
    >)
        requires
            old(self).inv(),
        ensures
            final(self).inv(),
            final(self).recorded_map() == old(self).recorded_map(),
            index_valid(path@.len(), index) ==> r == Ok::<Digest, MerkleError>(
                spec_add_root(node, index, path@),
            ) && final(self).nodes_map() == chain_map(old(self).nodes_map(), node, index, path@),
            !index_valid(path@.len(), index) ==> r == Err::<Digest, MerkleError>(
                spec_path_error(index, path@.len()),
            ) && final(self).nodes_map() == old(self).nodes_map(),
            hash_consistent(old(self).nodes_map()) ==> hash_consistent(final(self).nodes_map()),
    {
        let len = path.siblings.len();
        if len > 64 {
            return Err(MerkleError::DepthTooBig(len as u64));
        }
        match NodeIndex::new(len as u8, index) {
            Err(e) => {
                return Err(e);
            },
            Ok(_) => {},
        }
        let ghost m0 = old(self).nodes_map();
        let mut value = node;
        let mut idx = index;
        let mut i: usize = 0;
        proof {
            assert(path@.skip(0) =~= path@);
        }
        while i < len
            invariant
                m0 == old(self).nodes_map(),
                self.inv(),
                self.nodes.recorded() == old(self).recorded_map(),
                i <= len,
                len == path@.len(),
                len <= 64,
                chain_value(node, index, path@) == chain_value(value, idx, path@.skip(i as int)),
                chain_map(m0, node, index, path@) == chain_map(
                    self.nodes.data(),
                    value,
                    idx,
                    path@.skip(i as int),
                ),
            decreases len - i,
        {
            let sib = path.siblings[i];
            let l = if idx & 1 == 0 {
                value
            } else {
                sib
            };
            let rr = if idx & 1 == 0 {
                sib
            } else {
                value
            };
            let parent = compress(&l, &rr);
            proof {
                assert(path@.skip(i as int)[0] == path@[i as int]);
                assert(path@.skip(i as int).drop_first() =~= path@.skip(i + 1));
            }
            self.nodes.insert(parent, Node { left: l, right: rr });
            value = parent;
            idx = idx >> 1u64;
            i = i + 1;
        }
        proof {
            assert(path@.skip(len as int) =~= Seq::<Digest>::empty());
            if hash_consistent(m0) {
                lemma_chain_map_consistent(m0, node, index, path@);
            }
        }
        if len == 0 {
            Ok(Digest::default())
        } else {
            Ok(value)
        }
    }
}

impl<T: MerkleMapT> GenericMerkleStore<T> {
    /// Recursively copies the tree under `root` from `source` into this
    /// store. A digest absent from the source is skipped; one already held
    /// is re-inserted with the source's node but not descended into, since
    /// everything under it was copied when it was first met.
    fn clone_tree_from(&mut self, root: Digest, source: &GenericMerkleStore<T>)
        requires
            old(self).inv(),
            source.inv(),
        ensures
            final(self).inv(),
            final(self).recorded_map() == old(self).recorded_map(),
            old(self).nodes_map().dom().subset_of(final(self).nodes_map().dom()),
            forall|k: Digest| #[trigger] final(self).nodes_map().contains_key(k) ==> ((
            source.nodes_map().contains_key(k) && final(self).nodes_map()[k]
                == source.nodes_map()[k] && reaches(
                source.nodes_map(),
                Set::empty(),
                root,
                k,
            )) || (old(self).nodes_map().contains_key(k) && final(self).nodes_map()[k] == old(
                self,
            ).nodes_map()[k])),
            source.nodes_map().contains_key(root) ==> final(self).nodes_map().contains_key(root)
                && final(self).nodes_map()[root] == source.nodes_map()[root],
            copy_closed(source.nodes_map(), old(self).nodes_map().dom(), final(self).nodes_map()),
        decreases source.nodes_map().dom().difference(old(self).nodes_map().dom()).len(),
    {
        let ghost src = source.nodes_map();
        let ghost d0 = old(self).nodes_map();
        proof {
            source.lemma_inv();
            old(self).lemma_inv();
        }
        let node = match source.nodes.peek(&root) {
            None => {
                return ;
            },
            Some(n) => n,
        };
        let prev = self.nodes.insert(root, node);
        proof {
            lemma_reaches_self(src, Set::empty(), root);
        }
        if prev.is_none() {
            let ghost d1 = self.nodes_map();
            proof {
                assert(d1.dom() =~= d0.dom().insert(root));
                src.dom().lemma_set_insert_diff_decreases(d0.dom(), root);
            }
            self.clone_tree_from(node.left, source);
            let ghost d2 = self.nodes_map();
            proof {
                vstd::set_lib::lemma_len_subset(
                    src.dom().difference(d2.dom()),
                    src.dom().difference(d1.dom()),
                );
            }
            self.clone_tree_from(node.right, source);
            let ghost d3 = self.nodes_map();
            proof {
                // every key: a copied, reachable one, or one the call found
                assert forall|k: Digest| #[trigger] d3.contains_key(k) implies ((src.contains_key(
                    k,
                ) && d3[k] == src[k] && reaches(src, Set::empty(), root, k)) || (d0.contains_key(k)
                    && d3[k] == d0[k])) by {
                    if src.contains_key(k) && d3[k] == src[k] && reaches(
                        src,
                        Set::empty(),
                        node.right,
                        k,
                    ) {
                        lemma_reaches_step(src, Set::empty(), root, node.right, k);
                    } else {
                        assert(d2.contains_key(k) && d3[k] == d2[k]);
                        if src.contains_key(k) && d2[k] == src[k] && reaches(
                            src,
                            Set::empty(),
                            node.left,
                            k,
                        ) {
                            lemma_reaches_step(src, Set::empty(), root, node.left, k);
                        } else {
                            assert(d1.contains_key(k) && d2[k] == d1[k]);
                            if k != root {
                                assert(d0.contains_key(k) && d1[k] == d0[k]);
                            }
                        }
                    }
                }
                // the copy stays closed for the blocked set this call began with
                lemma_closed_extend(src, d1.dom(), d2, d3);
                assert forall|k: Digest| #[trigger] d3.contains_key(k) && !d0.dom().contains(
                    k,
                ) implies (src.contains_key(k) && d3[k] == src[k] && (src.contains_key(
                    src[k].left,
                ) ==> d3.contains_key(src[k].left) && d3[src[k].left] == src[src[k].left]) && (
                src.contains_key(src[k].right) ==> d3.contains_key(src[k].right)
                    && d3[src[k].right] == src[src[k].right])) by {
                    if k == root {
                        assert(d3[root] == src[root]);
                        if src.contains_key(src[root].left) {
                            assert(d2.contains_key(node.left) && d2[node.left] == src[node.left]);
                            assert(d3.contains_key(node.left));
                            assert(d3[node.left] == src[node.left]);
                        }
                        if src.contains_key(src[root].right) {
                            assert(d3.contains_key(node.right)
                                && d3[node.right] == src[node.right]);
                        }
                    } else {
                        assert(d3.contains_key(k) && !d1.dom().contains(k));
                    }
                }
            }
        } else {
            proof {
                assert(self.nodes_map() =~= d0.insert(root, src[root]));
            }
        }
    }

    /// Returns an independent store holding exactly the nodes reachable from
    /// the given roots (bootstrap entries included), with structural sharing
    /// across roots collapsed; roots absent from this store are skipped.
    pub fn subset(&self, roots: &Vec<Digest>) -> (r: GenericMerkleStore<T>)
        requires
            self.inv(),
        ensures
            r.inv(),
            r.recorded_map() == Map::<Digest, Node>::empty(),
            bootstrap().dom().subset_of(r.nodes_map().dom()),
            forall|k: Digest| #[trigger] r.nodes_map().contains_key(k) ==> ((
            self.nodes_map().contains_key(k) && r.nodes_map()[k] == self.nodes_map()[k] && (
            exists|i: int|
                0 <= i < roots@.len() && reaches(
                    self.nodes_map(),
                    Set::empty(),
                    roots@[i],
                    k,
                ))) || (bootstrap().contains_key(k) && r.nodes_map()[k] == bootstrap()[k])),
            forall|i: int, k: Digest|
                0 <= i < roots@.len() && #[trigger] reaches(
                    self.nodes_map(),
                    bootstrap().dom(),
                    roots@[i],
                    k,
                ) ==> r.nodes_map().contains_key(k) && r.nodes_map()[k] == self.nodes_map()[k],
    {
        let ghost src = self.nodes_map();
        let mut store = GenericMerkleStore::<T>::new();
        let n = roots.len();
        let mut i: usize = 0;
        while i < n
            invariant
                src == self.nodes_map(),
                self.inv(),
                n == roots@.len(),
                i <= n,
                store.inv(),
                store.recorded_map() == Map::<Digest, Node>::empty(),
                bootstrap().dom().subset_of(store.nodes_map().dom()),
                forall|k: Digest| #[trigger] store.nodes_map().contains_key(k) ==> ((
                src.contains_key(k) && store.nodes_map()[k] == src[k] && (exists|j: int|
                    0 <= j < i && reaches(src, Set::empty(), roots@[j], k))) || (
                bootstrap().contains_key(k) && store.nodes_map()[k] == bootstrap()[k])),
                copy_closed(src, bootstrap().dom(), store.nodes_map()),
                forall|j: int| 0 <= j < i && src.contains_key(#[trigger] roots@[j])
                    ==> store.nodes_map().contains_key(roots@[j]) && store.nodes_map()[roots@[j]]
                    == src[roots@[j]],
            decreases n - i,
        {
            let ghost before = store.nodes_map();
            let root = roots[i];
            store.clone_tree_from(root, self);
            proof {
                lemma_closed_extend(src, bootstrap().dom(), before, store.nodes_map());
            }
            i = i + 1;
        }
        proof {
            assert forall|i: int, k: Digest|
                0 <= i < roots@.len() && #[trigger] reaches(
                    src,
                    bootstrap().dom(),
                    roots@[i],
                    k,
                ) implies store.nodes_map().contains_key(k) && store.nodes_map()[k] == src[k] by {
                let nn = choose|nn: nat| reaches_within(src, bootstrap().dom(), roots@[i], k, nn);
                assert(src.contains_key(roots@[i])) by {
                    if roots@[i] != k {
                        assert(reaches_within(src, bootstrap().dom(), roots@[i], k, nn));
                    }
                }
                lemma_closed_complete(src, bootstrap().dom(), store.nodes_map(), roots@[i], k, nn);
            }
        }
        store
    }
}

/// The sibling path an opening returns is exactly as long as the traversal
/// is deep.
pub proof fn lemma_get_path_rec_len(m: Map<Digest, Node>, index: NodeIndex, hash: Digest, i: nat)
    ensures
        spec_get_path_rec(m, index, hash, i) matches Ok(p) ==> p.1.len() == i,
    decreases i,
{
    if i > 0 && m.contains_key(hash) {
        let node = m[hash];
        let next = if (index.value >> ((i - 1) as u64)) & 1 == 0 {
            node.left
        } else {
            node.right
        };
        lemma_get_path_rec_len(m, index, next, (i - 1) as nat);
    }
}

/// The entry each ingested inner node contributes: its digest keyed to the
/// node of its two children.
pub open spec fn nodes_to_entries(s: Seq<InnerNodeInfo>) -> Seq<(Digest, Node)> {
    s.map_values(|n: InnerNodeInfo| (n.value, Node { left: n.left, right: n.right }))
}

impl<T: MerkleMapT> GenericMerkleStore<T> {
    /// Sets the node at `index` under `root` to `value` and returns the new
    /// root with the (unchanged) sibling path. Where the position already
    /// holds `value`, the root is returned unchanged and nothing is
    /// inserted.
    pub fn set_node(&mut self, root: Digest, index: NodeIndex, value: Digest) -> (r: Result<
        RootPath,
        MerkleError,
    >)
        requires
            old(self).inv(),
            index.wf(),
        ensures
            final(self).inv(),
            r matches Err(e) ==> spec_get_path(old(self).nodes_map(), root, index) == Err::<
                (Digest, Seq<Digest>),
                MerkleError,
            >(e) && final(self).nodes_map() == old(self).nodes_map(),
            r matches Ok(rp) ==> (spec_get_path(old(self).nodes_map(), root, index) matches Ok(p)
                && rp.path@ == p.1 && (p.0 == value ==> rp.root == root && final(self).nodes_map()
                == old(self).nodes_map()) && (p.0 != value ==> rp.root == spec_add_root(
                value,
                index.value,
                p.1,
            ) && final(self).nodes_map() == chain_map(
                old(self).nodes_map(),
                value,
                index.value,
                p.1,
            ))),
            !T::records() ==> final(self).recorded_map() == old(self).recorded_map(),
            T::records() ==> old(self).recorded_map().submap_of(final(self).recorded_map()),
            T::records() && old(self).recorded_map().submap_of(old(self).nodes_map())
                ==> final(self).recorded_map().submap_of(old(self).nodes_map()),
            hash_consistent(old(self).nodes_map()) ==> hash_consistent(final(self).nodes_map()),
    {
        let vp = match self.get_path(root, index) {
            Ok(vp) => vp,
            Err(e) => {
                return Err(e);
            },
        };
        if value == vp.value {
            Ok(RootPath { root, path: vp.path })
        } else {
            proof {
                lemma_get_path_rec_len(old(self).nodes_map(), index, root, index.depth as nat);
            }
            let dup = vp.path.duplicate();
            match self.add_merkle_path(index.value, value, dup) {
                Ok(new_root) => Ok(RootPath { root: new_root, path: vp.path }),
                Err(e) => Err(e),
            }
        }
    }

    /// Ingests a batch of inner nodes, each keyed by its digest; a later
    /// entry with the same digest wins.
    pub fn extend(&mut self, nodes: Vec<InnerNodeInfo>)
        requires
            old(self).inv(),
        ensures
            final(self).inv(),
            final(self).nodes_map() == insert_all(old(self).nodes_map(), nodes_to_entries(nodes@)),
            final(self).recorded_map() == old(self).recorded_map(),
    {
        let n = nodes.len();
        let mut entries: Vec<(Digest, Node)> = Vec::new();
        let mut i: usize = 0;
        while i < n
            invariant
                n == nodes@.len(),
                i <= n,
                entries@.len() == i,
                forall|j: int| 0 <= j < i ==> entries@[j] == (
                    nodes@[j].value,
                    Node { left: nodes@[j].left, right: nodes@[j].right },
                ),
            decreases n - i,
        {
            let info = nodes[i];
            entries.push((info.value, Node { left: info.left, right: info.right }));
            i = i + 1;
        }
        proof {
            assert(entries@ =~= nodes_to_entries(nodes@));
        }
        self.nodes.extend_entries(entries);
    }

    /// Every inner node held, each as its digest with its two children.
    pub fn inner_nodes(&self) -> (r: Vec<InnerNodeInfo>)
        requires
            self.inv(),
        ensures
            r@.len() == self.nodes_map().dom().len(),
            forall|i: int| 0 <= i < r@.len() ==> self.nodes_map().contains_key(
                (#[trigger] r@[i]).value,
            ) && self.nodes_map()[r@[i].value] == (Node { left: r@[i].left, right: r@[i].right }),
            forall|k: Digest| self.nodes_map().contains_key(k) ==> (exists|i: int|
                0 <= i < r@.len() && (#[trigger] r@[i]).value == k),
            forall|i: int, j: int|
                0 <= i < j < r@.len() ==> (#[trigger] r@[i]).value != (#[trigger] r@[j]).value,
    {
        let es = self.nodes.entries();
        let n = es.len();
        let mut r: Vec<InnerNodeInfo> = Vec::new();
        let mut i: usize = 0;
        while i < n
            invariant
                n == es@.len(),
                i <= n,
                r@.len() == i,
                forall|j: int| 0 <= j < i ==> r@[j] == (InnerNodeInfo {
                    value: es@[j].0,
                    left: es@[j].1.left,
                    right: es@[j].1.right,
                }),
            decreases n - i,
        {
            let pair = es[i];
            r.push(InnerNodeInfo { value: pair.0, left: pair.1.left, right: pair.1.right });
            i = i + 1;
        }
        proof {
            assert forall|k: Digest| self.nodes_map().contains_key(k) implies exists|i: int|
                0 <= i < r@.len() && (#[trigger] r@[i]).value == k by {
                assert(crate::backend::has_key(es@, k));
                let j = choose|j: int| 0 <= j < es@.len() && (#[trigger] es@[j]).0 == k;
                assert(r@[j].value == k);
            }
        }
        r
    }
}
/// collected from the root down: on success the collected siblings stand,
/// reversed, above the deeper ones.
pub open spec fn path_join(
    r: Result<(Digest, Seq<Digest>), MerkleError>,
    acc: Seq<Digest>,
) -> Result<(Digest, Seq<Digest>), MerkleError> {
    match r {
        Ok(p) => Ok((p.0, p.1 + acc.reverse())),
        Err(e) => Err(e),
    }
}

/// One traversal step commutes with joining the collected siblings.
proof fn lemma_path_join_step(
    m: Map<Digest, Node>,
    index: NodeIndex,
    hash: Digest,
    i: nat,
    acc: Seq<Digest>,
)
    requires
        i > 0,
        m.contains_key(hash),
    ensures
        ({
            let node = m[hash];
            let bit = (index.value >> ((i - 1) as u64)) & 1;
            let next = if bit == 0 {
                node.left
            } else {
                node.right
            };
            let sib = if bit == 0 {
                node.right
            } else {
                node.left
            };
            path_join(spec_get_path_rec(m, index, hash, i), acc) == path_join(
                spec_get_path_rec(m, index, next, (i - 1) as nat),
                acc.push(sib),
            )
        }),
{
    let node = m[hash];
    let bit = (index.value >> ((i - 1) as u64)) & 1;
    let next = if bit == 0 {
        node.left
    } else {
        node.right
    };
    let sib = if bit == 0 {
        node.right
    } else {
        node.left
    };
    match spec_get_path_rec(m, index, next, (i - 1) as nat) {
        Ok(p) => {
            assert(acc.push(sib).reverse() =~= seq![sib] + acc.reverse());
            assert(p.1.push(sib) + acc.reverse() =~= p.1 + (seq![sib] + acc.reverse()));
        },
        Err(_) => {},
    }
}

/// A finished traversal joined with the collected siblings is the full
/// opening.
proof fn lemma_path_join_ok(
    m: Map<Digest, Node>,
    index: NodeIndex,
    root: Digest,
    depth: nat,
    hash: Digest,
    acc: Seq<Digest>,
)
    requires
        spec_get_path_rec(m, index, root, depth) == path_join(
            spec_get_path_rec(m, index, hash, 0),
            acc,
        ),
        m.contains_key(root),
    ensures
        spec_get_path(m, root, index) == Ok::<(Digest, Seq<Digest>), MerkleError>(
            (hash, acc.reverse()),
        ) || depth != index.depth as nat,
{
    assert(Seq::<Digest>::empty() + acc.reverse() =~= acc.reverse());
}

/// The entry list the bootstrap table is built from produces exactly the
/// bootstrap map.
proof fn lemma_empty_hashes_map(s: Seq<(Digest, Node)>, h: nat)
    requires
        s.len() == EMPTY_CHAIN_DEPTH as nat,
        h <= EMPTY_CHAIN_DEPTH as nat,
        forall|i: int| 0 <= i < s.len() ==> s[i] == (
            empty_digest((i + 1) as nat),
            empty_node((i + 1) as nat),
        ),
    ensures
        insert_all(Map::empty(), s.take(h as int)) == bootstrap_upto(h),
    decreases h,
{
    if h == 0 {
        assert(s.take(0) =~= Seq::<(Digest, Node)>::empty());
    } else {
        lemma_empty_hashes_map(s, (h - 1) as nat);
        assert(s.take(h as int) =~= s.take(h - 1).push(s[h - 1]));
        crate::backend::lemma_insert_all_push(Map::empty(), s.take(h - 1), s[h - 1]);
    }
}

/// Inserting the empty-hash entries over any base map is the base map with
/// the bootstrap table laid over it.
proof fn lemma_insert_all_bootstrap(m: Map<Digest, Node>, s: Seq<(Digest, Node)>, h: nat)
    requires
        s.len() == EMPTY_CHAIN_DEPTH as nat,
        h <= EMPTY_CHAIN_DEPTH as nat,
        forall|i: int| 0 <= i < s.len() ==> s[i] == (
            empty_digest((i + 1) as nat),
            empty_node((i + 1) as nat),
        ),
    ensures
        insert_all(m, s.take(h as int)) == m.union_prefer_right(bootstrap_upto(h)),
    decreases h,
{
    if h == 0 {
        assert(s.take(0) =~= Seq::<(Digest, Node)>::empty());
        assert(m.union_prefer_right(bootstrap_upto(0)) =~= m);
    } else {
        lemma_insert_all_bootstrap(m, s, (h - 1) as nat);
        assert(s.take(h as int) =~= s.take(h - 1).push(s[h - 1]));
        crate::backend::lemma_insert_all_push(m, s.take(h - 1), s[h - 1]);
        assert(m.union_prefer_right(bootstrap_upto((h - 1) as nat)).insert(
            empty_digest(h),
            empty_node(h),
        ) =~= m.union_prefer_right(bootstrap_upto(h)));
    }
}

/// Inserting a concatenation is inserting each part in turn.
proof fn lemma_insert_all_concat(m: Map<Digest, Node>, a: Seq<(Digest, Node)>, b: Seq<(Digest, Node)>)
    ensures
        insert_all(m, a + b) == insert_all(insert_all(m, a), b),
    decreases b.len(),
{
    if b.len() == 0 {
        assert(a + b =~= a);
    } else {
        let c = b.drop_last();
        lemma_insert_all_concat(m, a, c);
        assert(a + b =~= (a + c).push(b.last()));
        assert(b =~= c.push(b.last()));
        crate::backend::lemma_insert_all_push(m, a + c, b.last());
        crate::backend::lemma_insert_all_push(insert_all(m, a), c, b.last());
    }
}

/// What a batch of openings folds a map and a verdict into: each opening is
/// applied in turn, stopping at the first malformed one with the map as it
/// stood before it.
pub open spec fn spec_add_paths(
    m: Map<Digest, Node>,
    s: Seq<(u64, Digest, MerklePath)>,
) -> (Map<Digest, Node>, Result<(), MerkleError>)
    decreases s.len(),
{
    if s.len() == 0 {
        (m, Ok(()))
    } else if index_valid(s[0].2@.len(), s[0].0) {
        spec_add_paths(chain_map(m, s[0].1, s[0].0, s[0].2@), s.drop_first())
    } else {
        (m, Err(spec_path_error(s[0].0, s[0].2@.len())))
    }
}

/// The same fold over the openings a path set advertises.
pub open spec fn spec_add_path_set(
    m: Map<Digest, Node>,
    s: Seq<(u64, ValuePath)>,
) -> (Map<Digest, Node>, Result<(), MerkleError>)
    decreases s.len(),
{
    if s.len() == 0 {
        (m, Ok(()))
    } else if index_valid(s[0].1.path@.len(), s[0].0) {
        spec_add_path_set(chain_map(m, s[0].1.value, s[0].0, s[0].1.path@), s.drop_first())
    } else {
        (m, Err(spec_path_error(s[0].0, s[0].1.path@.len())))
    }
}

impl<T: MerkleMapT> GenericMerkleStore<T> {
    /// Adds the nodes of each given `(position, leaf, path)` opening in
    /// turn, short-circuiting on the first malformed one.
    pub fn add_merkle_paths(&mut self, paths: Vec<(u64, Digest, MerklePath)>) -> (r: Result<
        (),
        MerkleError,
    >)
        requires
            old(self).inv(),
        ensures
            final(self).inv(),
            final(self).recorded_map() == old(self).recorded_map(),
            final(self).nodes_map() == spec_add_paths(old(self).nodes_map(), paths@).0,
            r == spec_add_paths(old(self).nodes_map(), paths@).1,
            hash_consistent(old(self).nodes_map()) ==> hash_consistent(final(self).nodes_map()),
    {
        let ghost m0 = old(self).nodes_map();
        let n = paths.len();
        let mut i: usize = 0;
        proof {
            assert(paths@.skip(0) =~= paths@);
        }
        while i < n
            invariant
                m0 == old(self).nodes_map(),
                self.inv(),
                self.nodes.recorded() == old(self).recorded_map(),
                i <= n,
                n == paths@.len(),
                spec_add_paths(m0, paths@) == spec_add_paths(
                    self.nodes.data(),
                    paths@.skip(i as int),
                ),
                hash_consistent(m0) ==> hash_consistent(self.nodes.data()),
            decreases n - i,
        {
            let trip = &paths[i];
            proof {
                assert(paths@.skip(i as int)[0] == paths@[i as int]);
                assert(paths@.skip(i as int).drop_first() =~= paths@.skip(i + 1));
            }
            match self.add_merkle_path(trip.0, trip.1, trip.2.duplicate()) {
                Ok(_) => {},
                Err(e) => {
                    return Err(e);
                },
            }
            i = i + 1;
        }
        proof {
            assert(paths@.skip(n as int) =~= Seq::<(u64, Digest, MerklePath)>::empty());
        }
        Ok(())
    }

    /// Re-derives a path set's advertised root by inserting each of its
    /// openings, and returns that root; the root itself is not re-verified
    /// beyond the per-path derivation.
    pub fn add_merkle_path_set(&mut self, path_set: &MerklePathSet) -> (r: Result<
        Digest,
        MerkleError,
    >)
        requires
            old(self).inv(),
        ensures
            final(self).inv(),
            final(self).recorded_map() == old(self).recorded_map(),
            final(self).nodes_map() == spec_add_path_set(old(self).nodes_map(), path_set.paths@).0,
            spec_add_path_set(old(self).nodes_map(), path_set.paths@).1 is Ok ==> r == Ok::<
                Digest,
                MerkleError,
            >(path_set.root),
            spec_add_path_set(old(self).nodes_map(), path_set.paths@).1 matches Err(e) ==> r
                == Err::<Digest, MerkleError>(e),
            hash_consistent(old(self).nodes_map()) ==> hash_consistent(final(self).nodes_map()),
    {
        let ghost m0 = old(self).nodes_map();
        let n = path_set.paths.len();
        let mut i: usize = 0;
        proof {
            assert(path_set.paths@.skip(0) =~= path_set.paths@);
        }
        while i < n
            invariant
                m0 == old(self).nodes_map(),
                self.inv(),
                self.nodes.recorded() == old(self).recorded_map(),
                i <= n,
                n == path_set.paths@.len(),
                spec_add_path_set(m0, path_set.paths@) == spec_add_path_set(
                    self.nodes.data(),
                    path_set.paths@.skip(i as int),
                ),
                hash_consistent(m0) ==> hash_consistent(self.nodes.data()),
            decreases n - i,
        {
            let entry = &path_set.paths[i];
            proof {
                assert(path_set.paths@.skip(i as int)[0] == path_set.paths@[i as int]);
                assert(path_set.paths@.skip(i as int).drop_first() =~= path_set.paths@.skip(i + 1));
            }
            match self.add_merkle_path(entry.0, entry.1.value, entry.1.path.duplicate()) {
                Ok(_) => {},
                Err(e) => {
                    return Err(e);
                },
            }
            i = i + 1;
        }
        proof {
            assert(path_set.paths@.skip(n as int) =~= Seq::<(u64, ValuePath)>::empty());
        }
        Ok(path_set.root)
    }

    /// Builds a store from a batch of inner nodes combined with the
    /// empty-subtree bootstrap entries.
    pub fn from_inner_nodes(nodes: Vec<InnerNodeInfo>) -> (r: GenericMerkleStore<T>)
        ensures
            r.inv(),
            r.recorded_map() == Map::<Digest, Node>::empty(),
            r.nodes_map() == seq_to_map(nodes_to_entries(nodes@)).union_prefer_right(bootstrap()),
    {
        let ghost nlen = nodes@.len() as int;
        let combined = combine_nodes_with_empty_hashes(nodes);
        proof {
            let a = nodes_to_entries(nodes@);
            let b = combined@.skip(nlen);
            assert(combined@ =~= a + b);
            lemma_insert_all_concat(Map::empty(), a, b);
            assert forall|i: int| 0 <= i < b.len() implies b[i] == (
                empty_digest((i + 1) as nat),
                empty_node((i + 1) as nat),
            ) by {
                assert(b[i] == combined@[i + nlen]);
            }
            lemma_insert_all_bootstrap(seq_to_map(a), b, EMPTY_CHAIN_DEPTH as nat);
            assert(b.take(EMPTY_CHAIN_DEPTH as int) =~= b);
        }
        GenericMerkleStore { nodes: T::from_entries(combined) }
    }
}

impl<T: MerkleMapT> Default for GenericMerkleStore<T> {
    fn default() -> (r: GenericMerkleStore<T>)
        ensures
            r.inv(),
            r.nodes_map() == bootstrap(),
            r.recorded_map() == Map::<Digest, Node>::empty(),
    {
        GenericMerkleStore::<T>::new()
    }
}

impl MerkleStore {
    /// Wraps an existing plain map as a store, as it stands.
    pub fn from_map(nodes: MerkleMap) -> (r: MerkleStore)
        requires
            nodes.inv(),
        ensures
            r.inv(),
            r.nodes_map() == nodes.data(),
            r.recorded_map() == Map::<Digest, Node>::empty(),
    {
        proof {
            nodes.lemma_no_recording();
        }
        GenericMerkleStore { nodes }
    }

    /// Converts into a recording store: every entry is kept and the read
    /// history starts empty.
    pub fn into_recording(self) -> (r: RecordingMerkleStore)
        requires
            self.inv(),
        ensures
            r.inv(),
            r.nodes_map() == self.nodes_map(),
            r.recorded_map() == Map::<Digest, Node>::empty(),
    {
        GenericMerkleStore { nodes: RecordingMerkleMap::wrap(self.nodes) }
    }
}

impl RecordingMerkleStore {
    /// Consumes the recording store and returns the plain map of exactly the
    /// entries read during its recording lifetime.
    pub fn into_proof(self) -> (r: MerkleMap)
        requires
            self.inv(),
        ensures
            r.inv(),
            r.data() == self.recorded_map(),
    {
        self.nodes.into_proof()
    }
}

/// Combines a batch of inner nodes with the empty-subtree bootstrap entries
/// into one entry list, the batch first.
pub fn combine_nodes_with_empty_hashes(nodes: Vec<InnerNodeInfo>) -> (r: Vec<(Digest, Node)>)
    ensures
        r@.len() == nodes@.len() + EMPTY_CHAIN_DEPTH as nat,
        forall|i: int| 0 <= i < nodes@.len() ==> r@[i] == (
            nodes@[i].value,
            Node { left: nodes@[i].left, right: nodes@[i].right },
        ),
        r@.take(nodes@.len() as int) =~= nodes_to_entries(nodes@),
        forall|i: int| nodes@.len() <= i < r@.len() ==> r@[i] == (
            empty_digest((i - nodes@.len() + 1) as nat),
            empty_node((i - nodes@.len() + 1) as nat),
        ),
{
    let n = nodes.len();
    let mut r: Vec<(Digest, Node)> = Vec::new();
    let mut i: usize = 0;
    while i < n
        invariant
            n == nodes@.len(),
            i <= n,
            r@.len() == i,
            forall|j: int| 0 <= j < i ==> r@[j] == (
                nodes@[j].value,
                Node { left: nodes@[j].left, right: nodes@[j].right },
            ),
        decreases n - i,
    {
        let info = nodes[i];
        r.push((info.value, Node { left: info.left, right: info.right }));
        i = i + 1;
    }
    let eh = empty_hashes();
    let m = eh.len();
    let mut j: usize = 0;
    while j < m
        invariant
            n == nodes@.len(),
            m == eh@.len(),
            m == EMPTY_CHAIN_DEPTH as nat,
            j <= m,
            r@.len() == n + j,
            forall|k: int| 0 <= k < n ==> r@[k] == (
                nodes@[k].value,
                Node { left: nodes@[k].left, right: nodes@[k].right },
            ),
            forall|k: int| 0 <= k < eh@.len() ==> eh@[k] == (
                empty_digest((k + 1) as nat),
                empty_node((k + 1) as nat),
            ),
            forall|k: int| n <= k < r@.len() ==> r@[k] == eh@[k - n],
        decreases m - j,
    {
        r.push(eh[j]);
        j = j + 1;
    }
    proof {
        assert(r@.take(nodes@.len() as int) =~= nodes_to_entries(nodes@));
    }
    r
}

} // verus!
