//! Merkle paths: ordered sibling digests from a leaf position up toward a
//! root, and the derivation of the ancestor chain they imply.

use vstd::prelude::*;
use crate::digest::{hash_consistent, spec_compress, Digest, Node};

verus! {

/// The sibling digests along an opening, ordered from the queried position's
/// immediate sibling up toward (but excluding) the root.
pub struct MerklePath {
    pub siblings: Vec<Digest>,
}

impl View for MerklePath {
    type V = Seq<Digest>;

    open spec fn view(&self) -> Seq<Digest> {
        self.siblings@
    }
}

impl MerklePath {
    /// Wraps a list of sibling digests, leaf side first.
    pub fn new(siblings: Vec<Digest>) -> (r: MerklePath)
        ensures
            r@ == siblings@,
    {
        MerklePath { siblings }
    }

    /// The number of siblings, which is the depth of the opened position.
    pub fn depth(&self) -> (n: usize)
        ensures
            n == self@.len(),
    {
        self.siblings.len()
    }

    /// An independent copy of the path.
    pub fn duplicate(&self) -> (r: MerklePath)
        ensures
            r@ == self@,
    {
        let n = self.siblings.len();
        let mut siblings: Vec<Digest> = Vec::new();
        let mut i: usize = 0;
        while i < n
            invariant
                n == self@.len(),
                i <= n,
                siblings@ =~= self@.take(i as int),
            decreases n - i,
        {
            siblings.push(self.siblings[i]);
            proof {
                assert(self@.take(i + 1) =~= self@.take(i as int).push(self@[i as int]));
            }
            i = i + 1;
        }
        proof {
            assert(self@.take(n as int) =~= self@);
        }
        MerklePath { siblings }
    }
}

/// A leaf value together with its opening toward a root.
pub struct ValuePath {
    pub value: Digest,
    pub path: MerklePath,
}

/// A root together with the opening that led to it.
pub struct RootPath {
    pub root: Digest,
    pub path: MerklePath,
}

/// A batch of openings advertised for one root: each entry is a position
/// value paired with the leaf and sibling path opened there.
pub struct MerklePathSet {
    pub root: Digest,
    pub paths: Vec<(u64, ValuePath)>,
}

/// The digest reached by combining a starting value with each sibling in
/// turn, bottom up: at each level the low bit of `index` says on which side
/// the running value stands.
pub open spec fn chain_value(value: Digest, index: u64, path: Seq<Digest>) -> Digest
    decreases path.len(),
{
    if path.len() == 0 {
        value
    } else {
        let sib = path[0];
        let parent = if index & 1 == 0 {
            spec_compress(value, sib)
        } else {
            spec_compress(sib, value)
        };
        chain_value(parent, index >> 1, path.drop_first())
    }
}

/// The map grown by inserting every ancestor node the chain derives.
pub open spec fn chain_map(
    m: Map<Digest, Node>,
    value: Digest,
    index: u64,
    path: Seq<Digest>,
) -> Map<Digest, Node>
    decreases path.len(),
{
    if path.len() == 0 {
        m
    } else {
        let sib = path[0];
        let l = if index & 1 == 0 {
            value
        } else {
            sib
        };
        let r = if index & 1 == 0 {
            sib
        } else {
            value
        };
        chain_map(
            m.insert(spec_compress(l, r), Node { left: l, right: r }),
            spec_compress(l, r),
            index >> 1,
            path.drop_first(),
        )
    }
}

/// Every key the chain adds is consistent, so chain insertion preserves the
/// store-wide consistency of keys with their children.
pub proof fn lemma_chain_map_consistent(
    m: Map<Digest, Node>,
    value: Digest,
    index: u64,
    path: Seq<Digest>,
)
    requires
        hash_consistent(m),
    ensures
        hash_consistent(chain_map(m, value, index, path)),
    decreases path.len(),
{
    if path.len() > 0 {
        let sib = path[0];
        let l = if index & 1 == 0 {
            value
        } else {
            sib
        };
        let r = if index & 1 == 0 {
            sib
        } else {
            value
        };
        let m1 = m.insert(spec_compress(l, r), Node { left: l, right: r });
        assert forall|k: Digest| #[trigger] m1.contains_key(k) implies k == spec_compress(
            m1[k].left,
            m1[k].right,
        ) by {
            if k != spec_compress(l, r) {
                assert(m.contains_key(k));
            }
        }
        lemma_chain_map_consistent(m1, spec_compress(l, r), index >> 1, path.drop_first());
    }
}

/// Appending one more sibling to a chain combines the chain's digest with it
/// at the level just above the chain.
pub proof fn lemma_chain_value_push(value: Digest, index: u64, path: Seq<Digest>, sib: Digest)
    requires
        path.len() < 64,
    ensures
        chain_value(value, index, path.push(sib)) == (if (index >> (path.len() as u64)) & 1 == 0 {
            spec_compress(chain_value(value, index, path), sib)
        } else {
            spec_compress(sib, chain_value(value, index, path))
        }),
    decreases path.len(),
{
    if path.len() == 0 {
        assert(path.push(sib)[0] == sib);
        assert(path.push(sib).drop_first() =~= Seq::<Digest>::empty());
        let k = path.len() as u64;
        assert(index >> k == index) by (bit_vector)
            requires
                k == 0,
        ;
        assert(chain_value(value, index, path) == value);
        let parent = if index & 1 == 0 {
            spec_compress(value, sib)
        } else {
            spec_compress(sib, value)
        };
        assert(chain_value(parent, index >> 1u64, path.push(sib).drop_first()) == parent);
        assert(chain_value(value, index, path.push(sib)) == parent);
    } else {
        assert(path.push(sib)[0] == path[0]);
        assert(path.push(sib).drop_first() =~= path.drop_first().push(sib));
        let parent = if index & 1 == 0 {
            spec_compress(value, path[0])
        } else {
            spec_compress(path[0], value)
        };
        lemma_chain_value_push(parent, index >> 1, path.drop_first(), sib);
        let k = (path.len() - 1) as u64;
        assert(((index >> 1u64) >> k) == (index >> (k + 1))) by (bit_vector)
            requires
                k < 63,
        ;
    }
}

} // verus!
