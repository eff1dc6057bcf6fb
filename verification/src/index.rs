//! Addressing of one position within a depth-bounded binary tree, and the
//! error type of the store's operations.

use vstd::prelude::*;
use crate::digest::Digest;

verus! {

/// The deepest tree a position can address.
pub const MAX_DEPTH: u8 = 64;

/// A position in a binary tree: one of `2^depth` slots at a given depth.
/// `value` must fit in `depth` bits.
#[derive(Clone, Copy, PartialEq, Eq, Structural, Debug)]
pub struct NodeIndex {
    pub depth: u8,
    pub value: u64,
}

/// Whether `value` addresses a valid position at `depth`.
pub open spec fn index_valid(depth: nat, value: u64) -> bool {
    depth <= 64 && (depth == 64 || (value as nat) < vstd::arithmetic::power2::pow2(depth))
}

impl NodeIndex {
    /// Well-formedness: the depth is supported and the value fits in it.
    pub open spec fn wf(&self) -> bool {
        index_valid(self.depth as nat, self.value)
    }

    /// Builds an index, rejecting a depth over the maximum and a value that
    /// does not fit in `depth` bits.
    pub fn new(depth: u8, value: u64) -> (r: Result<NodeIndex, MerkleError>)
        ensures
            index_valid(depth as nat, value) ==> r == Ok::<NodeIndex, MerkleError>(NodeIndex { depth, value }),
            !index_valid(depth as nat, value) && depth > 64 ==> r == Err::<NodeIndex, MerkleError>(
                MerkleError::DepthTooBig(depth as u64),
            ),
            !index_valid(depth as nat, value) && depth <= 64 ==> r == Err::<NodeIndex, MerkleError>(
                MerkleError::InvalidIndex { depth, value },
            ),
            r matches Ok(i) ==> i.wf() && i.depth == depth && i.value == value,
    {
        if depth > 64 {
            Err(MerkleError::DepthTooBig(depth as u64))
        } else if depth < 64 && (value >> (depth as u64)) != 0 {
            proof {
                lemma_shr_zero_iff_fits(value, depth);
            }
            Err(MerkleError::InvalidIndex { depth, value })
        } else {
            proof {
                if depth < 64 {
                    lemma_shr_zero_iff_fits(value, depth);
                }
            }
            Ok(NodeIndex { depth, value })
        }
    }
}

/// A value fits in `d < 64` bits exactly when shifting it right by `d` gives 0.
proof fn lemma_shr_zero_iff_fits(value: u64, d: u8)
    requires
        d < 64,
    ensures
        (value >> (d as u64)) == 0 <==> (value as nat) < vstd::arithmetic::power2::pow2(d as nat),
{
    vstd::arithmetic::power2::lemma2_to64();
    assert((value >> (d as u64)) == 0 <==> (value as int) < (1u64 << (d as u64)) as int) by (bit_vector)
        requires
            d < 64,
    ;
    assert((1u64 << (d as u64)) as nat == vstd::arithmetic::power2::pow2(d as nat)) by {
        vstd::arithmetic::power2::lemma_pow2_strictly_increases(d as nat, 64);
        vstd::bits::lemma_u64_shl_is_mul(1u64, d as u64);
        vstd::arithmetic::power2::lemma_pow2_pos(d as nat);
    }
}

/// The errors the store's operations can raise.
#[derive(Clone, Copy, PartialEq, Eq, Structural, Debug)]
pub enum MerkleError {
    /// A supplied root digest is not a key of the store.
    RootNotInStore(Digest),
    /// Traversal reached a digest with no recorded children before exhausting
    /// the requested depth; carries the digest and the requested position.
    NodeNotInStore(Digest, NodeIndex),
    /// A requested depth exceeds the supported maximum, or reconstructed
    /// structure is deeper than the caller's declared tree depth.
    DepthTooBig(u64),
    /// A position value does not fit in the given depth.
    InvalidIndex { depth: u8, value: u64 },
}

} // verus!
