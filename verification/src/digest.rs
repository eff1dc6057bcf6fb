//! The digest type, the node record, and the two-to-one compression function
//! that derives a parent digest from two children.

use vstd::prelude::*;

verus! {

/// A fixed-width digest: four 64-bit words. Digests serve both as node
/// identities and as content addresses in the store.
#[derive(Clone, Copy, PartialEq, Eq, Structural, PartialOrd, Ord, Debug, Hash)]
pub struct Digest {
    pub w0: u64,
    pub w1: u64,
    pub w2: u64,
    pub w3: u64,
}

/// A record of the two child digests under a parent digest.
#[derive(Clone, Copy, PartialEq, Eq, Structural, Debug)]
pub struct Node {
    pub left: Digest,
    pub right: Digest,
}

/// An inner node exposed for ingestion: a parent digest and its two children.
#[derive(Clone, Copy, PartialEq, Eq, Structural, Debug)]
pub struct InnerNodeInfo {
    pub value: Digest,
    pub left: Digest,
    pub right: Digest,
}

impl Digest {
    /// The all-zero digest, which also stands for an empty subtree of depth 0.
    pub open spec fn spec_default() -> Digest {
        Digest { w0: 0, w1: 0, w2: 0, w3: 0 }
    }
}

impl Default for Digest {
    fn default() -> (d: Digest)
        ensures
            d == Digest::spec_default(),
    {
        Digest { w0: 0, w1: 0, w2: 0, w3: 0 }
    }
}

/// One absorption step of the compression function: fold one word into the
/// running 64-bit state with a multiply-xor-shift mix.
pub open spec fn mix_step(acc: u64, x: u64) -> u64 {
    let y = ((((acc ^ x) as int) * 0x9e3779b97f4a7c15 + 0x2545f4914f6cdd1d)
        % 0x1_0000_0000_0000_0000) as u64;
    y ^ (y >> 29u64)
}

fn mix_step_exec(acc: u64, x: u64) -> (r: u64)
    ensures
        r == mix_step(acc, x),
{
    let t: u128 = ((acc ^ x) as u128) * 0x9e3779b97f4a7c15u128 + 0x2545f4914f6cdd1du128;
    let y: u64 = (t % 0x1_0000_0000_0000_0000u128) as u64;
    y ^ (y >> 29u64)
}

/// The deterministic two-to-one compression function: a parent digest is a
/// function of its two child digests alone.
#[verifier::opaque]
pub open spec fn spec_compress(l: Digest, r: Digest) -> Digest {
    let a0 = mix_step(0x243f6a8885a308d3, l.w0);
    let a1 = mix_step(a0, l.w1);
    let a2 = mix_step(a1, l.w2);
    let a3 = mix_step(a2, l.w3);
    let a4 = mix_step(a3, r.w0);
    let a5 = mix_step(a4, r.w1);
    let a6 = mix_step(a5, r.w2);
    let a7 = mix_step(a6, r.w3);
    Digest {
        w0: mix_step(a7, 1),
        w1: mix_step(a7, 2),
        w2: mix_step(a7, 3),
        w3: mix_step(a7, 4),
    }
}

/// Whether every key of `m` equals the compression of its two children:
/// the invariant every entry produced by tree construction, path insertion
/// or root merging satisfies.
pub open spec fn hash_consistent(m: Map<Digest, Node>) -> bool {
    forall|k: Digest| #[trigger] m.contains_key(k) ==> k == spec_compress(m[k].left, m[k].right)
}

/// Computes the parent digest of two children.
pub fn compress(l: &Digest, r: &Digest) -> (d: Digest)
    ensures
        d == spec_compress(*l, *r),
{
    proof {
        reveal(spec_compress);
    }
    let mut a = mix_step_exec(0x243f6a8885a308d3, l.w0);
    a = mix_step_exec(a, l.w1);
    a = mix_step_exec(a, l.w2);
    a = mix_step_exec(a, l.w3);
    a = mix_step_exec(a, r.w0);
    a = mix_step_exec(a, r.w1);
    a = mix_step_exec(a, r.w2);
    a = mix_step_exec(a, r.w3);
    Digest {
        w0: mix_step_exec(a, 1),
        w1: mix_step_exec(a, 2),
        w2: mix_step_exec(a, 3),
        w3: mix_step_exec(a, 4),
    }
}

} // verus!
