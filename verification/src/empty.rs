//! The precomputed chain of "all-empty subtree" digests, and the synthetic
//! node entries the store is bootstrapped with.

use vstd::prelude::*;
use crate::digest::{compress, spec_compress, Digest, Node};

verus! {

/// The depth of the deepest supported empty subtree.
pub const EMPTY_CHAIN_DEPTH: u8 = 255;

/// The canonical digest of an entirely unpopulated subtree of height `h`:
/// height 0 is the all-zero digest, and each taller one compresses two copies
/// of the one below it.
pub open spec fn empty_digest(h: nat) -> Digest
    decreases h,
{
    if h == 0 {
        Digest::spec_default()
    } else {
        spec_compress(empty_digest((h - 1) as nat), empty_digest((h - 1) as nat))
    }
}

/// The node under the empty-subtree digest of height `h >= 1`: both children
/// are the empty-subtree digest of height `h - 1`.
pub open spec fn empty_node(h: nat) -> Node {
    Node { left: empty_digest((h - 1) as nat), right: empty_digest((h - 1) as nat) }
}

/// The synthetic entries up to height `h`: each empty-subtree digest of
/// height 1 to `h` mapped to its node of two copies of the digest below.
pub open spec fn bootstrap_upto(h: nat) -> Map<Digest, Node>
    decreases h,
{
    if h == 0 {
        Map::empty()
    } else {
        bootstrap_upto((h - 1) as nat).insert(empty_digest(h), empty_node(h))
    }
}

/// The full bootstrap table a fresh store starts from.
pub open spec fn bootstrap() -> Map<Digest, Node> {
    bootstrap_upto(EMPTY_CHAIN_DEPTH as nat)
}

/// Every key of the bootstrap table is consistent: it equals the compression
/// of its two children.
pub proof fn lemma_bootstrap_consistent(h: nat)
    ensures
        forall|k: Digest| #[trigger] bootstrap_upto(h).contains_key(k) ==> k == spec_compress(
            bootstrap_upto(h)[k].left,
            bootstrap_upto(h)[k].right,
        ),
    decreases h,
{
    if h > 0 {
        lemma_bootstrap_consistent((h - 1) as nat);
        assert(empty_digest(h) == spec_compress(
            empty_digest((h - 1) as nat),
            empty_digest((h - 1) as nat),
        ));
        assert forall|k: Digest| #[trigger] bootstrap_upto(h).contains_key(k) implies k
            == spec_compress(bootstrap_upto(h)[k].left, bootstrap_upto(h)[k].right) by {
            if k != empty_digest(h) {
                assert(bootstrap_upto((h - 1) as nat).contains_key(k));
            }
        }
    }
}

/// The empty-subtree digests of heights 0 to `n`, indexed by height.
pub fn empty_chain(n: u8) -> (r: Vec<Digest>)
    ensures
        r@.len() == n as nat + 1,
        forall|h: int| 0 <= h <= n as int ==> r@[h] == empty_digest(h as nat),
{
    let mut r: Vec<Digest> = Vec::new();
    r.push(Digest::default());
    let mut h: u8 = 0;
    while h < n
        invariant
            h <= n,
            r@.len() == h as nat + 1,
            forall|j: int| 0 <= j <= h as int ==> r@[j] == empty_digest(j as nat),
        decreases n as int - h as int,
    {
        let prev = r[h as usize];
        r.push(compress(&prev, &prev));
        h = h + 1;
    }
    r
}

/// The synthetic `(digest, node)` pairs a fresh store is populated with: one
/// for each empty-subtree height from 1 to the maximum, in that order.
pub fn empty_hashes() -> (r: Vec<(Digest, Node)>)
    ensures
        r@.len() == EMPTY_CHAIN_DEPTH as nat,
        forall|i: int| 0 <= i < r@.len() ==> r@[i] == (
            empty_digest((i + 1) as nat),
            empty_node((i + 1) as nat),
        ),
{
    let chain = empty_chain(EMPTY_CHAIN_DEPTH);
    let mut r: Vec<(Digest, Node)> = Vec::new();
    let mut h: usize = 1;
    while h <= EMPTY_CHAIN_DEPTH as usize
        invariant
            1 <= h <= EMPTY_CHAIN_DEPTH as int + 1,
            chain@.len() == EMPTY_CHAIN_DEPTH as nat + 1,
            forall|j: int| 0 <= j <= EMPTY_CHAIN_DEPTH as int ==> chain@[j] == empty_digest(j as nat),
            r@.len() == h as nat - 1,
            forall|i: int| 0 <= i < r@.len() ==> r@[i] == (
                empty_digest((i + 1) as nat),
                empty_node((i + 1) as nat),
            ),
        decreases EMPTY_CHAIN_DEPTH as int + 1 - h as int,
    {
        let below = chain[h - 1];
        r.push((chain[h], Node { left: below, right: below }));
        h = h + 1;
    }
    r
}

} // verus!
