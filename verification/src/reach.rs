//! Reachability of digests through stored nodes, and the closure property a
//! reachability copy establishes: the vocabulary in which subset extraction
//! is specified.

use vstd::prelude::*;
use crate::digest::{Digest, Node};

verus! {

/// Whether a chain of at most `n` descents leads from `from` to `to`
/// through nodes of `src`, never descending out of a digest in `blocked`.
/// The endpoint must itself be a key of `src`; it may be blocked.
pub open spec fn reaches_within(
    src: Map<Digest, Node>,
    blocked: Set<Digest>,
    from: Digest,
    to: Digest,
    n: nat,
) -> bool
    decreases n,
{
    (from == to && src.contains_key(to)) || (n > 0 && src.contains_key(from)
        && !blocked.contains(from) && (reaches_within(
        src,
        blocked,
        src[from].left,
        to,
        (n - 1) as nat,
    ) || reaches_within(src, blocked, src[from].right, to, (n - 1) as nat)))
}

/// Whether some chain of descents leads from `from` to `to`.
pub open spec fn reaches(src: Map<Digest, Node>, blocked: Set<Digest>, from: Digest, to: Digest) -> bool {
    exists|n: nat| reaches_within(src, blocked, from, to, n)
}

/// One unblocked descent prepended to a chain still reaches.
pub proof fn lemma_reaches_step(
    src: Map<Digest, Node>,
    blocked: Set<Digest>,
    from: Digest,
    child: Digest,
    to: Digest,
)
    requires
        src.contains_key(from),
        !blocked.contains(from),
        child == src[from].left || child == src[from].right,
        reaches(src, blocked, child, to),
    ensures
        reaches(src, blocked, from, to),
{
    let n = choose|n: nat| reaches_within(src, blocked, child, to, n);
    assert(reaches_within(src, blocked, from, to, n + 1));
}

/// A digest reaches itself wherever it is a key.
pub proof fn lemma_reaches_self(src: Map<Digest, Node>, blocked: Set<Digest>, k: Digest)
    requires
        src.contains_key(k),
    ensures
        reaches(src, blocked, k, k),
{
    assert(reaches_within(src, blocked, k, k, 0));
}

/// The closure a reachability copy establishes on its result: every key
/// outside `blocked` was copied from `src` together with both of its
/// children that `src` holds.
pub open spec fn copy_closed(
    src: Map<Digest, Node>,
    blocked: Set<Digest>,
    result: Map<Digest, Node>,
) -> bool {
    forall|k: Digest| #[trigger] result.contains_key(k) && !blocked.contains(k) ==> (
    src.contains_key(k) && result[k] == src[k] && (src.contains_key(src[k].left)
        ==> result.contains_key(src[k].left) && result[src[k].left] == src[src[k].left]) && (
    src.contains_key(src[k].right) ==> result.contains_key(src[k].right) && result[src[k].right]
        == src[src[k].right]))
}

/// A closed result holds everything reachable from any of its entries that
/// carries its `src` value.
pub proof fn lemma_closed_complete(
    src: Map<Digest, Node>,
    blocked: Set<Digest>,
    result: Map<Digest, Node>,
    from: Digest,
    to: Digest,
    n: nat,
)
    requires
        copy_closed(src, blocked, result),
        reaches_within(src, blocked, from, to, n),
        result.contains_key(from),
        result[from] == src[from],
    ensures
        result.contains_key(to),
        result[to] == src[to],
    decreases n,
{
    if from == to && src.contains_key(to) {
    } else {
        let child = if reaches_within(src, blocked, src[from].left, to, (n - 1) as nat) {
            src[from].left
        } else {
            src[from].right
        };
        assert(result.contains_key(from) && !blocked.contains(from));
        assert(src.contains_key(child)) by {
            if child != to {
                assert(reaches_within(src, blocked, child, to, (n - 1) as nat));
            }
        }
        lemma_closed_complete(src, blocked, result, child, to, (n - 1) as nat);
    }
}

/// Closure composes across two copies in sequence: a copy into a result
/// already closed for a smaller blocked set, which only adds `src` values,
/// stays closed for the smaller set.
pub proof fn lemma_closed_extend(
    src: Map<Digest, Node>,
    b0: Set<Digest>,
    m1: Map<Digest, Node>,
    m2: Map<Digest, Node>,
)
    requires
        copy_closed(src, b0, m1),
        copy_closed(src, m1.dom(), m2),
        b0.subset_of(m1.dom()),
        m1.dom().subset_of(m2.dom()),
        forall|k: Digest| #[trigger] m1.contains_key(k) ==> m2[k] == m1[k] || (src.contains_key(k)
            && m2[k] == src[k]),
    ensures
        copy_closed(src, b0, m2),
{
    assert forall|k: Digest| #[trigger] m2.contains_key(k) && !b0.contains(k) implies (
    src.contains_key(k) && m2[k] == src[k] && (src.contains_key(src[k].left)
        ==> m2.contains_key(src[k].left) && m2[src[k].left] == src[src[k].left]) && (
    src.contains_key(src[k].right) ==> m2.contains_key(src[k].right) && m2[src[k].right]
        == src[src[k].right])) by {
        if m1.contains_key(k) {
            assert(src.contains_key(k) && m1[k] == src[k]);
            assert(m2[k] == src[k]);
            if src.contains_key(src[k].left) {
                assert(m1.contains_key(src[k].left) && m1[src[k].left] == src[src[k].left]);
                assert(m2[src[k].left] == src[src[k].left]);
            }
            if src.contains_key(src[k].right) {
                assert(m1.contains_key(src[k].right) && m1[src[k].right] == src[src[k].right]);
                assert(m2[src[k].right] == src[src[k].right]);
            }
        } else {
            assert(m2.contains_key(k) && !m1.dom().contains(k));
        }
    }
}

} // verus!
