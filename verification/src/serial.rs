//! Flat binary encoding of the node table: a node count followed by that
//! many `(digest, node)` entries, every word in little-endian order.

use vstd::prelude::*;
use crate::backend::{has_key, keys_distinct, seq_to_map, MerkleMap, MerkleMapT};
use crate::digest::{Digest, Node};
use crate::store::{GenericMerkleStore, MerkleStore};

verus! {

/// The failure decoding raises: the input ends before the promised data.
#[derive(Clone, Copy, PartialEq, Eq, Structural, Debug)]
pub enum DeserializationError {
    UnexpectedEnd,
}

/// The eight little-endian bytes of a 64-bit word.
pub open spec fn u64_le_bytes(x: u64) -> Seq<u8> {
    seq![
        (x & 0xff) as u8,
        ((x >> 8u64) & 0xff) as u8,
        ((x >> 16u64) & 0xff) as u8,
        ((x >> 24u64) & 0xff) as u8,
        ((x >> 32u64) & 0xff) as u8,
        ((x >> 40u64) & 0xff) as u8,
        ((x >> 48u64) & 0xff) as u8,
        ((x >> 56u64) & 0xff) as u8,
    ]
}

/// The 64-bit word eight little-endian bytes carry.
pub open spec fn u64_from_bytes(s: Seq<u8>) -> u64 {
    (s[0] as int + s[1] as int * 0x100 + s[2] as int * 0x10000 + s[3] as int * 0x1000000 + s[4] as int
        * 0x100000000 + s[5] as int * 0x10000000000 + s[6] as int * 0x1000000000000 + s[7] as int
        * 0x100000000000000) as u64
}

/// Reading back the eight bytes of a word gives the word.
pub proof fn lemma_u64_bytes_round_trip(x: u64)
    ensures
        u64_from_bytes(u64_le_bytes(x)) == x,
{
    assert(((x & 0xff) as int + ((x >> 8u64) & 0xff) as int * 0x100 + ((x >> 16u64) & 0xff) as int
        * 0x10000 + ((x >> 24u64) & 0xff) as int * 0x1000000 + ((x >> 32u64) & 0xff) as int
        * 0x100000000 + ((x >> 40u64) & 0xff) as int * 0x10000000000 + ((x >> 48u64)
        & 0xff) as int * 0x1000000000000 + ((x >> 56u64) & 0xff) as int * 0x100000000000000)
        == x as int) by (bit_vector);
    let s = u64_le_bytes(x);
    assert(s[0] == (x & 0xff) as u8 && s[1] == ((x >> 8u64) & 0xff) as u8 && s[2] == ((x >> 16u64)
        & 0xff) as u8 && s[3] == ((x >> 24u64) & 0xff) as u8 && s[4] == ((x >> 32u64) & 0xff) as u8
        && s[5] == ((x >> 40u64) & 0xff) as u8 && s[6] == ((x >> 48u64) & 0xff) as u8 && s[7] == ((
    x >> 56u64) & 0xff) as u8);
    assert((x & 0xff) < 256 && ((x >> 8u64) & 0xff) < 256 && ((x >> 16u64) & 0xff) < 256 && ((x
        >> 24u64) & 0xff) < 256 && ((x >> 32u64) & 0xff) < 256 && ((x >> 40u64) & 0xff) < 256 && ((
    x >> 48u64) & 0xff) < 256 && ((x >> 56u64) & 0xff) < 256) by (bit_vector);
}

/// The 32 bytes of a digest: its four words, first to last.
pub open spec fn digest_bytes(d: Digest) -> Seq<u8> {
    u64_le_bytes(d.w0) + u64_le_bytes(d.w1) + u64_le_bytes(d.w2) + u64_le_bytes(d.w3)
}

/// The 64 bytes of a node: its left child then its right.
pub open spec fn node_bytes(n: Node) -> Seq<u8> {
    digest_bytes(n.left) + digest_bytes(n.right)
}

/// The bytes of a list of entries, each a digest followed by its node.
pub open spec fn entries_bytes(es: Seq<(Digest, Node)>) -> Seq<u8>
    decreases es.len(),
{
    if es.len() == 0 {
        Seq::empty()
    } else {
        digest_bytes(es[0].0) + node_bytes(es[0].1) + entries_bytes(es.drop_first())
    }
}

/// Appends the eight little-endian bytes of a word.
pub fn write_u64(target: &mut Vec<u8>, x: u64)
    ensures
        final(target)@ == old(target)@ + u64_le_bytes(x),
{
    proof {
        assert((x & 0xff) < 256 && ((x >> 8u64) & 0xff) < 256 && ((x >> 16u64) & 0xff) < 256 && ((x
            >> 24u64) & 0xff) < 256 && ((x >> 32u64) & 0xff) < 256 && ((x >> 40u64) & 0xff) < 256
            && ((x >> 48u64) & 0xff) < 256 && ((x >> 56u64) & 0xff) < 256) by (bit_vector);
    }
    target.push((x & 0xff) as u8);
    target.push(((x >> 8u64) & 0xff) as u8);
    target.push(((x >> 16u64) & 0xff) as u8);
    target.push(((x >> 24u64) & 0xff) as u8);
    target.push(((x >> 32u64) & 0xff) as u8);
    target.push(((x >> 40u64) & 0xff) as u8);
    target.push(((x >> 48u64) & 0xff) as u8);
    target.push(((x >> 56u64) & 0xff) as u8);
    proof {
        assert(final(target)@ =~= old(target)@ + u64_le_bytes(x));
    }
}

/// Reads the word at `off`.
pub fn read_u64(bytes: &Vec<u8>, off: usize) -> (r: u64)
    requires
        off + 8 <= bytes@.len(),
    ensures
        r == u64_from_bytes(bytes@.subrange(off as int, off as int + 8)),
{
    let ghost s = bytes@.subrange(off as int, off as int + 8);
    let n = bytes.len();
    proof {
        assert(off + 8 <= n);
    }
    let b0 = bytes[off] as u64;
    let b1 = bytes[off + 1] as u64;
    let b2 = bytes[off + 2] as u64;
    let b3 = bytes[off + 3] as u64;
    let b4 = bytes[off + 4] as u64;
    let b5 = bytes[off + 5] as u64;
    let b6 = bytes[off + 6] as u64;
    let b7 = bytes[off + 7] as u64;
    proof {
        assert(b0 + b1 * 0x100 + b2 * 0x10000 + b3 * 0x1000000 + b4 * 0x100000000 + b5
            * 0x10000000000 + b6 * 0x1000000000000 + b7 * 0x100000000000000 <= 0xffffffffffffffff)
            by (nonlinear_arith)
            requires
                b0 < 0x100 && b1 < 0x100 && b2 < 0x100 && b3 < 0x100 && b4 < 0x100 && b5 < 0x100
                    && b6 < 0x100 && b7 < 0x100,
        ;
    }
    let r = b0 + b1 * 0x100 + b2 * 0x10000 + b3 * 0x1000000 + b4 * 0x100000000 + b5 * 0x10000000000
        + b6 * 0x1000000000000 + b7 * 0x100000000000000;
    proof {
        assert(s[0] == bytes@[off as int] && s[1] == bytes@[off as int + 1] && s[2] == bytes@[
            off as int + 2] && s[3] == bytes@[off as int + 3] && s[4] == bytes@[off as int + 4]
            && s[5] == bytes@[off as int + 5] && s[6] == bytes@[off as int + 6] && s[7] == bytes@[
            off as int + 7]);
    }
    r
}

/// The digest whose 32 bytes stand at `off`.
pub open spec fn digest_at(s: Seq<u8>, off: int) -> Digest {
    Digest {
        w0: u64_from_bytes(s.subrange(off, off + 8)),
        w1: u64_from_bytes(s.subrange(off + 8, off + 16)),
        w2: u64_from_bytes(s.subrange(off + 16, off + 24)),
        w3: u64_from_bytes(s.subrange(off + 24, off + 32)),
    }
}

impl Digest {
    /// Appends this digest's 32-byte encoding.
    pub fn write_into(&self, target: &mut Vec<u8>)
        ensures
            final(target)@ == old(target)@ + digest_bytes(*self),
    {
        write_u64(target, self.w0);
        write_u64(target, self.w1);
        write_u64(target, self.w2);
        write_u64(target, self.w3);
        proof {
            assert(final(target)@ =~= old(target)@ + digest_bytes(*self));
        }
    }

    /// Reads the digest at `off`.
    pub fn read_from(bytes: &Vec<u8>, off: usize) -> (r: Digest)
        requires
            off + 32 <= bytes@.len(),
        ensures
            r == digest_at(bytes@, off as int),
    {
        let n = bytes.len();
        proof {
            assert(off + 32 <= n);
        }
        Digest {
            w0: read_u64(bytes, off),
            w1: read_u64(bytes, off + 8),
            w2: read_u64(bytes, off + 16),
            w3: read_u64(bytes, off + 24),
        }
    }
}

impl Node {
    /// Appends this node's 64-byte encoding: left child then right.
    pub fn write_into(&self, target: &mut Vec<u8>)
        ensures
            final(target)@ == old(target)@ + node_bytes(*self),
    {
        self.left.write_into(target);
        self.right.write_into(target);
        proof {
            assert(final(target)@ =~= old(target)@ + node_bytes(*self));
        }
    }

    /// Reads the node at `off`.
    pub fn read_from(bytes: &Vec<u8>, off: usize) -> (r: Node)
        requires
            off + 64 <= bytes@.len(),
        ensures
            r == (Node { left: digest_at(bytes@, off as int), right: digest_at(bytes@, off as int + 32) }),
    {
        let n = bytes.len();
        proof {
            assert(off + 64 <= n);
        }
        let left = Digest::read_from(bytes, off);
        let right = Digest::read_from(bytes, off + 32);
        Node { left, right }
    }
}

/// The entries the bytes from `off` on parse into, `n` of them, or nothing
/// on truncation.
pub open spec fn spec_parse_entries(s: Seq<u8>, off: int, n: nat) -> Option<Seq<(Digest, Node)>>
    decreases n,
{
    if n == 0 {
        Some(Seq::empty())
    } else if off + 96 <= s.len() {
        match spec_parse_entries(s, off + 96, (n - 1) as nat) {
            Some(es) => Some(
                seq![(digest_at(s, off), Node { left: digest_at(s, off + 32), right: digest_at(s, off + 64) })]
                    + es,
            ),
            None => None,
        }
    } else {
        None
    }
}

impl<T: MerkleMapT> GenericMerkleStore<T> {
    /// Appends the store's flat encoding: the node count, then each entry in
    /// the backend's iteration order.
    pub fn write_into(&self, target: &mut Vec<u8>)
        requires
            self.inv(),
        ensures
            exists|es: Seq<(Digest, Node)>|
                #![auto]
                es.len() == self.nodes_map().dom().len() && (forall|i: int|
                    0 <= i < es.len() ==> self.nodes_map().contains_key(es[i].0)
                        && self.nodes_map()[es[i].0] == es[i].1) && keys_distinct(es) && (forall|
                    k: Digest,
                |
                    self.nodes_map().contains_key(k) ==> has_key(es, k)) && final(target)@ == old(
                    target,
                )@ + u64_le_bytes(es.len() as u64) + entries_bytes(es),
    {
        let infos = self.inner_nodes();
        let count = infos.len() as u64;
        write_u64(target, count);
        let ghost base = target@;
        let n = infos.len();
        let ghost es = Seq::new(infos@.len(), |i: int| (infos@[i].value, Node { left: infos@[i].left, right: infos@[i].right }));
        let mut i: usize = 0;
        while i < n
            invariant
                n == infos@.len(),
                i <= n,
                es.len() == n,
                forall|j: int| 0 <= j < n ==> es[j] == (
                    infos@[j].value,
                    Node { left: infos@[j].left, right: infos@[j].right },
                ),
                target@ == base + entries_bytes(es.take(i as int)),
            decreases n - i,
        {
            let info = infos[i];
            let ghost before = target@;
            info.value.write_into(target);
            let node = Node { left: info.left, right: info.right };
            node.write_into(target);
            proof {
                lemma_entries_bytes_push(es.take(i as int), es[i as int]);
                assert(es.take(i + 1) =~= es.take(i as int).push(es[i as int]));
                assert(target@ =~= base + entries_bytes(es.take(i + 1)));
            }
            i = i + 1;
        }
        proof {
            assert(es.take(n as int) =~= es);
            assert forall|j: int, k: int| 0 <= j < k < es.len() implies es[j].0 != es[k].0 by {
                assert(infos@[j].value != infos@[k].value);
            }
            assert forall|k: Digest| self.nodes_map().contains_key(k) implies has_key(es, k) by {
                let j = choose|j: int| 0 <= j < infos@.len() && (#[trigger] infos@[j]).value == k;
                assert(es[j].0 == k);
            }
            assert(final(target)@ =~= old(target)@ + u64_le_bytes(es.len() as u64) + entries_bytes(
                es,
            ));
        }
    }
}

/// Appending one entry's bytes extends the entry-list encoding.
proof fn lemma_entries_bytes_push(es: Seq<(Digest, Node)>, p: (Digest, Node))
    ensures
        entries_bytes(es.push(p)) == entries_bytes(es) + digest_bytes(p.0) + node_bytes(p.1),
    decreases es.len(),
{
    if es.len() == 0 {
        assert(es.push(p)[0] == p);
        assert(es.push(p).drop_first() =~= Seq::<(Digest, Node)>::empty());
        assert(entries_bytes(Seq::<(Digest, Node)>::empty()) == Seq::<u8>::empty());
        assert(entries_bytes(es.push(p)) =~= entries_bytes(es) + digest_bytes(p.0) + node_bytes(
            p.1,
        ));
    } else {
        assert(es.push(p)[0] == es[0]);
        assert(es.push(p).drop_first() =~= es.drop_first().push(p));
        lemma_entries_bytes_push(es.drop_first(), p);
        assert(entries_bytes(es.push(p)) =~= entries_bytes(es) + digest_bytes(p.0) + node_bytes(
            p.1,
        ));
    }
}

/// Decodes a store from its flat encoding, strictly: any truncation fails,
/// and no partial store is returned. The decoded store holds exactly the
/// encoded entries; it is not re-bootstrapped.
pub fn read_from(bytes: &Vec<u8>) -> (r: Result<MerkleStore, DeserializationError>)
    ensures
        bytes@.len() < 8 ==> r is Err,
        bytes@.len() >= 8 ==> (match spec_parse_entries(
            bytes@,
            8,
            u64_from_bytes(bytes@.subrange(0, 8)) as nat,
        ) {
            Some(es) => r matches Ok(store) && store.inv() && store.nodes_map() == seq_to_map(es)
                && store.recorded_map() == Map::<Digest, Node>::empty(),
            None => r is Err,
        }),
{
    if bytes.len() < 8 {
        return Err(DeserializationError::UnexpectedEnd);
    }
    let count = read_u64(bytes, 0);
    let ghost total = count as nat;
    let mut pairs: Vec<(Digest, Node)> = Vec::new();
    let mut off: usize = 8;
    let mut i: u64 = 0;
    while i < count
        invariant
            bytes@.len() >= 8,
            count == u64_from_bytes(bytes@.subrange(0, 8)),
            i <= count,
            off == 8 + 96 * (i as int),
            off <= bytes@.len(),
            pairs@.len() == i as nat,
            spec_parse_entries(bytes@, 8, count as nat) == (match spec_parse_entries(
                bytes@,
                off as int,
                (count - i) as nat,
            ) {
                Some(rest) => Some(pairs@ + rest),
                None => None::<Seq<(Digest, Node)>>,
            }),
        decreases count as int - i as int,
    {
        if bytes.len() - off < 96 {
            return Err(DeserializationError::UnexpectedEnd);
        }
        let key = Digest::read_from(bytes, off);
        let left = Digest::read_from(bytes, off + 32);
        let right = Digest::read_from(bytes, off + 64);
        let ghost off0 = off as int;
        pairs.push((key, Node { left, right }));
        proof {
            match spec_parse_entries(bytes@, off0 + 96, (count - i - 1) as nat) {
                Some(rest) => {
                    assert(pairs@ + rest =~= pairs@.drop_last() + (
                    seq![(digest_at(bytes@, off0), Node { left: digest_at(bytes@, off0 + 32), right: digest_at(bytes@, off0 + 64) })]
                        + rest));
                },
                None => {},
            }
        }
        off = off + 96;
        i = i + 1;
    }
    proof {
        assert(spec_parse_entries(bytes@, off as int, 0) == Some(Seq::<(Digest, Node)>::empty()));
        assert(pairs@ + Seq::<(Digest, Node)>::empty() =~= pairs@);
    }
    let map = <MerkleMap as MerkleMapT>::from_entries(pairs);
    Ok(MerkleStore::from_map(map))
}

} // verus!
