//! Splitting a payload into fixed-size chunks and hashing each into a leaf.

use vstd::prelude::*;
use crate::digest::{Digest, sha256_bytes, sha256_of};
use crate::tree::view_digests;

verus! {

/// The chunks of `data`, in order: each holds `chunk_size` bytes but the
/// last, which holds the rest and is never empty.
pub open spec fn chunks(data: Seq<u8>, chunk_size: nat) -> Seq<Seq<u8>>
    decreases data.len(),
{
    if data.len() == 0 || chunk_size == 0 {
        Seq::empty()
    } else if data.len() <= chunk_size {
        seq![data]
    } else {
        seq![data.take(chunk_size as int)] + chunks(data.skip(chunk_size as int), chunk_size)
    }
}

/// The leaf sequence of `data`: the digest of each of its chunks, in order.
pub open spec fn leaf_sequence(data: Seq<u8>, chunk_size: nat) -> Seq<Seq<u8>> {
    chunks(data, chunk_size).map_values(|c: Seq<u8>| sha256_of(c))
}

/// Splits `data` into chunks of `chunk_size` bytes (the last may be
/// shorter) and hashes each one.
pub fn leaf_hashes(data: &[u8], chunk_size: usize) -> (leaves: Vec<Digest>)
    requires
        chunk_size > 0,
    ensures
        view_digests(leaves@) == leaf_sequence(data@, chunk_size as nat),
{
    let n = data.len();
    let ghost cs = chunk_size as nat;
    let mut leaves: Vec<Digest> = Vec::new();
    let mut start: usize = 0;
    assert(data@.subrange(0, n as int) =~= data@);
    while start < n
        invariant
            n == data@.len(),
            cs == chunk_size as nat,
            chunk_size > 0,
            start <= n,
            view_digests(leaves@) + leaf_sequence(data@.subrange(start as int, n as int), cs)
                == leaf_sequence(data@, cs),
        decreases n - start,
    {
        let ghost rest = data@.subrange(start as int, n as int);
        let ghost before = view_digests(leaves@);
        let end: usize = if n - start <= chunk_size { n } else { start + chunk_size };
        let chunk = &data[start..end];
        let d = sha256_bytes(chunk);
        leaves.push(d);
        proof {
            let tail = data@.subrange(end as int, n as int);
            if n - start <= chunk_size {
                assert(chunk@ =~= rest);
                assert(chunks(rest, cs) == seq![rest]);
                assert(tail =~= Seq::<u8>::empty());
                assert(chunks(tail, cs) =~= Seq::<Seq<u8>>::empty());
            } else {
                assert(chunk@ =~= rest.take(cs as int));
                assert(tail =~= rest.skip(cs as int));
                assert(chunks(rest, cs) == seq![chunk@] + chunks(tail, cs));
            }
            assert(chunks(rest, cs) =~= seq![chunk@] + chunks(tail, cs));
            assert(leaf_sequence(rest, cs) =~= seq![d@] + leaf_sequence(tail, cs));
            assert(view_digests(leaves@) =~= before.push(d@));
            assert(view_digests(leaves@) + leaf_sequence(tail, cs)
                =~= before + leaf_sequence(rest, cs));
        }
        start = end;
    }
    proof {
        let empty = data@.subrange(n as int, n as int);
        assert(empty =~= Seq::<u8>::empty());
        assert(leaf_sequence(empty, cs) =~= Seq::<Seq<u8>>::empty());
        assert(view_digests(leaves@) + leaf_sequence(empty, cs) =~= view_digests(leaves@));
    }
    leaves
}

/// Corrupts a chunk for demonstration: inverts every bit of its first byte
/// and leaves the others as they were.
pub fn tamper_chunk(chunk: &mut Vec<u8>)
    requires
        old(chunk)@.len() > 0,
    ensures
        final(chunk)@ == old(chunk)@.update(0, old(chunk)@[0] ^ 0xFFu8),
        final(chunk)@ != old(chunk)@,
{
    let b = chunk[0];
    let flipped = b ^ 0xFF;
    assert(flipped != b) by (bit_vector)
        requires
            flipped == b ^ 0xFFu8,
    ;
    chunk.set(0, flipped);
    assert(chunk@[0] != old(chunk)@[0]);
}


/// Chunk `i` of `data` is the span at offset `i * chunk_size`, of
/// `chunk_size` bytes or up to the end; a payload of `n` bytes has
/// `ceil(n / chunk_size)` chunks.
pub proof fn lemma_chunk_offsets(data: Seq<u8>, chunk_size: nat)
    requires
        chunk_size > 0,
    ensures
        chunks(data, chunk_size).len() == (data.len() + chunk_size - 1) / (chunk_size as int),
        forall|i: int|
            0 <= i < chunks(data, chunk_size).len() ==> #[trigger] chunks(data, chunk_size)[i]
                == data.subrange(
                i * chunk_size,
                if (i + 1) * chunk_size <= data.len() { (i + 1) * chunk_size } else { data.len() as int },
            ),
    decreases data.len(),
{
    let cs = chunk_size as int;
    let n = data.len() as int;
    if n == 0 {
        assert((n + cs - 1) / cs == 0) by (nonlinear_arith)
            requires
                n == 0,
                cs > 0,
        ;
    } else if n <= cs {
        assert((n + cs - 1) / cs == 1) by (nonlinear_arith)
            requires
                0 < n <= cs,
        ;
        assert forall|i: int| 0 <= i < chunks(data, chunk_size).len() implies #[trigger] chunks(data, chunk_size)[i]
            == data.subrange(
            i * chunk_size,
            if (i + 1) * chunk_size <= data.len() { (i + 1) * chunk_size } else { data.len() as int },
        ) by {
            assert(i == 0);
            assert(data.subrange(0, n) =~= data);
        }
    } else {
        let rest = data.skip(cs);
        let m = rest.len() as int;
        lemma_chunk_offsets(rest, chunk_size);
        assert((n + cs - 1) / cs == (m + cs - 1) / cs + 1) by (nonlinear_arith)
            requires
                m == n - cs,
                cs > 0,
        {
            assert(n + cs - 1 == (m + cs - 1) + cs);
            vstd::arithmetic::div_mod::lemma_div_plus_one(m + cs - 1, cs);
        }
        let all = chunks(data, chunk_size);
        assert(all == seq![data.take(cs)] + chunks(rest, chunk_size));
        assert forall|i: int| 0 <= i < all.len() implies #[trigger] all[i]
            == data.subrange(
            i * chunk_size,
            if (i + 1) * chunk_size <= data.len() { (i + 1) * chunk_size } else { data.len() as int },
        ) by {
            if i == 0 {
                assert(data.take(cs) =~= data.subrange(0, cs));
                assert(i * cs == 0 && (i + 1) * cs == cs) by (nonlinear_arith)
                    requires
                        i == 0,
                ;
            } else {
                let j = i - 1;
                assert(all[i] == chunks(rest, chunk_size)[j]);
                assert(j * cs + cs == i * cs) by (nonlinear_arith)
                    requires
                        j == i - 1,
                ;
                assert((j + 1) * cs + cs == (i + 1) * cs) by (nonlinear_arith)
                    requires
                        j == i - 1,
                ;
                assert(j * cs >= 0) by (nonlinear_arith)
                    requires
                        j >= 0,
                        cs > 0,
                ;
                let q = (m + cs - 1) / cs;
                vstd::arithmetic::div_mod::lemma_fundamental_div_mod(m + cs - 1, cs);
                assert(0 <= (m + cs - 1) % cs < cs) by {
                    vstd::arithmetic::div_mod::lemma_mod_bound(m + cs - 1, cs);
                }
                assert(j * cs < m) by (nonlinear_arith)
                    requires
                        0 <= j < q,
                        m + cs - 1 == cs * q + (m + cs - 1) % cs,
                        (m + cs - 1) % cs >= 0,
                        cs > 0,
                ;
                let hi = if (j + 1) * cs <= m { (j + 1) * cs } else { m };
                assert(rest.subrange(j * cs, hi) =~= data.subrange(
                    i * cs,
                    if (i + 1) * cs <= n { (i + 1) * cs } else { n },
                ));
                assert(chunks(rest, chunk_size)[j] == rest.subrange(j * cs, hi));
                assert(all[i] == data.subrange(i * cs, if (i + 1) * cs <= n { (i + 1) * cs } else { n }));
            }
        }
    }
}

} // verus!
