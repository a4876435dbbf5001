//! Laws that relate root construction, proof generation and proof checking.

use vstd::prelude::*;
use vstd::arithmetic::power2::{pow2, lemma_pow2_unfold};
use crate::digest::{Digest, pair_hash, sha256_of};
use crate::tree::{view_digests, fold_level, padded, merkle_root, merkle_proof, proof_root, sibling, lemma_fold_len};

verus! {

/// The root is a function of the leaf sequence: equal leaf sequences give
/// equal roots.
pub proof fn lemma_root_deterministic(a: Seq<Digest>, b: Seq<Digest>)
    requires
        a == b,
    ensures
        merkle_root(view_digests(a)) == merkle_root(view_digests(b)),
{
}

/// The root of no leaves is the digest of the empty byte string.
pub proof fn lemma_empty_root()
    ensures
        merkle_root(view_digests(Seq::<Digest>::empty())) == sha256_of(Seq::empty()),
{
}

/// The root of a single leaf is that leaf.
pub proof fn lemma_single_leaf_root(d: Digest)
    ensures
        merkle_root(view_digests(seq![d])) == d@,
{
}

/// Three leaves `[a, b, c]` fold with `c` duplicated:
/// the root is `H(H(a, b), H(c, c))`.
pub proof fn lemma_three_leaf_root(a: Digest, b: Digest, c: Digest)
    ensures
        merkle_root(view_digests(seq![a, b, c])) == pair_hash(pair_hash(a@, b@), pair_hash(c@, c@)),
{
    let l = view_digests(seq![a, b, c]);
    let p = padded(l);
    assert(p =~= seq![a@, b@, c@, c@]);
    let f = fold_level(l);
    assert(f =~= seq![pair_hash(a@, b@), pair_hash(c@, c@)]);
    let g = fold_level(f);
    assert(padded(f) =~= f);
    assert(g =~= seq![pair_hash(pair_hash(a@, b@), pair_hash(c@, c@))]);
    assert(merkle_root(l) == merkle_root(f));
    assert(merkle_root(f) == merkle_root(g));
}

/// The node at position `index / 2` of the folded level is the node at
/// `index` hashed with its sibling, on the side that the parity of `index`
/// gives.
proof fn lemma_fold_at(level: Seq<Seq<u8>>, index: int)
    requires
        0 <= index < level.len(),
    ensures
        index / 2 < fold_level(level).len(),
        fold_level(level)[index / 2] == if index % 2 == 0 {
            pair_hash(level[index], sibling(level, index))
        } else {
            pair_hash(sibling(level, index), level[index])
        },
{
    lemma_fold_len(level);
    let p = padded(level);
    assert(p[index] == level[index]);
    if index % 2 == 0 {
        assert(2 * (index / 2) == index);
    } else {
        assert(2 * (index / 2) + 1 == index);
    }
}

/// A generated proof leads from its leaf back to the root, on any level
/// sequence.
proof fn lemma_round_trip_views(leaves: Seq<Seq<u8>>, index: int)
    requires
        0 <= index < leaves.len(),
    ensures
        proof_root(leaves[index], index, merkle_proof(leaves, index)) == merkle_root(leaves),
    decreases leaves.len(),
{
    if leaves.len() > 1 {
        let f = fold_level(leaves);
        lemma_fold_len(leaves);
        lemma_fold_at(leaves, index);
        lemma_round_trip_views(f, index / 2);
        let proof = merkle_proof(leaves, index);
        assert(proof[0] == sibling(leaves, index));
        assert(proof.drop_first() =~= merkle_proof(f, index / 2));
    }
}

/// For every non-empty leaf sequence and every valid index, the proof
/// generated for that index verifies the leaf against the root built from
/// the same sequence.
pub proof fn lemma_proof_round_trip(leaves: Seq<Digest>, index: int)
    requires
        0 <= index < leaves.len(),
    ensures
        proof_root(leaves[index]@, index, merkle_proof(view_digests(leaves), index))
            == merkle_root(view_digests(leaves)),
{
    lemma_round_trip_views(view_digests(leaves), index);
}

proof fn lemma_proof_len_views(leaves: Seq<Seq<u8>>, index: int)
    requires
        0 <= index < leaves.len(),
    ensures
        leaves.len() <= 1 ==> merkle_proof(leaves, index).len() == 0,
        leaves.len() > 1 ==> merkle_proof(leaves, index).len() > 0
            && pow2(merkle_proof(leaves, index).len()) >= leaves.len()
            && pow2((merkle_proof(leaves, index).len() - 1) as nat) < leaves.len(),
    decreases leaves.len(),
{
    if leaves.len() > 1 {
        let f = fold_level(leaves);
        lemma_fold_len(leaves);
        lemma_fold_at(leaves, index);
        lemma_proof_len_views(f, index / 2);
        let d = merkle_proof(f, index / 2).len();
        assert(merkle_proof(leaves, index).len() == d + 1);
        lemma_pow2_unfold(d + 1);
        if d > 0 {
            lemma_pow2_unfold(d);
        } else {
            assert(pow2(0) == 1) by { vstd::arithmetic::power2::lemma_pow2(0); vstd::arithmetic::power::lemma_pow0(2); }
        }
    }
}

/// A proof for one of `n > 1` leaves holds exactly `ceil(log2(n))` digests:
/// the least `k` with `2^k >= n`. For a single leaf it is empty.
pub proof fn lemma_proof_length(leaves: Seq<Digest>, index: int)
    requires
        0 <= index < leaves.len(),
    ensures
        leaves.len() == 1 ==> merkle_proof(view_digests(leaves), index).len() == 0,
        leaves.len() > 1 ==> ({
            let k = merkle_proof(view_digests(leaves), index).len();
            k > 0 && pow2(k) >= leaves.len() && pow2((k - 1) as nat) < leaves.len()
        }),
{
    lemma_proof_len_views(view_digests(leaves), index);
}

} // verus!
