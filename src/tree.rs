//! The Merkle tree: root construction, inclusion proofs and their check.
//!
//! A level with an odd number of nodes is extended by a copy of its last
//! node before it is folded pairwise into the next level; construction and
//! proof generation share that rule through `next_level`.

use vstd::prelude::*;
use crate::digest::{Digest, hash_pair, pair_hash, sha256_of, sha256_bytes, digest_eq};

verus! {

/// The byte views of a sequence of digests.
pub open spec fn view_digests(nodes: Seq<Digest>) -> Seq<Seq<u8>> {
    nodes.map_values(|d: Digest| d@)
}

/// A level extended by a copy of its last node when its length is odd.
pub open spec fn padded(level: Seq<Seq<u8>>) -> Seq<Seq<u8>> {
    if level.len() % 2 == 1 {
        level.push(level.last())
    } else {
        level
    }
}

/// The level above `level`: each adjacent pair of the padded level hashed in order.
pub open spec fn fold_level(level: Seq<Seq<u8>>) -> Seq<Seq<u8>> {
    let p = padded(level);
    Seq::new(p.len() / 2, |j: int| pair_hash(p[2 * j], p[2 * j + 1]))
}

/// The Merkle root of a leaf sequence; the digest of the empty byte string
/// when there are no leaves.
pub open spec fn merkle_root(leaves: Seq<Seq<u8>>) -> Seq<u8>
    decreases leaves.len(),
{
    if leaves.len() == 0 {
        sha256_of(Seq::empty())
    } else if leaves.len() == 1 {
        leaves[0]
    } else {
        merkle_root(fold_level(leaves))
    }
}

/// The node paired with position `index` when `level` is folded.
pub open spec fn sibling(level: Seq<Seq<u8>>, index: int) -> Seq<u8> {
    if index % 2 == 0 {
        padded(level)[index + 1]
    } else {
        padded(level)[index - 1]
    }
}

/// The inclusion proof of the leaf at `index`: its sibling on each level,
/// leaf level first, up to but not including the root.
pub open spec fn merkle_proof(leaves: Seq<Seq<u8>>, index: int) -> Seq<Seq<u8>>
    decreases leaves.len(),
{
    if leaves.len() <= 1 {
        Seq::empty()
    } else {
        seq![sibling(leaves, index)] + merkle_proof(fold_level(leaves), index / 2)
    }
}

/// The root recomputed from a leaf, its index and a proof: each sibling is
/// hashed on the right of the running digest when the index is even, on the
/// left when it is odd, and the index is halved after each step.
pub open spec fn proof_root(leaf: Seq<u8>, index: int, proof: Seq<Seq<u8>>) -> Seq<u8>
    decreases proof.len(),
{
    if proof.len() == 0 {
        leaf
    } else {
        let next = if index % 2 == 0 {
            pair_hash(leaf, proof[0])
        } else {
            pair_hash(proof[0], leaf)
        };
        proof_root(next, index / 2, proof.drop_first())
    }
}

/// Folding shortens every level of two or more nodes, to half its length
/// rounded up.
pub proof fn lemma_fold_len(level: Seq<Seq<u8>>)
    ensures
        fold_level(level).len() == (level.len() + 1) / 2,
        level.len() >= 2 ==> fold_level(level).len() < level.len(),
{
}

/// Folds one level into the next, duplicating the last node of an odd level.
fn next_level(nodes: &Vec<Digest>) -> (next: Vec<Digest>)
    ensures
        view_digests(next@) == fold_level(view_digests(nodes@)),
{
    let n = nodes.len();
    let half = n / 2 + n % 2;
    let ghost level = view_digests(nodes@);
    let mut next: Vec<Digest> = Vec::with_capacity(half);
    let mut j: usize = 0;
    while j < half
        invariant
            n == nodes@.len(),
            half == (n + 1) / 2,
            level == view_digests(nodes@),
            j <= half,
            next@.len() == j,
            forall|k: int| 0 <= k < j ==> #[trigger] next@[k]@ == fold_level(level)[k],
        decreases half - j,
    {
        let left = nodes[2 * j];
        let right = if 2 * j + 1 < n { nodes[2 * j + 1] } else { nodes[2 * j] };
        let parent = hash_pair(&left, &right);
        proof {
            lemma_fold_len(level);
            assert(padded(level)[2 * j] == left@);
            assert(padded(level)[2 * j + 1] == right@);
        }
        next.push(parent);
        j = j + 1;
    }
    proof {
        lemma_fold_len(level);
        assert(view_digests(next@) =~= fold_level(level));
    }
    next
}

/// Builds the Merkle root of a leaf sequence.
pub fn build_merkle_root(nodes: Vec<Digest>) -> (root: Digest)
    ensures
        root@ == merkle_root(view_digests(nodes@)),
        nodes@.len() == 0 ==> root@ == sha256_of(Seq::empty()),
        nodes@.len() == 1 ==> root == nodes@[0],
{
    if nodes.len() == 0 {
        let empty: Vec<u8> = Vec::new();
        let r = sha256_bytes(empty.as_slice());
        assert(empty@ =~= Seq::<u8>::empty());
        return r;
    }
    let ghost leaves = view_digests(nodes@);
    let mut level = nodes;
    while level.len() > 1
        invariant
            level@.len() >= 1,
            merkle_root(view_digests(level@)) == merkle_root(leaves),
        decreases level@.len(),
    {
        proof { lemma_fold_len(view_digests(level@)); }
        level = next_level(&level);
    }
    level[0]
}


/// The node that folding pairs with position `index` of `nodes`.
fn sibling_of(nodes: &Vec<Digest>, index: usize) -> (r: Digest)
    requires
        index < nodes@.len(),
    ensures
        r@ == sibling(view_digests(nodes@), index as int),
{
    if index % 2 == 0 {
        if index + 1 < nodes.len() {
            nodes[index + 1]
        } else {
            nodes[index]
        }
    } else {
        nodes[index - 1]
    }
}

/// Generates the inclusion proof of the leaf at `index`.
pub fn gen_proof(nodes: Vec<Digest>, index: usize) -> (proof: Vec<Digest>)
    requires
        index < nodes@.len(),
    ensures
        view_digests(proof@) == merkle_proof(view_digests(nodes@), index as int),
{
    let ghost leaves = view_digests(nodes@);
    let mut proof: Vec<Digest> = Vec::new();
    let mut level = nodes;
    let mut idx = index;
    while level.len() > 1
        invariant
            idx < level@.len(),
            view_digests(proof@) + merkle_proof(view_digests(level@), idx as int)
                == merkle_proof(leaves, index as int),
        decreases level@.len(),
    {
        let ghost cur = view_digests(level@);
        let ghost before = view_digests(proof@);
        let ghost i = idx as int;
        let sib = sibling_of(&level, idx);
        proof.push(sib);
        proof { lemma_fold_len(cur); }
        level = next_level(&level);
        idx = idx / 2;
        proof {
            assert(merkle_proof(cur, i) == seq![sibling(cur, i)] + merkle_proof(fold_level(cur), i / 2));
            assert(view_digests(proof@) =~= before.push(sib@));
            assert(view_digests(proof@) + merkle_proof(view_digests(level@), idx as int)
                =~= before + merkle_proof(cur, i));
        }
    }
    proof
}


/// Checks an inclusion proof: recomputes the root from `leaf_hash` and
/// `index` through `proof` and compares it with `root`.
pub fn verify_proof(leaf_hash: &Digest, index: usize, proof: &[Digest], root: &Digest) -> (ok: bool)
    ensures
        ok == (proof_root(leaf_hash@, index as int, view_digests(proof@)) == root@),
{
    let ghost all = view_digests(proof@);
    let mut cur: Digest = *leaf_hash;
    let mut idx = index;
    let mut k: usize = 0;
    assert(all.subrange(0, all.len() as int) =~= all);
    while k < proof.len()
        invariant
            k <= proof@.len(),
            all == view_digests(proof@),
            proof_root(cur@, idx as int, all.subrange(k as int, all.len() as int))
                == proof_root(leaf_hash@, index as int, all),
        decreases proof@.len() - k,
    {
        let ghost rest = all.subrange(k as int, all.len() as int);
        let sib = proof[k];
        if idx % 2 == 0 {
            cur = hash_pair(&cur, &sib);
        } else {
            cur = hash_pair(&sib, &cur);
        }
        idx = idx / 2;
        k = k + 1;
        proof {
            assert(rest[0] == sib@);
            assert(rest.drop_first() =~= all.subrange(k as int, all.len() as int));
        }
    }
    proof {
        assert(all.subrange(k as int, all.len() as int) =~= Seq::<Seq<u8>>::empty());
    }
    digest_eq(&cur, root)
}

} // verus!
