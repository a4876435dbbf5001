use merkle_ota::chunk::{leaf_hashes, tamper_chunk};
use merkle_ota::digest::{digest_eq, digest_hex, hash_pair, sha256_bytes, Digest};
use merkle_ota::tree::{build_merkle_root, gen_proof, verify_proof};

fn h(s: &str) -> Digest {
    sha256_bytes(s.as_bytes())
}

fn leaves_of(n: usize) -> Vec<Digest> {
    (0..n).map(|i| h(&format!("leaf-{}", i))).collect()
}

fn concat(a: &Digest, b: &Digest) -> Vec<u8> {
    let mut v = a.to_vec();
    v.extend_from_slice(b);
    v
}

#[test]
fn empty_string_digest() {
    assert_eq!(
        digest_hex(&sha256_bytes(b"")),
        "e3b0c44298fc1c149afbf4c8996fb92427ae41e4649b934ca495991b7852b855"
    );
}

#[test]
fn abc_digest() {
    assert_eq!(
        digest_hex(&h("abc")),
        "ba7816bf8f01cfea414140de5dae2223b00361a396177a9cb410ff61f20015ad"
    );
}

#[test]
fn hex_is_lowercase_and_ordered() {
    let mut d = [0u8; 32];
    d[0] = 0xAB;
    d[1] = 0x0F;
    d[31] = 0xF0;
    let s = digest_hex(&d);
    assert_eq!(s.len(), 64);
    assert!(s.starts_with("ab0f00"));
    assert!(s.ends_with("00f0"));
}

#[test]
fn pair_hash_is_hash_of_concatenation() {
    let a = h("a");
    let b = h("b");
    assert_eq!(hash_pair(&a, &b), sha256_bytes(&concat(&a, &b)));
    assert_ne!(hash_pair(&a, &b), a);
}

#[test]
fn pair_hash_order_matters() {
    let a = h("a");
    let b = h("b");
    assert_ne!(hash_pair(&a, &b), hash_pair(&b, &a));
}

#[test]
fn digest_equality() {
    let a = h("a");
    let mut b = a;
    assert!(digest_eq(&a, &b));
    b[31] ^= 1;
    assert!(!digest_eq(&a, &b));
}

#[test]
fn root_is_deterministic() {
    let l = leaves_of(7);
    assert_eq!(build_merkle_root(l.clone()), build_merkle_root(l.clone()));
}

#[test]
fn empty_root_is_empty_string_digest() {
    assert_eq!(build_merkle_root(Vec::new()), sha256_bytes(b""));
}

#[test]
fn single_leaf_root_is_the_leaf() {
    let d = h("only");
    assert_eq!(build_merkle_root(vec![d]), d);
}

#[test]
fn two_leaf_root() {
    let a = h("a");
    let b = h("b");
    assert_eq!(build_merkle_root(vec![a, b]), hash_pair(&a, &b));
}

#[test]
fn odd_count_duplicates_last() {
    let a = h("a");
    let b = h("b");
    let c = h("c");
    let expected = hash_pair(&hash_pair(&a, &b), &hash_pair(&c, &c));
    assert_eq!(build_merkle_root(vec![a, b, c]), expected);
}

#[test]
fn five_leaf_root() {
    let l = leaves_of(5);
    let ab = hash_pair(&l[0], &l[1]);
    let cd = hash_pair(&l[2], &l[3]);
    let ee = hash_pair(&l[4], &l[4]);
    let left = hash_pair(&ab, &cd);
    let right = hash_pair(&ee, &ee);
    assert_eq!(build_merkle_root(l), hash_pair(&left, &right));
}

#[test]
fn every_proof_verifies() {
    for n in 1..=17 {
        let l = leaves_of(n);
        let root = build_merkle_root(l.clone());
        for i in 0..n {
            let proof = gen_proof(l.clone(), i);
            assert!(verify_proof(&l[i], i, &proof, &root), "n = {}, i = {}", n, i);
        }
    }
}

#[test]
fn proof_lengths() {
    let cases: [(usize, usize); 10] =
        [(1, 0), (2, 1), (3, 2), (4, 2), (5, 3), (7, 3), (8, 3), (9, 4), (16, 4), (17, 5)];
    for (n, k) in cases {
        let l = leaves_of(n);
        for i in 0..n {
            assert_eq!(gen_proof(l.clone(), i).len(), k, "n = {}, i = {}", n, i);
        }
    }
}

#[test]
fn proof_of_duplicated_last_leaf() {
    let l = leaves_of(3);
    let proof = gen_proof(l.clone(), 2);
    assert_eq!(proof, vec![l[2], hash_pair(&l[0], &l[1])]);
}

#[test]
fn four_leaf_scenario() {
    let (a, b, c, d) = (h("a"), h("b"), h("c"), h("d"));
    let l = vec![a, b, c, d];
    let root = build_merkle_root(l.clone());
    assert_eq!(root, hash_pair(&hash_pair(&a, &b), &hash_pair(&c, &d)));
    let proof = gen_proof(l.clone(), 2);
    assert_eq!(proof, vec![d, hash_pair(&a, &b)]);
    assert!(verify_proof(&c, 2, &proof, &root));
}

#[test]
fn tampered_chunk_fails_verification() {
    let data: Vec<u8> = (0..40u32).map(|i| (i * 7 % 256) as u8).collect();
    let chunk_size: usize = 10;
    let old_leaves = leaf_hashes(&data, chunk_size);
    let old_root = build_merkle_root(old_leaves.clone());
    let old_proof = gen_proof(old_leaves.clone(), 2);

    let mut chunk = data[20..30].to_vec();
    tamper_chunk(&mut chunk);
    let mut tampered = data.clone();
    tampered[20..30].copy_from_slice(&chunk);

    let new_leaves = leaf_hashes(&tampered, chunk_size);
    assert_ne!(new_leaves[2], old_leaves[2]);
    let new_root = build_merkle_root(new_leaves.clone());
    assert_ne!(new_root, old_root);
    assert!(!verify_proof(&old_leaves[2], 2, &old_proof, &new_root));
    assert!(!verify_proof(&new_leaves[2], 2, &old_proof, &old_root));
    assert!(verify_proof(&old_leaves[2], 2, &old_proof, &old_root));
}

#[test]
fn proof_from_other_tree_fails() {
    let l = leaves_of(6);
    let other: Vec<Digest> = (0..6).map(|i| h(&format!("other-{}", i))).collect();
    let mut mixed = other.clone();
    mixed[3] = l[3];
    let root = build_merkle_root(l.clone());
    let foreign = gen_proof(mixed, 3);
    assert_eq!(foreign.len(), 3);
    assert!(!verify_proof(&l[3], 3, &foreign, &root));
}

#[test]
fn malformed_proofs_are_rejected() {
    let l = leaves_of(8);
    let root = build_merkle_root(l.clone());
    let proof = gen_proof(l.clone(), 5);
    assert!(!verify_proof(&l[5], 4, &proof, &root));
    assert!(!verify_proof(&l[5], 5, &proof[..2], &root));
    assert!(!verify_proof(&l[5], 5, &[], &root));
    let mut longer = proof.clone();
    longer.push(l[0]);
    assert!(!verify_proof(&l[5], 5, &longer, &root));
}

#[test]
fn empty_proof_checks_leaf_against_root() {
    let d = h("x");
    assert!(verify_proof(&d, 0, &[], &d));
    assert!(!verify_proof(&d, 0, &[], &h("y")));
}

#[test]
fn chunking_with_short_last_chunk() {
    let data: Vec<u8> = (0..10u8).collect();
    let leaves = leaf_hashes(&data, 4);
    assert_eq!(
        leaves,
        vec![sha256_bytes(&data[0..4]), sha256_bytes(&data[4..8]), sha256_bytes(&data[8..10])]
    );
}

#[test]
fn chunking_exact_multiple() {
    let data: Vec<u8> = (0..12u8).collect();
    let leaves = leaf_hashes(&data, 4);
    assert_eq!(leaves.len(), 3);
    assert_eq!(leaves[2], sha256_bytes(&data[8..12]));
}

#[test]
fn chunking_empty_and_oversized() {
    assert!(leaf_hashes(&[], 4).is_empty());
    let data = b"hello".to_vec();
    assert_eq!(leaf_hashes(&data, 1024), vec![sha256_bytes(&data)]);
}

#[test]
fn tamper_flips_first_byte_only() {
    let mut chunk = vec![0x0Fu8, 1, 2];
    tamper_chunk(&mut chunk);
    assert_eq!(chunk, vec![0xF0u8, 1, 2]);
}
