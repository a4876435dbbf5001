//! SHA-256 digests of byte strings and of digest pairs, and their display.

use vstd::prelude::*;

verus! {

/// A 32-byte SHA-256 digest.
pub type Digest = [u8; 32];

/// The SHA-256 digest of a byte string, as a byte sequence.
pub uninterp spec fn sha256_of(data: Seq<u8>) -> Seq<u8>;

/// The digest of an interior node: SHA-256 over `left || right`.
pub open spec fn pair_hash(left: Seq<u8>, right: Seq<u8>) -> Seq<u8> {
    sha256_of(left + right)
}

/// The lowercase hexadecimal character for a value below 16.
pub open spec fn hex_digit(n: int) -> char {
    seq!['0', '1', '2', '3', '4', '5', '6', '7', '8', '9', 'a', 'b', 'c', 'd', 'e', 'f'][n]
}

/// Lowercase hexadecimal text of a byte string: two characters per byte,
/// high nibble first, no separators.
pub open spec fn hex_of(bytes: Seq<u8>) -> Seq<char> {
    Seq::new(
        2 * bytes.len(),
        |i: int|
            if i % 2 == 0 {
                hex_digit(bytes[i / 2] as int / 16)
            } else {
                hex_digit(bytes[i / 2] as int % 16)
            },
    )
}

/// Relies on sha2's `Sha256::digest` (via `digest::Digest`): the 32-byte
/// SHA-256 digest of `data`, a function of the bytes alone.
#[verifier::external_body]
fn sha256(data: &[u8]) -> (r: Digest)
    ensures
        r@ == sha256_of(data@),
{
    <sha2::Sha256 as sha2::Digest>::digest(data).into()
}

/// Relies on hex's `encode`: two lowercase digits per byte, from the table
/// `0123456789abcdef`, high nibble first.
#[verifier::external_body]
fn hex_encode(bytes: &[u8]) -> (r: String)
    ensures
        r@ == hex_of(bytes@),
{
    hex::encode(bytes)
}

/// The leaf hash of a chunk: SHA-256 over its raw bytes.
pub fn sha256_bytes(data: &[u8]) -> (r: Digest)
    ensures
        r@ == sha256_of(data@),
{
    sha256(data)
}

/// The digest of the concatenation `left || right`, in that order.
pub fn hash_pair(left: &Digest, right: &Digest) -> (r: Digest)
    ensures
        r@ == pair_hash(left@, right@),
{
    let mut buf: Vec<u8> = Vec::with_capacity(64);
    let mut i: usize = 0;
    while i < 32
        invariant
            i <= 32,
            buf@ == left@.subrange(0, i as int),
        decreases 32 - i,
    {
        buf.push(left[i]);
        i = i + 1;
    }
    let mut j: usize = 0;
    while j < 32
        invariant
            j <= 32,
            buf@ == left@ + right@.subrange(0, j as int),
        decreases 32 - j,
    {
        buf.push(right[j]);
        j = j + 1;
    }
    assert(right@.subrange(0, 32) == right@);
    sha256(buf.as_slice())
}

/// Whether two digests hold the same bytes.
pub fn digest_eq(a: &Digest, b: &Digest) -> (r: bool)
    ensures
        r == (a@ == b@),
{
    let mut i: usize = 0;
    while i < 32
        invariant
            i <= 32,
            forall|k: int| 0 <= k < i ==> a@[k] == b@[k],
        decreases 32 - i,
    {
        if a[i] != b[i] {
            return false;
        }
        i = i + 1;
    }
    assert(a@ =~= b@);
    true
}

/// The display form of a digest: 64 lowercase hexadecimal characters.
pub fn digest_hex(d: &Digest) -> (r: String)
    ensures
        r@ == hex_of(d@),
        r@.len() == 64,
{
    hex_encode(d.as_slice())
}

} // verus!
