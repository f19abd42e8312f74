//! Hashing primitives: the SHA-256 digest, the leaf and interior hash
//! schemes, and the default-hash recurrence for all-empty subtrees.

use vstd::prelude::*;

verus! {

/// Leaf marker for an unoccupied leaf.
pub const EMPTY: [u8; 1] = [0];

/// Leaf marker for an occupied leaf.
pub const SET: [u8; 1] = [1];

/// The SHA-256 digest of a byte string, as a mathematical name: the digest is
/// a function of the input bytes alone.
pub uninterp spec fn sha256_of(data: Seq<u8>) -> Seq<u8>;

/// Relies on `ring::digest::digest` with `ring::digest::SHA256`: the digest
/// depends on the input bytes alone and is exactly 32 bytes long
/// (`ring::digest::SHA256_OUTPUT_LEN`). The input bound keeps the call away
/// from ring's input-too-long panic (SHA-256 caps input at 2^64 - 1 bits).
#[verifier::external_body]
pub(crate) fn sha256(data: &Vec<u8>) -> (r: Vec<u8>)
    requires
        data@.len() < 0x2000000000000000,
    ensures
        r@ == sha256_of(data@),
        r@.len() == 32,
{
    ring::digest::digest(&ring::digest::SHA256, data.as_slice()).as_ref().to_vec()
}

/// Concatenation of two byte strings.
pub fn cat(a: &Vec<u8>, b: &Vec<u8>) -> (r: Vec<u8>)
    requires
        a@.len() + b@.len() <= usize::MAX,
    ensures
        r@ == a@ + b@,
{
    let mut r = crate::bits::copy_bytes(a);
    let mut j: usize = 0;
    while j < b.len()
        invariant
            j <= b@.len(),
            r@ == a@ + b@.subrange(0, j as int),
        decreases b@.len() - j,
    {
        r.push(b[j]);
        j = j + 1;
        proof {
            assert(r@ =~= a@ + b@.subrange(0, j as int));
        }
    }
    proof {
        assert(a@ + b@.subrange(0, b@.len() as int) =~= a@ + b@);
    }
    r
}

/// The 8-byte big-endian encoding of a 64-bit integer.
pub open spec fn be_bytes(h: u64) -> Seq<u8> {
    seq![
        (h >> 56) as u8,
        (h >> 48) as u8,
        (h >> 40) as u8,
        (h >> 32) as u8,
        (h >> 24) as u8,
        (h >> 16) as u8,
        (h >> 8) as u8,
        h as u8,
    ]
}

/// Encodes `h` as 8 big-endian bytes.
pub fn u64_to_be(h: u64) -> (r: Vec<u8>)
    ensures
        r@ == be_bytes(h),
{
    let mut r: Vec<u8> = Vec::new();
    r.push(#[verifier::truncate] ((h >> 56) as u8));
    r.push(#[verifier::truncate] ((h >> 48) as u8));
    r.push(#[verifier::truncate] ((h >> 40) as u8));
    r.push(#[verifier::truncate] ((h >> 32) as u8));
    r.push(#[verifier::truncate] ((h >> 24) as u8));
    r.push(#[verifier::truncate] ((h >> 16) as u8));
    r.push(#[verifier::truncate] ((h >> 8) as u8));
    r.push(#[verifier::truncate] (h as u8));
    proof {
        assert(r@ =~= be_bytes(h));
    }
    r
}

/// The marker byte string that stands for an unoccupied leaf.
pub open spec fn is_empty_marker(a: Seq<u8>) -> bool {
    a == seq![0u8]
}

/// Decides whether `a` is the unoccupied-leaf marker.
pub fn marker_is_empty(a: &Vec<u8>) -> (r: bool)
    ensures
        r == is_empty_marker(a@),
{
    let r = a.len() == 1 && a[0] == 0;
    proof {
        if r {
            assert(a@ =~= seq![0u8]);
        } else {
            if a@ == seq![0u8] {
                assert(a@.len() == 1 && a@[0] == 0);
            }
        }
    }
    r
}

/// The one-byte marker of an occupied leaf.
pub fn set_marker() -> (r: Vec<u8>)
    ensures
        r@ == seq![1u8],
        !is_empty_marker(r@),
{
    let mut r: Vec<u8> = Vec::new();
    r.push(1);
    proof {
        assert(r@ =~= seq![1u8]);
        if r@ == seq![0u8] {
            assert(r@[0] == 0u8);
        }
    }
    r
}

/// The one-byte marker of an unoccupied leaf.
pub fn empty_marker() -> (r: Vec<u8>)
    ensures
        r@ == seq![0u8],
        is_empty_marker(r@),
{
    let mut r: Vec<u8> = Vec::new();
    r.push(0);
    proof {
        assert(r@ =~= seq![0u8]);
    }
    r
}

/// Hash of a leaf at `base`: the domain-separation prefix `c` alone for an
/// unoccupied leaf, `c` followed by the leaf's path for an occupied one.
pub open spec fn leaf_hash_of(c: Seq<u8>, occupied: bool, base: Seq<u8>) -> Seq<u8> {
    if occupied {
        sha256_of(c + base)
    } else {
        sha256_of(c)
    }
}

/// Hash of an interior node from its children's hashes: equal children
/// collapse to the bare concatenation (which drives the default-hash
/// recurrence); unequal children also bind the node's base and height.
pub open spec fn interior_hash_of(l: Seq<u8>, r: Seq<u8>, height: u64, base: Seq<u8>) -> Seq<u8> {
    if l == r {
        sha256_of(l + r)
    } else {
        sha256_of(l + r + base + be_bytes(height))
    }
}

/// Root hash of the all-empty subtree of height `h`.
pub open spec fn default_hash(c: Seq<u8>, h: int) -> Seq<u8>
    decreases h,
{
    if h <= 0 {
        sha256_of(c)
    } else {
        sha256_of(default_hash(c, h - 1) + default_hash(c, h - 1))
    }
}

/// The default hash of height `h + 1` is the equal-children interior hash of
/// two default hashes of height `h`.
pub proof fn lemma_default_hash_step(c: Seq<u8>, h: int, height: u64, base: Seq<u8>)
    requires
        h >= 0,
    ensures
        interior_hash_of(default_hash(c, h), default_hash(c, h), height, base) == default_hash(
            c,
            h + 1,
        ),
{
}

} // verus!
