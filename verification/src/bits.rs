//! Big-endian bit addressing inside byte strings.
//!
//! Bit `0` of a byte string is the most significant bit of byte `0`;
//! bit `i` lives in byte `i / 8` at in-byte position `i % 8`.

use vstd::prelude::*;

verus! {

/// True when bit `j` (0 = most significant) of byte `x` is one.
pub open spec fn byte_bit(x: u8, j: int) -> bool {
    (x >> ((7 - j) as u8)) & 1u8 == 1u8
}

/// Byte `x` with bit `j` (0 = most significant) forced to one.
pub open spec fn byte_with_bit(x: u8, j: int) -> u8 {
    x | (1u8 << ((7 - j) as u8))
}

/// True when bit `i` of the byte string `s` is one (big-endian bit order).
pub open spec fn bit_at(s: Seq<u8>, i: int) -> bool {
    byte_bit(s[i / 8], i % 8)
}

/// The byte string `s` with bit `i` forced to one.
pub open spec fn with_bit(s: Seq<u8>, i: int) -> Seq<u8> {
    s.update(i / 8, byte_with_bit(s[i / 8], i % 8))
}

/// Bits `p` and above (up to bit `8 * s.len()`) of `s` are all zero.
pub open spec fn zeros_from(s: Seq<u8>, p: int) -> bool {
    forall|j: int| p <= j < 8 * s.len() ==> !bit_at(s, j)
}

/// `a` and `b` agree on every bit strictly below position `p`.
pub open spec fn bits_eq_below(a: Seq<u8>, b: Seq<u8>, p: int) -> bool {
    forall|j: int| 0 <= j < p ==> bit_at(a, j) == bit_at(b, j)
}

/// Reads bit `i` of `bits`, where bit 0 is the most significant bit of byte 0.
pub fn bit_is_set(bits: &Vec<u8>, i: u64) -> (r: bool)
    requires
        i / 8 < bits@.len(),
    ensures
        r == bit_at(bits@, i as int),
{
    let nbytes = bits.len();
    let idx = (i / 8) as usize;
    proof {
        assert(idx < nbytes);
    }
    let b: u8 = bits[idx];
    let sh: u8 = (7 - (i % 8)) as u8;
    let r = b & (1u8 << sh) != 0;
    proof {
        assert((b & (1u8 << sh) != 0) == ((b >> sh) & 1u8 == 1u8)) by (bit_vector)
            requires
                sh < 8,
        ;
        assert(i as int % 8 == (i % 8) as int);
    }
    r
}

/// Sets bit `i` of `bits` in place; all other bits are unchanged.
pub fn bit_set(bits: &mut Vec<u8>, i: u64)
    requires
        i / 8 < old(bits)@.len(),
    ensures
        final(bits)@ == with_bit(old(bits)@, i as int),
{
    let nbytes = bits.len();
    let idx = (i / 8) as usize;
    proof {
        assert(idx < nbytes);
    }
    let b: u8 = bits[idx];
    let sh: u8 = (7 - (i % 8)) as u8;
    bits.set(idx, b | (1u8 << sh));
    proof {
        assert(i as int % 8 == (i % 8) as int);
        assert(bits@ =~= with_bit(old(bits)@, i as int));
    }
}

/// Returns a copy of `bits` with bit `i` set (lower bits are not cleared).
pub fn bit_split(bits: &Vec<u8>, i: u64) -> (r: Vec<u8>)
    requires
        i / 8 < bits@.len(),
    ensures
        r@ == with_bit(bits@, i as int),
{
    let mut split = copy_bytes(bits);
    bit_set(&mut split, i);
    split
}

/// Byte-for-byte copy of a byte string.
pub fn copy_bytes(v: &Vec<u8>) -> (r: Vec<u8>)
    ensures
        r@ == v@,
{
    let mut r: Vec<u8> = Vec::new();
    let mut i: usize = 0;
    while i < v.len()
        invariant
            i <= v@.len(),
            r@ == v@.subrange(0, i as int),
        decreases v@.len() - i,
    {
        r.push(v[i]);
        i = i + 1;
        proof {
            assert(r@ =~= v@.subrange(0, i as int));
        }
    }
    proof {
        assert(r@ =~= v@);
    }
    r
}

/// Byte-for-byte equality of two byte strings.
pub fn bytes_equal(a: &Vec<u8>, b: &Vec<u8>) -> (r: bool)
    ensures
        r == (a@ == b@),
{
    if a.len() != b.len() {
        return false;
    }
    let mut i: usize = 0;
    while i < a.len()
        invariant
            a@.len() == b@.len(),
            i <= a@.len(),
            forall|j: int| 0 <= j < i ==> a@[j] == b@[j],
        decreases a@.len() - i,
    {
        if a[i] != b[i] {
            return false;
        }
        i = i + 1;
    }
    proof {
        assert(a@ =~= b@);
    }
    true
}

/// Two bytes that agree on all eight bits are equal.
pub proof fn lemma_byte_eq_from_bits(x: u8, y: u8)
    requires
        forall|j: int| 0 <= j < 8 ==> byte_bit(x, j) == byte_bit(y, j),
    ensures
        x == y,
{
    assert(byte_bit(x, 0) == byte_bit(y, 0));
    assert(byte_bit(x, 1) == byte_bit(y, 1));
    assert(byte_bit(x, 2) == byte_bit(y, 2));
    assert(byte_bit(x, 3) == byte_bit(y, 3));
    assert(byte_bit(x, 4) == byte_bit(y, 4));
    assert(byte_bit(x, 5) == byte_bit(y, 5));
    assert(byte_bit(x, 6) == byte_bit(y, 6));
    assert(byte_bit(x, 7) == byte_bit(y, 7));
    assert(x == y) by (bit_vector)
        requires
            ((x >> 7u8) & 1u8 == 1u8) == ((y >> 7u8) & 1u8 == 1u8),
            ((x >> 6u8) & 1u8 == 1u8) == ((y >> 6u8) & 1u8 == 1u8),
            ((x >> 5u8) & 1u8 == 1u8) == ((y >> 5u8) & 1u8 == 1u8),
            ((x >> 4u8) & 1u8 == 1u8) == ((y >> 4u8) & 1u8 == 1u8),
            ((x >> 3u8) & 1u8 == 1u8) == ((y >> 3u8) & 1u8 == 1u8),
            ((x >> 2u8) & 1u8 == 1u8) == ((y >> 2u8) & 1u8 == 1u8),
            ((x >> 1u8) & 1u8 == 1u8) == ((y >> 1u8) & 1u8 == 1u8),
            ((x >> 0u8) & 1u8 == 1u8) == ((y >> 0u8) & 1u8 == 1u8),
    ;
}

/// Every bit of the zero byte is zero.
pub proof fn lemma_zero_byte_bit(j: int)
    requires
        0 <= j < 8,
    ensures
        !byte_bit(0u8, j),
{
    let sh = (7 - j) as u8;
    assert((0u8 >> sh) & 1u8 != 1u8) by (bit_vector);
}

/// Setting bit `r` of a byte turns that bit on and leaves all others alone.
pub proof fn lemma_byte_with_bit(x: u8, r: int, i: int)
    requires
        0 <= r < 8,
        0 <= i < 8,
    ensures
        byte_bit(byte_with_bit(x, r), r),
        i != r ==> byte_bit(byte_with_bit(x, r), i) == byte_bit(x, i),
{
    let sr = (7 - r) as u8;
    let si = (7 - i) as u8;
    assert(((x | (1u8 << sr)) >> sr) & 1u8 == 1u8) by (bit_vector)
        requires
            sr < 8,
    ;
    assert(si != sr ==> ((x | (1u8 << sr)) >> si) & 1u8 == (x >> si) & 1u8) by (bit_vector)
        requires
            sr < 8,
            si < 8,
    ;
}

/// A byte whose bits above `r` are all zero and whose bits up to `r` agree
/// with `y`'s is at most `y`.
pub proof fn lemma_byte_le_high_zeros(x: u8, y: u8, r: int)
    requires
        0 <= r < 8,
        forall|i: int| 0 <= i <= r ==> byte_bit(x, i) == byte_bit(y, i),
        forall|i: int| r < i < 8 ==> !byte_bit(x, i),
    ensures
        x <= y,
{
    let sr = (7 - r) as u8;
    let m = (y & (0xffu8 << sr)) as u8;
    assert forall|j: int| 0 <= j < 8 implies byte_bit(x, j) == byte_bit(m, j) by {
        let sj = (7 - j) as u8;
        assert((((y & (0xffu8 << sr)) >> sj) & 1u8 == 1u8) == ((sj >= sr) && ((y >> sj) & 1u8
            == 1u8))) by (bit_vector)
            requires
                sr < 8,
                sj < 8,
        ;
        if j <= r {
            assert(sj >= sr);
            assert(byte_bit(x, j) == byte_bit(y, j));
        } else {
            assert(sj < sr);
            assert(!byte_bit(x, j));
        }
    }
    lemma_byte_eq_from_bits(x, m);
    assert((y & (0xffu8 << sr)) <= y) by (bit_vector);
}

/// If two bytes agree on bits above bit `j`, and at bit `j` the first has a
/// zero where the second has a one, the first byte is the smaller.
pub proof fn lemma_byte_lt_from_bits(x: u8, y: u8, j: int)
    requires
        0 <= j < 8,
        forall|i: int| 0 <= i < j ==> byte_bit(x, i) == byte_bit(y, i),
        !byte_bit(x, j),
        byte_bit(y, j),
    ensures
        x < y,
{
    if j == 0 {
        assert(x < y) by (bit_vector)
            requires
                !((x >> 7u8) & 1u8 == 1u8),
                (y >> 7u8) & 1u8 == 1u8,
        ;
    } else if j == 1 {
        assert(byte_bit(x, 0) == byte_bit(y, 0));
        assert(x < y) by (bit_vector)
            requires
                ((x >> 7u8) & 1u8 == 1u8) == ((y >> 7u8) & 1u8 == 1u8),
                !((x >> 6u8) & 1u8 == 1u8),
                (y >> 6u8) & 1u8 == 1u8,
        ;
    } else if j == 2 {
        assert(byte_bit(x, 0) == byte_bit(y, 0));
        assert(byte_bit(x, 1) == byte_bit(y, 1));
        assert(x < y) by (bit_vector)
            requires
                ((x >> 7u8) & 1u8 == 1u8) == ((y >> 7u8) & 1u8 == 1u8),
                ((x >> 6u8) & 1u8 == 1u8) == ((y >> 6u8) & 1u8 == 1u8),
                !((x >> 5u8) & 1u8 == 1u8),
                (y >> 5u8) & 1u8 == 1u8,
        ;
    } else if j == 3 {
        assert(byte_bit(x, 0) == byte_bit(y, 0));
        assert(byte_bit(x, 1) == byte_bit(y, 1));
        assert(byte_bit(x, 2) == byte_bit(y, 2));
        assert(x < y) by (bit_vector)
            requires
                ((x >> 7u8) & 1u8 == 1u8) == ((y >> 7u8) & 1u8 == 1u8),
                ((x >> 6u8) & 1u8 == 1u8) == ((y >> 6u8) & 1u8 == 1u8),
                ((x >> 5u8) & 1u8 == 1u8) == ((y >> 5u8) & 1u8 == 1u8),
                !((x >> 4u8) & 1u8 == 1u8),
                (y >> 4u8) & 1u8 == 1u8,
        ;
    } else if j == 4 {
        assert(byte_bit(x, 0) == byte_bit(y, 0));
        assert(byte_bit(x, 1) == byte_bit(y, 1));
        assert(byte_bit(x, 2) == byte_bit(y, 2));
        assert(byte_bit(x, 3) == byte_bit(y, 3));
        assert(x < y) by (bit_vector)
            requires
                ((x >> 7u8) & 1u8 == 1u8) == ((y >> 7u8) & 1u8 == 1u8),
                ((x >> 6u8) & 1u8 == 1u8) == ((y >> 6u8) & 1u8 == 1u8),
                ((x >> 5u8) & 1u8 == 1u8) == ((y >> 5u8) & 1u8 == 1u8),
                ((x >> 4u8) & 1u8 == 1u8) == ((y >> 4u8) & 1u8 == 1u8),
                !((x >> 3u8) & 1u8 == 1u8),
                (y >> 3u8) & 1u8 == 1u8,
        ;
    } else if j == 5 {
        assert(byte_bit(x, 0) == byte_bit(y, 0));
        assert(byte_bit(x, 1) == byte_bit(y, 1));
        assert(byte_bit(x, 2) == byte_bit(y, 2));
        assert(byte_bit(x, 3) == byte_bit(y, 3));
        assert(byte_bit(x, 4) == byte_bit(y, 4));
        assert(x < y) by (bit_vector)
            requires
                ((x >> 7u8) & 1u8 == 1u8) == ((y >> 7u8) & 1u8 == 1u8),
                ((x >> 6u8) & 1u8 == 1u8) == ((y >> 6u8) & 1u8 == 1u8),
                ((x >> 5u8) & 1u8 == 1u8) == ((y >> 5u8) & 1u8 == 1u8),
                ((x >> 4u8) & 1u8 == 1u8) == ((y >> 4u8) & 1u8 == 1u8),
                ((x >> 3u8) & 1u8 == 1u8) == ((y >> 3u8) & 1u8 == 1u8),
                !((x >> 2u8) & 1u8 == 1u8),
                (y >> 2u8) & 1u8 == 1u8,
        ;
    } else if j == 6 {
        assert(byte_bit(x, 0) == byte_bit(y, 0));
        assert(byte_bit(x, 1) == byte_bit(y, 1));
        assert(byte_bit(x, 2) == byte_bit(y, 2));
        assert(byte_bit(x, 3) == byte_bit(y, 3));
        assert(byte_bit(x, 4) == byte_bit(y, 4));
        assert(byte_bit(x, 5) == byte_bit(y, 5));
        assert(x < y) by (bit_vector)
            requires
                ((x >> 7u8) & 1u8 == 1u8) == ((y >> 7u8) & 1u8 == 1u8),
                ((x >> 6u8) & 1u8 == 1u8) == ((y >> 6u8) & 1u8 == 1u8),
                ((x >> 5u8) & 1u8 == 1u8) == ((y >> 5u8) & 1u8 == 1u8),
                ((x >> 4u8) & 1u8 == 1u8) == ((y >> 4u8) & 1u8 == 1u8),
                ((x >> 3u8) & 1u8 == 1u8) == ((y >> 3u8) & 1u8 == 1u8),
                ((x >> 2u8) & 1u8 == 1u8) == ((y >> 2u8) & 1u8 == 1u8),
                !((x >> 1u8) & 1u8 == 1u8),
                (y >> 1u8) & 1u8 == 1u8,
        ;
    } else {
        assert(byte_bit(x, 0) == byte_bit(y, 0));
        assert(byte_bit(x, 1) == byte_bit(y, 1));
        assert(byte_bit(x, 2) == byte_bit(y, 2));
        assert(byte_bit(x, 3) == byte_bit(y, 3));
        assert(byte_bit(x, 4) == byte_bit(y, 4));
        assert(byte_bit(x, 5) == byte_bit(y, 5));
        assert(byte_bit(x, 6) == byte_bit(y, 6));
        assert(x < y) by (bit_vector)
            requires
                ((x >> 7u8) & 1u8 == 1u8) == ((y >> 7u8) & 1u8 == 1u8),
                ((x >> 6u8) & 1u8 == 1u8) == ((y >> 6u8) & 1u8 == 1u8),
                ((x >> 5u8) & 1u8 == 1u8) == ((y >> 5u8) & 1u8 == 1u8),
                ((x >> 4u8) & 1u8 == 1u8) == ((y >> 4u8) & 1u8 == 1u8),
                ((x >> 3u8) & 1u8 == 1u8) == ((y >> 3u8) & 1u8 == 1u8),
                ((x >> 2u8) & 1u8 == 1u8) == ((y >> 2u8) & 1u8 == 1u8),
                ((x >> 1u8) & 1u8 == 1u8) == ((y >> 1u8) & 1u8 == 1u8),
                !((x >> 0u8) & 1u8 == 1u8),
                (y >> 0u8) & 1u8 == 1u8,
        ;
    }
}

} // verus!
