//! Mathematical model of the tree: which keys lie under a node, the root
//! digest of a subtree as a function of its key set, the node addressing
//! along a key's path, and validity of a cache of interior hashes.

use vstd::prelude::*;

use vstd::arithmetic::div_mod::lemma_fundamental_div_mod_converse;

use crate::bits::{
    bit_at, bits_eq_below, byte_bit, lemma_byte_eq_from_bits, lemma_byte_le_high_zeros,
    lemma_byte_lt_from_bits, lemma_byte_with_bit, lemma_zero_byte_bit, with_bit, zeros_from,
};
use crate::hashing::{default_hash, interior_hash_of, is_empty_marker, leaf_hash_of};
use crate::order::{lex_lt, lex_lt_at};

verus! {

/// The keys of `s` that lie in the subtree of height `h` rooted at `base`:
/// those that agree with `base` on the top `256 - h` bits.
pub open spec fn keys_under(s: Set<Seq<u8>>, h: int, base: Seq<u8>) -> Set<Seq<u8>> {
    s.filter(|k: Seq<u8>| bits_eq_below(k, base, 256 - h))
}

/// The keys of `s` whose bit `p` is zero.
pub open spec fn low_half(s: Set<Seq<u8>>, p: int) -> Set<Seq<u8>> {
    s.filter(|k: Seq<u8>| !bit_at(k, p))
}

/// The keys of `s` whose bit `p` is one.
pub open spec fn high_half(s: Set<Seq<u8>>, p: int) -> Set<Seq<u8>> {
    s.filter(|k: Seq<u8>| bit_at(k, p))
}

/// Root digest of the subtree of height `h` at `base` whose occupied leaves
/// are exactly the keys of `s`: the default hash when `s` is empty, an
/// occupied leaf hash at height 0, and otherwise the interior hash of the two
/// children, with `s` partitioned by the bit that distinguishes them.
pub open spec fn subtree_root(c: Seq<u8>, s: Set<Seq<u8>>, h: int, base: Seq<u8>) -> Seq<u8>
    decreases h,
{
    if s.is_empty() {
        default_hash(c, h)
    } else if h <= 0 {
        leaf_hash_of(c, true, base)
    } else {
        let p = 256 - h;
        let sp = with_bit(base, p);
        interior_hash_of(
            subtree_root(c, low_half(s, p), h - 1, base),
            subtree_root(c, high_half(s, p), h - 1, sp),
            h as u64,
            base,
        )
    }
}

/// The key set after an update batch `ks` is applied: removed for the
/// unoccupied marker, added for any other marker.
pub open spec fn applied(s: Set<Seq<u8>>, ks: Set<Seq<u8>>, value: Seq<u8>) -> Set<Seq<u8>> {
    if is_empty_marker(value) {
        s.difference(ks)
    } else {
        s.union(ks)
    }
}

/// A node address the engine can reach: height at most the depth, a 32-byte
/// base whose bits below the node are zero.
pub open spec fn canonical(e: (u64, Seq<u8>)) -> bool {
    &&& e.0 <= 256
    &&& e.1.len() == 32
    &&& zeros_from(e.1, 256 - e.0 as int)
}

/// The node `e` lies in (or is) the subtree of height `h` rooted at `base`.
pub open spec fn within(e: (u64, Seq<u8>), h: int, base: Seq<u8>) -> bool {
    &&& e.0 <= h
    &&& bits_eq_below(e.1, base, 256 - h)
}

/// Every cache entry at a reachable node inside the subtree `(h, base)` is an
/// interior node (height at least 1) holding exactly the 32-byte root digest
/// of that node's subtree under the key set `s`.
pub open spec fn cache_ok_within(
    m: Map<(u64, Seq<u8>), Seq<u8>>,
    c: Seq<u8>,
    s: Set<Seq<u8>>,
    h: int,
    base: Seq<u8>,
) -> bool {
    forall|e: (u64, Seq<u8>)|
        #[trigger] m.dom().contains(e) && canonical(e) && within(e, h, base) ==> {
            &&& e.0 >= 1
            &&& m[e] == subtree_root(c, keys_under(s, e.0 as int, e.1), e.0 as int, e.1)
            &&& m[e].len() == 32
        }
}

/// Cache validity for the whole tree.
pub open spec fn cache_ok(m: Map<(u64, Seq<u8>), Seq<u8>>, c: Seq<u8>, s: Set<Seq<u8>>) -> bool {
    cache_ok_within(m, c, s, 256, zero_base())
}

/// The all-zero 32-byte base of the root.
pub open spec fn zero_base() -> Seq<u8> {
    Seq::new(32, |i: int| 0u8)
}

/// A byte mask keeping the top `t` bits.
pub open spec fn high_mask(t: int) -> u8 {
    if t <= 0 {
        0u8
    } else if t >= 8 {
        0xffu8
    } else {
        0xffu8 << ((8 - t) as u8)
    }
}

/// `k` with every bit at or after position `p` cleared: the base of the node
/// of height `256 - p` on `k`'s path.
pub open spec fn mask_above(k: Seq<u8>, p: int) -> Seq<u8> {
    Seq::new(k.len(), |m: int| k[m] & high_mask(p - 8 * m))
}

/// The base of the node at height `h` on `k`'s path from the root.
pub open spec fn path_base(k: Seq<u8>, h: int) -> Seq<u8> {
    mask_above(k, 256 - h)
}

/// The base of the sibling, at height `j`, of the node at height `j` on `k`'s
/// path: the other child of `k`'s height-`j + 1` ancestor.
pub open spec fn sibling_base(k: Seq<u8>, j: int) -> Seq<u8> {
    if bit_at(k, 255 - j) {
        path_base(k, j + 1)
    } else {
        with_bit(path_base(k, j + 1), 255 - j)
    }
}

/// The audit path of `k` under key set `s`: for each height, the root digest
/// of the sibling subtree along `k`'s path, ordered from the leaf up.
pub open spec fn sibling_roots(c: Seq<u8>, s: Set<Seq<u8>>, k: Seq<u8>) -> Seq<Seq<u8>> {
    Seq::new(
        256,
        |j: int|
            subtree_root(c, keys_under(s, j, sibling_base(k, j)), j, sibling_base(k, j)),
    )
}

/// Digest reconstructed from an audit path `ap`, climbing from the leaf for
/// `k` (holding `occupied`) at height 0 up to height `h`, hashing in the
/// sibling digest from `ap` at each level.
pub open spec fn path_calc(
    c: Seq<u8>,
    ap: Seq<Seq<u8>>,
    h: int,
    k: Seq<u8>,
    occupied: bool,
) -> Seq<u8>
    decreases h,
{
    if h <= 0 {
        leaf_hash_of(c, occupied, path_base(k, 0))
    } else {
        let b = path_base(k, h);
        if !bit_at(k, 256 - h) {
            interior_hash_of(path_calc(c, ap, h - 1, k, occupied), ap[h - 1], h as u64, b)
        } else {
            interior_hash_of(ap[h - 1], path_calc(c, ap, h - 1, k, occupied), h as u64, b)
        }
    }
}

/// Bit `i` of a byte string lives in byte `i / 8`.
proof fn lemma_bit_index(m: int, j: int)
    requires
        0 <= m,
        0 <= j < 8,
    ensures
        (8 * m + j) / 8 == m,
        (8 * m + j) % 8 == j,
{
    lemma_fundamental_div_mod_converse(8 * m + j, 8, m, j);
}

/// Byte strings of equal length that agree on every bit are equal.
pub proof fn lemma_seq_bits_eq(a: Seq<u8>, b: Seq<u8>)
    requires
        a.len() == b.len(),
        forall|i: int| 0 <= i < 8 * a.len() ==> bit_at(a, i) == bit_at(b, i),
    ensures
        a == b,
{
    assert forall|m: int| 0 <= m < a.len() implies a[m] == b[m] by {
        assert forall|j: int| 0 <= j < 8 implies byte_bit(a[m], j) == byte_bit(b[m], j) by {
            lemma_bit_index(m, j);
            assert(bit_at(a, 8 * m + j) == bit_at(b, 8 * m + j));
        }
        lemma_byte_eq_from_bits(a[m], b[m]);
    }
    assert(a =~= b);
}

/// Every bit of the all-zero base is zero.
pub proof fn lemma_zero_base_bits()
    ensures
        zero_base().len() == 32,
        forall|i: int| 0 <= i < 256 ==> !bit_at(zero_base(), i),
{
    assert forall|i: int| 0 <= i < 256 implies !bit_at(zero_base(), i) by {
        lemma_bit_index(i / 8, i % 8);
        lemma_zero_byte_bit(i % 8);
    }
}

/// Setting bit `p` turns that bit on and leaves every other bit unchanged.
pub proof fn lemma_with_bit_bits(s: Seq<u8>, p: int, i: int)
    requires
        0 <= p < 8 * s.len(),
        0 <= i < 8 * s.len(),
    ensures
        bit_at(with_bit(s, p), p),
        i != p ==> bit_at(with_bit(s, p), i) == bit_at(s, i),
{
    let t = with_bit(s, p);
    lemma_bit_index(p / 8, p % 8);
    lemma_byte_with_bit(s[p / 8], p % 8, p % 8);
    if i != p {
        lemma_bit_index(i / 8, i % 8);
        if i / 8 == p / 8 {
            assert(i % 8 != p % 8) by {
                if i % 8 == p % 8 {
                    assert(i == 8 * (i / 8) + i % 8);
                    assert(p == 8 * (p / 8) + p % 8);
                }
            }
            lemma_byte_with_bit(s[p / 8], p % 8, i % 8);
        } else {
            assert(t[i / 8] == s[i / 8]);
        }
    }
}

/// A key that agrees with a canonical `base` on the top `p` bits sits below
/// the pivot `with_bit(base, p)` exactly when its bit `p` is zero.
pub proof fn lemma_split_point(k: Seq<u8>, base: Seq<u8>, p: int)
    requires
        k.len() == 32,
        base.len() == 32,
        0 <= p < 256,
        bits_eq_below(k, base, p),
        zeros_from(base, p),
    ensures
        lex_lt(k, with_bit(base, p)) <==> !bit_at(k, p),
{
    let sp = with_bit(base, p);
    let bi = p / 8;
    let r = p % 8;
    lemma_bit_index(bi, r);
    assert(0 <= bi < 32 && 0 <= r < 8);
    // bytes strictly before bi agree between k, base and sp
    assert forall|m: int| 0 <= m < bi implies k[m] == sp[m] by {
        assert forall|j: int| 0 <= j < 8 implies byte_bit(k[m], j) == byte_bit(sp[m], j) by {
            lemma_bit_index(m, j);
            assert(8 * m + j < p);
            assert(bit_at(k, 8 * m + j) == bit_at(base, 8 * m + j));
            lemma_with_bit_bits(base, p, 8 * m + j);
        }
        lemma_byte_eq_from_bits(k[m], sp[m]);
    }
    // inside byte bi, the bits before r agree between k and sp
    assert forall|j: int| 0 <= j < r implies byte_bit(k[bi], j) == byte_bit(sp[bi], j) by {
        lemma_bit_index(bi, j);
        assert(8 * bi + j < p);
        assert(bit_at(k, 8 * bi + j) == bit_at(base, 8 * bi + j));
        lemma_with_bit_bits(base, p, 8 * bi + j);
    }
    assert(byte_bit(sp[bi], r)) by {
        lemma_with_bit_bits(base, p, p);
    }
    if !bit_at(k, p) {
        assert(!byte_bit(k[bi], r));
        lemma_byte_lt_from_bits(k[bi], sp[bi], r);
        assert(lex_lt_at(k, sp, bi));
        assert(lex_lt(k, sp));
    } else {
        // sp's byte bi is at most k's: they agree up to bit r and sp's lower
        // bits come from base, which is zero at and after p
        assert forall|i: int| r < i < 8 implies !byte_bit(sp[bi], i) by {
            lemma_bit_index(bi, i);
            assert(8 * bi + i > p);
            assert(8 * bi + i < 256);
            assert(!bit_at(base, 8 * bi + i));
            lemma_with_bit_bits(base, p, 8 * bi + i);
        }
        assert(byte_bit(k[bi], r));
        assert forall|i: int| 0 <= i <= r implies byte_bit(sp[bi], i) == byte_bit(k[bi], i) by {}
        lemma_byte_le_high_zeros(sp[bi], k[bi], r);
        // and every byte of sp after bi is zero
        assert forall|m: int| bi < m < 32 implies sp[m] == 0u8 by {
            assert forall|j: int| 0 <= j < 8 implies byte_bit(sp[m], j) == byte_bit(0u8, j) by {
                lemma_bit_index(m, j);
                assert(8 * m + j > p);
                assert(8 * m + j < 256);
                assert(!bit_at(base, 8 * m + j));
                lemma_with_bit_bits(base, p, 8 * m + j);
                lemma_zero_byte_bit(j);
            }
            lemma_byte_eq_from_bits(sp[m], 0u8);
        }
        assert forall|m: int| !lex_lt_at(k, sp, m) by {
            if lex_lt_at(k, sp, m) {
                if m < bi {
                    assert(k[m] == sp[m]);
                } else if m == bi {
                    assert(k[bi] < sp[bi]);
                } else {
                    assert(k[bi] == sp[bi]);
                    assert(sp[m] == 0u8);
                }
            }
        }
    }
}

/// All 256 bits pinned means the key is the base itself.
pub proof fn lemma_all_bits_key(k: Seq<u8>, base: Seq<u8>)
    requires
        k.len() == 32,
        base.len() == 32,
        bits_eq_below(k, base, 256),
    ensures
        k == base,
{
    lemma_seq_bits_eq(k, base);
}

/// Unfolds the subtree root at an interior node of a key set restricted to
/// that node: the children hold the key's restrictions one level down, and an
/// empty subtree still agrees through the default-hash collapse.
pub proof fn lemma_root_unfold(c: Seq<u8>, s: Set<Seq<u8>>, h: int, base: Seq<u8>)
    requires
        1 <= h <= 256,
        base.len() == 32,
        zeros_from(base, 256 - h),
    ensures
        subtree_root(c, keys_under(s, h, base), h, base) == interior_hash_of(
            subtree_root(c, keys_under(s, h - 1, base), h - 1, base),
            subtree_root(c, keys_under(s, h - 1, with_bit(base, 256 - h)), h - 1, with_bit(base, 256 - h)),
            h as u64,
            base,
        ),
{
    let p = 256 - h;
    let sp = with_bit(base, p);
    let a = keys_under(s, h, base);
    // the two child restrictions are the bit-filtered halves of the node's
    let left = low_half(a, p);
    let right = high_half(a, p);
    assert(left =~= keys_under(s, h - 1, base)) by {
        assert forall|k: Seq<u8>| left.contains(k) implies keys_under(s, h - 1, base).contains(
            k,
        ) by {
            assert(!bit_at(base, p));
            assert(bits_eq_below(k, base, p + 1));
        }
        assert forall|k: Seq<u8>| keys_under(s, h - 1, base).contains(k) implies left.contains(
            k,
        ) by {
            assert(bit_at(k, p) == bit_at(base, p));
            assert(!bit_at(base, p));
            assert(bits_eq_below(k, base, p));
        }
    }
    assert(right =~= keys_under(s, h - 1, sp)) by {
        assert forall|k: Seq<u8>| right.contains(k) implies keys_under(s, h - 1, sp).contains(
            k,
        ) by {
            assert forall|j: int| 0 <= j < p + 1 implies bit_at(k, j) == bit_at(sp, j) by {
                lemma_with_bit_bits(base, p, j);
            }
            assert(bits_eq_below(k, sp, p + 1));
        }
        assert forall|k: Seq<u8>| keys_under(s, h - 1, sp).contains(k) implies right.contains(
            k,
        ) by {
            assert forall|j: int| 0 <= j < p implies bit_at(k, j) == bit_at(base, j) by {
                assert(bit_at(k, j) == bit_at(sp, j));
                lemma_with_bit_bits(base, p, j);
            }
            assert(bits_eq_below(k, base, p));
            assert(bit_at(k, p) == bit_at(sp, p));
            lemma_with_bit_bits(base, p, p);
        }
    }
    if a.is_empty() {
        assert(keys_under(s, h - 1, base) =~= Set::<Seq<u8>>::empty()) by {
            assert(left =~= Set::<Seq<u8>>::empty());
        }
        assert(keys_under(s, h - 1, sp) =~= Set::<Seq<u8>>::empty()) by {
            assert(right =~= Set::<Seq<u8>>::empty());
        }
        assert(subtree_root(c, keys_under(s, h - 1, base), h - 1, base) == default_hash(c, h - 1));
        assert(subtree_root(c, keys_under(s, h - 1, sp), h - 1, sp) == default_hash(c, h - 1));
        crate::hashing::lemma_default_hash_step(c, h - 1, h as u64, base);
        assert(subtree_root(c, a, h, base) == default_hash(c, h));
    } else {
        assert(subtree_root(c, a, h, base) == interior_hash_of(
            subtree_root(c, left, h - 1, base),
            subtree_root(c, right, h - 1, sp),
            h as u64,
            base,
        ));
    }
}

/// Applying a batch whose keys all have bit `p` equal to `side` does not
/// change what lies under a node that is pinned to the other value of bit `p`.
pub proof fn lemma_keys_under_stable(
    s: Set<Seq<u8>>,
    ks: Set<Seq<u8>>,
    value: Seq<u8>,
    hh: int,
    b: Seq<u8>,
    p: int,
    side: bool,
)
    requires
        forall|k: Seq<u8>| ks.contains(k) ==> bit_at(k, p) == side,
        0 <= p,
        256 - hh > p,
        bit_at(b, p) != side,
    ensures
        keys_under(applied(s, ks, value), hh, b) == keys_under(s, hh, b),
{
    assert forall|k: Seq<u8>|
        keys_under(applied(s, ks, value), hh, b).contains(k) implies keys_under(
        s,
        hh,
        b,
    ).contains(k) by {
        assert(bit_at(k, p) == bit_at(b, p));
        assert(!ks.contains(k));
    }
    assert forall|k: Seq<u8>| keys_under(s, hh, b).contains(k) implies keys_under(
        applied(s, ks, value),
        hh,
        b,
    ).contains(k) by {
        assert(bit_at(k, p) == bit_at(b, p));
        assert(!ks.contains(k));
    }
    assert(keys_under(applied(s, ks, value), hh, b) =~= keys_under(s, hh, b));
}

/// Applying two batches one after the other is applying their union.
pub proof fn lemma_applied_twice(s: Set<Seq<u8>>, a: Set<Seq<u8>>, b: Set<Seq<u8>>, value: Seq<u8>)
    ensures
        applied(applied(s, a, value), b, value) == applied(s, a.union(b), value),
{
    if is_empty_marker(value) {
        assert(s.difference(a).difference(b) =~= s.difference(a.union(b)));
    } else {
        assert(s.union(a).union(b) =~= s.union(a.union(b)));
    }
}

/// A canonical node within a subtree of its own height is that subtree's root
/// node.
pub proof fn lemma_within_same_height(e: (u64, Seq<u8>), h: int, base: Seq<u8>)
    requires
        canonical(e),
        within(e, h, base),
        e.0 == h,
        0 <= h <= 256,
        base.len() == 32,
        zeros_from(base, 256 - h),
    ensures
        e.1 == base,
{
    assert forall|i: int| 0 <= i < 256 implies bit_at(e.1, i) == bit_at(base, i) by {
        if i >= 256 - h {
            assert(!bit_at(e.1, i));
            assert(!bit_at(base, i));
        }
    }
    lemma_seq_bits_eq(e.1, base);
}

/// A canonical node strictly inside a subtree lies within one of its two
/// children, told apart by the splitting bit of its base.
pub proof fn lemma_within_child(e: (u64, Seq<u8>), h: int, base: Seq<u8>)
    requires
        canonical(e),
        within(e, h, base),
        e.0 < h,
        1 <= h <= 256,
        base.len() == 32,
        zeros_from(base, 256 - h),
    ensures
        bit_at(e.1, 256 - h) ==> within(e, h - 1, with_bit(base, 256 - h)),
        !bit_at(e.1, 256 - h) ==> within(e, h - 1, base),
{
    let p = 256 - h;
    let sp = with_bit(base, p);
    if bit_at(e.1, p) {
        assert forall|j: int| 0 <= j < p + 1 implies bit_at(e.1, j) == bit_at(sp, j) by {
            lemma_with_bit_bits(base, p, j);
        }
        assert(bits_eq_below(e.1, sp, p + 1));
    } else {
        assert(!bit_at(base, p));
        assert(bits_eq_below(e.1, base, p + 1));
    }
}

/// Bit `i` of `mask_above(k, p)` is `k`'s bit `i` below `p` and zero from `p`
/// on.
pub proof fn lemma_mask_above_bits(k: Seq<u8>, p: int, i: int)
    requires
        k.len() == 32,
        0 <= i < 256,
    ensures
        bit_at(mask_above(k, p), i) == (i < p && bit_at(k, i)),
{
    vstd::arithmetic::div_mod::lemma_fundamental_div_mod(i, 8);
    vstd::arithmetic::div_mod::lemma_mod_bound(i, 8);
    vstd::arithmetic::div_mod::lemma_div_pos_is_pos(i, 8);
    let m = i / 8;
    let j = i % 8;
    assert(0 <= m < 32);
    let t = p - 8 * m;
    let x = k[m];
    let masked = mask_above(k, p)[m];
    assert(masked == x & high_mask(t));
    if t <= 0 {
        assert(x & 0u8 == 0u8) by (bit_vector);
        lemma_zero_byte_bit(j);
        assert(!(i < p));
    } else if t >= 8 {
        assert(x & 0xffu8 == x) by (bit_vector);
        assert(i < p);
    } else {
        let sh = (8 - t) as u8;
        let sj = (7 - j) as u8;
        assert((((x & (0xffu8 << sh)) >> sj) & 1u8 == 1u8) == ((sj >= sh) && ((x >> sj) & 1u8
            == 1u8))) by (bit_vector)
            requires
                1 <= sh < 8,
                sj < 8,
        ;
        assert((i < p) == (j < t));
        assert((sj >= sh) == (j < t));
    }
}

/// The mask facts the engine leans on: a masked key is a canonical base whose
/// pinned bits match the key's.
pub proof fn lemma_mask_above_props(k: Seq<u8>, p: int)
    requires
        k.len() == 32,
        0 <= p <= 256,
    ensures
        mask_above(k, p).len() == 32,
        zeros_from(mask_above(k, p), p),
        bits_eq_below(k, mask_above(k, p), p),
        bits_eq_below(mask_above(k, p), k, p),
{
    assert forall|i: int| p <= i < 256 implies !bit_at(mask_above(k, p), i) by {
        lemma_mask_above_bits(k, p, i);
    }
    assert forall|i: int| 0 <= i < p && i < 256 implies bit_at(k, i) == bit_at(
        mask_above(k, p),
        i,
    ) by {
        lemma_mask_above_bits(k, p, i);
    }
}

/// Masking away everything is the all-zero base; masking away nothing is the
/// key itself.
pub proof fn lemma_mask_above_ends(k: Seq<u8>)
    requires
        k.len() == 32,
    ensures
        mask_above(k, 0) == zero_base(),
        mask_above(k, 256) == k,
{
    lemma_zero_base_bits();
    assert forall|i: int| 0 <= i < 256 implies bit_at(mask_above(k, 0), i) == bit_at(
        zero_base(),
        i,
    ) by {
        lemma_mask_above_bits(k, 0, i);
    }
    lemma_seq_bits_eq(mask_above(k, 0), zero_base());
    assert forall|i: int| 0 <= i < 256 implies bit_at(mask_above(k, 256), i) == bit_at(k, i) by {
        lemma_mask_above_bits(k, 256, i);
    }
    lemma_seq_bits_eq(mask_above(k, 256), k);
}

/// One step down `k`'s path: setting the next path bit when it is one,
/// keeping the base when it is zero.
pub proof fn lemma_mask_above_step(k: Seq<u8>, p: int)
    requires
        k.len() == 32,
        0 <= p < 256,
    ensures
        bit_at(k, p) ==> mask_above(k, p + 1) == with_bit(mask_above(k, p), p),
        !bit_at(k, p) ==> mask_above(k, p + 1) == mask_above(k, p),
{
    if bit_at(k, p) {
        assert forall|i: int| 0 <= i < 256 implies bit_at(mask_above(k, p + 1), i) == bit_at(
            with_bit(mask_above(k, p), p),
            i,
        ) by {
            lemma_mask_above_bits(k, p + 1, i);
            lemma_mask_above_bits(k, p, i);
            lemma_with_bit_bits(mask_above(k, p), p, i);
        }
        lemma_seq_bits_eq(mask_above(k, p + 1), with_bit(mask_above(k, p), p));
    } else {
        assert forall|i: int| 0 <= i < 256 implies bit_at(mask_above(k, p + 1), i) == bit_at(
            mask_above(k, p),
            i,
        ) by {
            lemma_mask_above_bits(k, p + 1, i);
            lemma_mask_above_bits(k, p, i);
        }
        lemma_seq_bits_eq(mask_above(k, p + 1), mask_above(k, p));
    }
}

/// Climbing an audit path whose entries are the sibling subtree roots of `k`
/// under the key set `s` reconstructs the root of `k`'s height-`h` ancestor,
/// when the claimed leaf state matches `k`'s membership in `s`: both the
/// membership and the non-membership round trip.
pub proof fn lemma_path_calc_root(
    c: Seq<u8>,
    s: Set<Seq<u8>>,
    ap: Seq<Seq<u8>>,
    k: Seq<u8>,
    h: int,
    val: bool,
)
    requires
        k.len() == 32,
        0 <= h <= 256,
        forall|k2: Seq<u8>| s.contains(k2) ==> k2.len() == 32,
        val == s.contains(k),
        ap.len() >= h,
        forall|j: int|
            0 <= j < h ==> ap[j] == subtree_root(
                c,
                keys_under(s, j, sibling_base(k, j)),
                j,
                #[trigger] sibling_base(k, j),
            ),
    ensures
        path_calc(c, ap, h, k, val) == subtree_root(
            c,
            keys_under(s, h, path_base(k, h)),
            h,
            path_base(k, h),
        ),
    decreases h,
{
    let b = path_base(k, h);
    lemma_mask_above_props(k, 256 - h);
    if h == 0 {
        lemma_mask_above_ends(k);
        assert(b == k);
        if val {
            assert(bits_eq_below(k, b, 256));
            assert(keys_under(s, 0, b).contains(k));
            assert(!keys_under(s, 0, b).is_empty());
        } else {
            assert forall|k2: Seq<u8>| !keys_under(s, 0, b).contains(k2) by {
                if keys_under(s, 0, b).contains(k2) {
                    lemma_all_bits_key(k2, b);
                }
            }
            assert(keys_under(s, 0, b) =~= Set::<Seq<u8>>::empty());
            assert(keys_under(s, 0, b).is_empty());
        }
    } else {
        let p = 256 - h;
        let sp = with_bit(b, p);
        lemma_root_unfold(c, s, h, b);
        lemma_mask_above_step(k, p);
        lemma_path_calc_root(c, s, ap, k, h - 1, val);
        assert(255 - (h - 1) == p);
        if !bit_at(k, p) {
            assert(path_base(k, h - 1) == b);
            assert(sibling_base(k, h - 1) == sp);
            assert(ap[h - 1] == subtree_root(c, keys_under(s, h - 1, sp), h - 1, sp));
        } else {
            assert(path_base(k, h - 1) == sp);
            assert(sibling_base(k, h - 1) == b);
            assert(ap[h - 1] == subtree_root(c, keys_under(s, h - 1, b), h - 1, b));
        }
    }
}

/// A node the update walk recomputes: a reachable interior node of the
/// subtree `(h, base)` whose own subtree holds at least one batch key.
pub open spec fn touched_node(e: (u64, Seq<u8>), ks: Set<Seq<u8>>, h: int, base: Seq<u8>) -> bool {
    &&& canonical(e)
    &&& within(e, h, base)
    &&& e.0 >= 1
    &&& !keys_under(ks, e.0 as int, e.1).is_empty()
}

/// Root digest of the left child of node `e` under the key set `s`.
pub open spec fn left_child_root(c: Seq<u8>, s: Set<Seq<u8>>, e: (u64, Seq<u8>)) -> Seq<u8> {
    subtree_root(c, keys_under(s, e.0 as int - 1, e.1), e.0 as int - 1, e.1)
}

/// Root digest of the right child of node `e` under the key set `s`.
pub open spec fn right_child_root(c: Seq<u8>, s: Set<Seq<u8>>, e: (u64, Seq<u8>)) -> Seq<u8> {
    subtree_root(
        c,
        keys_under(s, e.0 as int - 1, with_bit(e.1, 256 - e.0 as int)),
        e.0 as int - 1,
        with_bit(e.1, 256 - e.0 as int),
    )
}

/// Splits the touched-node question one level down: below the parent, a
/// touched node is touched exactly in the child its base's splitting bit
/// selects, and an untouched node is untouched in both children.
pub proof fn lemma_touched_classify(
    e: (u64, Seq<u8>),
    hu: u64,
    base: Seq<u8>,
    ks: Set<Seq<u8>>,
    l_ks: Set<Seq<u8>>,
    r_ks: Set<Seq<u8>>,
)
    requires
        1 <= hu <= 256,
        base.len() == 32,
        zeros_from(base, 256 - hu as int),
        ks == l_ks.union(r_ks),
        forall|k: Seq<u8>| l_ks.contains(k) ==> !bit_at(k, 256 - hu as int),
        forall|k: Seq<u8>| r_ks.contains(k) ==> bit_at(k, 256 - hu as int),
    ensures
        touched_node(e, ks, hu as int, base) && e != (hu, base) && bit_at(e.1, 256 - hu as int)
            ==> touched_node(e, r_ks, hu as int - 1, with_bit(base, 256 - hu as int)),
        touched_node(e, ks, hu as int, base) && e != (hu, base) && !bit_at(e.1, 256 - hu as int)
            ==> touched_node(e, l_ks, hu as int - 1, base),
        !touched_node(e, ks, hu as int, base) ==> !touched_node(e, l_ks, hu as int - 1, base),
        !touched_node(e, ks, hu as int, base) ==> !touched_node(
            e,
            r_ks,
            hu as int - 1,
            with_bit(base, 256 - hu as int),
        ),
        !bit_at(e.1, 256 - hu as int) ==> !within(e, hu as int - 1, with_bit(base, 256 - hu as int)),
        bit_at(e.1, 256 - hu as int) ==> !within(e, hu as int - 1, base),
{
    let h = hu as int;
    let p = 256 - h;
    let sp = with_bit(base, p);
    assert(bit_at(sp, p)) by {
        lemma_with_bit_bits(base, p, p);
    }
    assert(!bit_at(base, p));
    if !bit_at(e.1, p) && within(e, h - 1, sp) {
        assert(bit_at(e.1, p) == bit_at(sp, p));
    }
    if bit_at(e.1, p) && within(e, h - 1, base) {
        assert(bit_at(e.1, p) == bit_at(base, p));
    }
    if touched_node(e, ks, h, base) && e != (hu, base) {
        if e.0 == hu {
            lemma_within_same_height(e, h, base);
            assert(e == (hu, base));
        }
        assert(e.0 < hu);
        lemma_within_child(e, h, base);
        let under = keys_under(ks, e.0 as int, e.1);
        assert(exists|w: Seq<u8>| under.contains(w)) by {
            if forall|w: Seq<u8>| !under.contains(w) {
                assert(under =~= Set::<Seq<u8>>::empty());
            }
        }
        let w = choose|w: Seq<u8>| under.contains(w);
        assert(256 - e.0 as int > p);
        assert(bit_at(w, p) == bit_at(e.1, p));
        if bit_at(e.1, p) {
            assert(!l_ks.contains(w));
            assert(r_ks.contains(w));
            assert(keys_under(r_ks, e.0 as int, e.1).contains(w));
            assert(!keys_under(r_ks, e.0 as int, e.1).is_empty()) by {
                if keys_under(r_ks, e.0 as int, e.1).is_empty() {
                    assert(!keys_under(r_ks, e.0 as int, e.1).contains(w));
                }
            }
        } else {
            assert(!r_ks.contains(w));
            assert(l_ks.contains(w));
            assert(keys_under(l_ks, e.0 as int, e.1).contains(w));
            assert(!keys_under(l_ks, e.0 as int, e.1).is_empty()) by {
                if keys_under(l_ks, e.0 as int, e.1).is_empty() {
                    assert(!keys_under(l_ks, e.0 as int, e.1).contains(w));
                }
            }
        }
    }
    if !touched_node(e, ks, h, base) {
        if touched_node(e, l_ks, h - 1, base) {
            lemma_within_parent(e, h, base);
            assert(exists|w: Seq<u8>| keys_under(l_ks, e.0 as int, e.1).contains(w)) by {
                if forall|w: Seq<u8>| !keys_under(l_ks, e.0 as int, e.1).contains(w) {
                    assert(keys_under(l_ks, e.0 as int, e.1) =~= Set::<Seq<u8>>::empty());
                }
            }
            let w2 = choose|w: Seq<u8>| keys_under(l_ks, e.0 as int, e.1).contains(w);
            assert(ks.contains(w2));
            assert(keys_under(ks, e.0 as int, e.1).contains(w2));
            assert(!keys_under(ks, e.0 as int, e.1).is_empty()) by {
                if keys_under(ks, e.0 as int, e.1).is_empty() {
                    assert(!keys_under(ks, e.0 as int, e.1).contains(w2));
                }
            }
        }
        if touched_node(e, r_ks, h - 1, sp) {
            lemma_within_parent(e, h, base);
            assert(exists|w: Seq<u8>| keys_under(r_ks, e.0 as int, e.1).contains(w)) by {
                if forall|w: Seq<u8>| !keys_under(r_ks, e.0 as int, e.1).contains(w) {
                    assert(keys_under(r_ks, e.0 as int, e.1) =~= Set::<Seq<u8>>::empty());
                }
            }
            let w2 = choose|w: Seq<u8>| keys_under(r_ks, e.0 as int, e.1).contains(w);
            assert(ks.contains(w2));
            assert(keys_under(ks, e.0 as int, e.1).contains(w2));
            assert(!keys_under(ks, e.0 as int, e.1).is_empty()) by {
                if keys_under(ks, e.0 as int, e.1).is_empty() {
                    assert(!keys_under(ks, e.0 as int, e.1).contains(w2));
                }
            }
        }
    }
}

/// The branch cache's storage rule (spec of the cache policy): an interior
/// node is worth retaining exactly when neither child hash is the default
/// hash `dh` of the level below it, i.e. both children hold real data.
pub open spec fn retains_both_occupied(left: Seq<u8>, right: Seq<u8>, dh: Seq<u8>) -> bool {
    left != dh && right != dh
}

/// The nodes a whole-tree update with batch `ks` leaves in a branch cache:
/// the recomputed nodes whose two children, under the updated key set `s2`,
/// both hold real data.
pub open spec fn branch_retained_nodes(c: Seq<u8>, s2: Set<Seq<u8>>, ks: Set<Seq<u8>>) -> Set<
    (u64, Seq<u8>),
> {
    Set::new(
        |e: (u64, Seq<u8>)|
            touched_node(e, ks, 256, zero_base()) && retains_both_occupied(
                left_child_root(c, s2, e),
                right_child_root(c, s2, e),
                default_hash(c, e.0 as int - 1),
            ),
    )
}

/// Depth-independence of empty subtrees: at every height, the root digest of
/// a subtree holding no keys is that height's default hash.
pub proof fn lemma_empty_subtree_is_default(c: Seq<u8>, h: int, base: Seq<u8>)
    ensures
        subtree_root(c, Set::<Seq<u8>>::empty(), h, base) == default_hash(c, h),
{
    assert(Set::<Seq<u8>>::empty().is_empty());
}

/// The empty tree's root is the depth-256 default hash.
pub proof fn lemma_empty_tree_root(c: Seq<u8>)
    ensures
        subtree_root(c, keys_under(Set::<Seq<u8>>::empty(), 256, zero_base()), 256, zero_base())
            == default_hash(c, 256),
{
    assert(keys_under(Set::<Seq<u8>>::empty(), 256, zero_base()) =~= Set::<Seq<u8>>::empty());
    lemma_empty_subtree_is_default(c, 256, zero_base());
}

/// Updating with a batch of keys already in the set, under an occupied
/// marker, leaves the key set unchanged: the root returned by such an update
/// is the root hash of the existing set.
pub proof fn lemma_update_of_subset(s: Set<Seq<u8>>, ks: Set<Seq<u8>>, value: Seq<u8>)
    requires
        ks.subset_of(s),
        !is_empty_marker(value),
    ensures
        applied(s, ks, value) == s,
{
    assert(s.union(ks) =~= s);
}

/// Updating the empty tree with a batch, under an occupied marker, yields the
/// batch itself as the key set: the root returned by `update` from empty is
/// the root hash of the batch.
pub proof fn lemma_update_from_empty(ks: Set<Seq<u8>>, value: Seq<u8>)
    requires
        !is_empty_marker(value),
    ensures
        applied(Set::<Seq<u8>>::empty(), ks, value) == ks,
{
    assert(Set::<Seq<u8>>::empty().union(ks) =~= ks);
}

/// With a single key in the tree, every audit-path entry is a default hash:
/// each sibling subtree along the key's own path is empty.
pub proof fn lemma_single_key_siblings(c: Seq<u8>, k: Seq<u8>, j: int)
    requires
        k.len() == 32,
        0 <= j < 256,
    ensures
        subtree_root(
            c,
            keys_under(Set::<Seq<u8>>::empty().insert(k), j, sibling_base(k, j)),
            j,
            sibling_base(k, j),
        ) == default_hash(c, j),
{
    let sb = sibling_base(k, j);
    let q = 255 - j;
    lemma_mask_above_props(k, q);
    assert(bit_at(sb, q) != bit_at(k, q)) by {
        if bit_at(k, q) {
            assert(sb == mask_above(k, q));
            lemma_mask_above_bits(k, q, q);
            assert(!bit_at(sb, q));
        } else {
            assert(sb == with_bit(mask_above(k, q), q));
            lemma_with_bit_bits(mask_above(k, q), q, q);
            assert(bit_at(sb, q));
        }
    }
    assert(keys_under(Set::<Seq<u8>>::empty().insert(k), j, sb) =~= Set::<Seq<u8>>::empty()) by {
        assert forall|k2: Seq<u8>|
            !keys_under(Set::<Seq<u8>>::empty().insert(k), j, sb).contains(k2) by {
            if keys_under(Set::<Seq<u8>>::empty().insert(k), j, sb).contains(k2) {
                assert(k2 == k);
                assert(q < 256 - j);
                assert(bit_at(k, q) == bit_at(sb, q));
            }
        }
    }
    lemma_empty_subtree_is_default(c, j, sb);
}

/// Two keys differing only in their lowest bit share every path node down to
/// height 1 and diverge exactly at the leaves.
pub proof fn lemma_lowest_bit_divergence(k1: Seq<u8>, k2: Seq<u8>)
    requires
        k1.len() == 32,
        k2.len() == 32,
        k1 != k2,
        bits_eq_below(k1, k2, 255),
    ensures
        forall|h: int| 1 <= h <= 256 ==> path_base(k1, h) == path_base(k2, h),
        bit_at(k1, 255) != bit_at(k2, 255),
        path_base(k1, 0) != path_base(k2, 0),
{
    if bit_at(k1, 255) == bit_at(k2, 255) {
        assert(bits_eq_below(k1, k2, 256));
        lemma_seq_bits_eq(k1, k2);
    }
    assert forall|h: int| 1 <= h <= 256 implies path_base(k1, h) == path_base(k2, h) by {
        let p = 256 - h;
        assert forall|i: int| 0 <= i < 256 implies bit_at(mask_above(k1, p), i) == bit_at(
            mask_above(k2, p),
            i,
        ) by {
            lemma_mask_above_bits(k1, p, i);
            lemma_mask_above_bits(k2, p, i);
        }
        lemma_seq_bits_eq(mask_above(k1, p), mask_above(k2, p));
    }
    lemma_mask_above_ends(k1);
    lemma_mask_above_ends(k2);
}

/// Being within a child puts a node within the parent.
pub proof fn lemma_within_parent(e: (u64, Seq<u8>), h: int, base: Seq<u8>)
    requires
        1 <= h <= 256,
        base.len() == 32,
        zeros_from(base, 256 - h),
        within(e, h - 1, base) || within(e, h - 1, with_bit(base, 256 - h)),
    ensures
        within(e, h, base),
{
    let p = 256 - h;
    if within(e, h - 1, with_bit(base, p)) {
        assert forall|j: int| 0 <= j < p implies bit_at(e.1, j) == bit_at(base, j) by {
            assert(bit_at(e.1, j) == bit_at(with_bit(base, p), j));
            lemma_with_bit_bits(base, p, j);
        }
    }
}

} // verus!
