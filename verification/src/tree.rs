//! The sparse-Merkle-tree engine: default-hash table, subtree root
//! computation with a read cache, batch update with cache write-through, and
//! audit-path generation and verification.

use vstd::prelude::*;

use crate::bits::{bit_at, bit_is_set, bit_split, bits_eq_below, copy_bytes, with_bit, zeros_from};
use crate::cache::Cache;
use crate::hashing::{
    cat, default_hash, interior_hash_of, is_empty_marker, leaf_hash_of, marker_is_empty, sha256,
    u64_to_be,
};
use crate::keys::{views, D, Key};
use crate::model::{
    applied, cache_ok, cache_ok_within, canonical, keys_under, left_child_root,
    lemma_all_bits_key, lemma_applied_twice, lemma_keys_under_stable, lemma_root_unfold,
    lemma_split_point, lemma_touched_classify, lemma_with_bit_bits, lemma_within_child,
    lemma_within_parent, lemma_within_same_height, lemma_zero_base_bits, path_base,
    right_child_root, sibling_base, subtree_root, touched_node, within, zero_base,
};
use crate::order::{lex_lt, strictly_sorted, uniform_len};

verus! {

/// The engine: a domain-separation prefix, the tree depth in bits, the
/// all-zero root base, and the table of default hashes for empty subtrees.
pub struct SMT {
    c: Vec<u8>,
    pub base: Vec<u8>,
    pub n: u64,
    default_hashes: Vec<Vec<u8>>,
}

impl SMT {
    /// The domain-separation prefix this engine hashes leaves with.
    pub closed spec fn key_prefix(&self) -> Seq<u8> {
        self.c@
    }

    /// The engine is fully built: depth 256, an all-zero root base, and a
    /// correct default-hash table.
    pub closed spec fn wf(&self) -> bool {
        &&& self.n == 256
        &&& 1 <= self.c@.len() <= 0x10000000
        &&& self.base@ == zero_base()
        &&& self.default_hashes@.len() == 257
        &&& forall|h: int|
            0 <= h <= 256 ==> views(self.default_hashes@)[h] == default_hash(self.c@, h) && views(
                self.default_hashes@,
            )[h].len() == 32
    }

    /// Builds an engine over SHA-256 with domain-separation prefix `c`,
    /// deriving the depth from the digest width and precomputing the default
    /// hash of the empty subtree at every height.
    pub fn new(c: Vec<u8>) -> (r: SMT)
        requires
            1 <= c@.len() <= 0x10000000,
        ensures
            r.wf(),
            r.key_prefix() == c@,
    {
        let mut probe_input: Vec<u8> = Vec::new();
        probe_input.push(0x61);
        probe_input.push(0x62);
        probe_input.push(0x63);
        let probe = sha256(&probe_input);
        let n: u64 = (probe.len() as u64) * 8;
        let mut default_hashes: Vec<Vec<u8>> = Vec::new();
        default_hashes.push(sha256(&c));
        proof {
            assert(views(default_hashes@)[0] == default_hash(c@, 0));
        }
        let mut i: u64 = 1;
        while i <= n
            invariant
                n == 256,
                1 <= i <= 257,
                1 <= c@.len() <= 0x10000000,
                default_hashes@.len() == i,
                forall|h: int|
                    0 <= h < i ==> views(default_hashes@)[h] == default_hash(c@, h) && views(
                        default_hashes@,
                    )[h].len() == 32,
            decreases 257 - i,
        {
            let ghost before = default_hashes@;
            proof {
                assert(0 <= i - 1 < before.len());
                assert(views(before)[i - 1] == default_hash(c@, i - 1));
                assert(views(before)[i - 1] == before[i - 1]@);
            }
            let prev = &default_hashes[(i - 1) as usize];
            proof {
                assert((i - 1) as usize as int == i - 1);
                assert(prev@ == before[i - 1]@);
                assert(prev@ == views(before)[i - 1]);
                assert(prev@.len() == 32);
            }
            let two = cat(prev, prev);
            let next = sha256(&two);
            proof {
                assert(next@ == default_hash(c@, i as int));
            }
            default_hashes.push(next);
            i = i + 1;
            proof {
                assert forall|h: int|
                    0 <= h < i implies views(default_hashes@)[h] == default_hash(c@, h) && views(
                    default_hashes@,
                )[h].len() == 32 by {
                    if h < i - 1 {
                        assert(views(default_hashes@)[h] == views(before)[h]);
                    }
                }
            }
        }
        let mut base: Vec<u8> = Vec::new();
        let mut z: usize = 0;
        while z < 32
            invariant
                z <= 32,
                base@.len() == z,
                forall|j: int| 0 <= j < z ==> base@[j] == 0u8,
            decreases 32 - z,
        {
            base.push(0);
            z = z + 1;
        }
        proof {
            assert(base@ =~= zero_base());
        }
        let stored = copy_bytes(&c);
        let r = SMT { c: stored, base, n, default_hashes };
        r
    }

    /// The default hash of the empty subtree at `height`, from the
    /// precomputed table. Together with [`crate::model::lemma_empty_subtree_is_default`],
    /// this pins the root of an empty subtree at any height to the table
    /// entry of that height.
    pub fn default_hash_at(&self, height: u64) -> (r: Vec<u8>)
        requires
            self.wf(),
            height <= 256,
        ensures
            r@ == default_hash(self.key_prefix(), height as int),
            r@.len() == 32,
    {
        let r = copy_bytes(&self.default_hashes[height as usize]);
        proof {
            assert(r@ == views(self.default_hashes@)[height as int]);
        }
        r
    }

    /// The hash of the leaf at `base` holding the marker `a`.
    fn leaf_hash(&self, a: &Vec<u8>, base: &Vec<u8>) -> (r: Vec<u8>)
        requires
            self.wf(),
            base@.len() == 32,
        ensures
            r@ == leaf_hash_of(self.key_prefix(), !is_empty_marker(a@), base@),
            r@.len() == 32,
    {
        if marker_is_empty(a) {
            sha256(&self.c)
        } else {
            let preimage = cat(&self.c, base);
            sha256(&preimage)
        }
    }

    /// The hash of the interior node at `(height, base)` from its children.
    fn interior_hash(&self, left: &Vec<u8>, right: &Vec<u8>, height: u64, base: &Vec<u8>) -> (r:
        Vec<u8>)
        requires
            self.wf(),
            left@.len() == 32,
            right@.len() == 32,
            base@.len() == 32,
        ensures
            r@ == interior_hash_of(left@, right@, height, base@),
            r@.len() == 32,
    {
        let lr = cat(left, right);
        if crate::bits::bytes_equal(left, right) {
            sha256(&lr)
        } else {
            let with_base = cat(&lr, base);
            let height_bytes = u64_to_be(height);
            let preimage = cat(&with_base, &height_bytes);
            proof {
                assert(preimage@ == left@ + right@ + base@ + crate::hashing::be_bytes(height))
                    by {
                    assert((left@ + right@ + base@) + crate::hashing::be_bytes(height) =~= left@
                        + right@ + base@ + crate::hashing::be_bytes(height));
                }
            }
            sha256(&preimage)
        }
    }
}

/// Splitting a sorted, bit-aligned key sequence at the pivot of height `h`
/// yields exactly the key sets of the node's two children, each aligned to
/// its own child base.
proof fn lemma_split_sets(
    dv: Seq<Seq<u8>>,
    lv: Seq<Seq<u8>>,
    rv: Seq<Seq<u8>>,
    s: Set<Seq<u8>>,
    h: int,
    base: Seq<u8>,
)
    requires
        1 <= h <= 256,
        base.len() == 32,
        zeros_from(base, 256 - h),
        uniform_len(dv, 32),
        forall|i: int| 0 <= i < dv.len() ==> bits_eq_below(#[trigger] dv[i], base, 256 - h),
        lv.len() + rv.len() == dv.len(),
        lv == dv.subrange(0, lv.len() as int),
        rv == dv.subrange(lv.len() as int, dv.len() as int),
        forall|j: int| 0 <= j < lv.len() ==> lex_lt(#[trigger] lv[j], with_bit(base, 256 - h)),
        forall|j: int| 0 <= j < rv.len() ==> !lex_lt(#[trigger] rv[j], with_bit(base, 256 - h)),
        dv.to_set() == keys_under(s, h, base),
    ensures
        with_bit(base, 256 - h).len() == 32,
        zeros_from(with_bit(base, 256 - h), 256 - (h - 1)),
        forall|j: int| 0 <= j < lv.len() ==> !bit_at(#[trigger] lv[j], 256 - h),
        forall|j: int| 0 <= j < rv.len() ==> bit_at(#[trigger] rv[j], 256 - h),
        forall|i: int| 0 <= i < lv.len() ==> bits_eq_below(#[trigger] lv[i], base, 256 - (h - 1)),
        forall|i: int|
            0 <= i < rv.len() ==> bits_eq_below(
                #[trigger] rv[i],
                with_bit(base, 256 - h),
                256 - (h - 1),
            ),
        lv.to_set() == keys_under(s, h - 1, base),
        rv.to_set() == keys_under(s, h - 1, with_bit(base, 256 - h)),
{
    let p = 256 - h;
    let sp = with_bit(base, p);
    assert(!bit_at(base, p));
    lemma_split_bits(dv, lv, rv, h, base);
    assert(lv.to_set() =~= keys_under(s, h - 1, base)) by {
        assert forall|k: Seq<u8>| lv.to_set().contains(k) implies keys_under(
            s,
            h - 1,
            base,
        ).contains(k) by {
            let j = choose|j: int| 0 <= j < lv.len() && lv[j] == k;
            assert(dv[j] == k);
            assert(dv.to_set().contains(k));
            assert(keys_under(s, h, base).contains(k));
        }
        assert forall|k: Seq<u8>| keys_under(s, h - 1, base).contains(k) implies lv.to_set()
            .contains(k) by {
            assert(bits_eq_below(k, base, p));
            assert(keys_under(s, h, base).contains(k));
            assert(dv.to_set().contains(k));
            let j = choose|j: int| 0 <= j < dv.len() && dv[j] == k;
            assert(bit_at(k, p) == bit_at(base, p));
            lemma_split_point(k, base, p);
            assert(lex_lt(k, sp));
            if j >= lv.len() {
                assert(rv[j - lv.len()] == dv[j]);
                assert(!lex_lt(dv[j], sp));
            }
            assert(lv[j] == k);
        }
    }
    assert(rv.to_set() =~= keys_under(s, h - 1, sp)) by {
        assert forall|k: Seq<u8>| rv.to_set().contains(k) implies keys_under(s, h - 1, sp).contains(
            k,
        ) by {
            let j = choose|j: int| 0 <= j < rv.len() && rv[j] == k;
            assert(dv[j + lv.len()] == k);
            assert(dv.to_set().contains(k));
            assert(keys_under(s, h, base).contains(k));
        }
        assert forall|k: Seq<u8>| keys_under(s, h - 1, sp).contains(k) implies rv.to_set().contains(
            k,
        ) by {
            assert(bits_eq_below(k, sp, p + 1));
            assert forall|t: int| 0 <= t < p implies bit_at(k, t) == bit_at(base, t) by {
                lemma_with_bit_bits(base, p, t);
            }
            assert(bits_eq_below(k, base, p));
            assert(keys_under(s, h, base).contains(k));
            assert(dv.to_set().contains(k));
            let j = choose|j: int| 0 <= j < dv.len() && dv[j] == k;
            assert(bit_at(k, p) == bit_at(sp, p));
            lemma_with_bit_bits(base, p, p);
            lemma_split_point(k, base, p);
            assert(!lex_lt(k, sp));
            if j < lv.len() {
                assert(lv[j] == dv[j]);
                assert(lex_lt(dv[j], sp));
            }
            assert(rv[j - lv.len()] == k);
        }
    }
}

/// The bit-level half of [`lemma_split_sets`]: the split parts of a
/// bit-aligned key sequence are aligned to the node's two children.
proof fn lemma_split_bits(dv: Seq<Seq<u8>>, lv: Seq<Seq<u8>>, rv: Seq<Seq<u8>>, h: int, base: Seq<u8>)
    requires
        1 <= h <= 256,
        base.len() == 32,
        zeros_from(base, 256 - h),
        uniform_len(dv, 32),
        forall|i: int| 0 <= i < dv.len() ==> bits_eq_below(#[trigger] dv[i], base, 256 - h),
        lv.len() + rv.len() == dv.len(),
        lv == dv.subrange(0, lv.len() as int),
        rv == dv.subrange(lv.len() as int, dv.len() as int),
        forall|j: int| 0 <= j < lv.len() ==> lex_lt(#[trigger] lv[j], with_bit(base, 256 - h)),
        forall|j: int| 0 <= j < rv.len() ==> !lex_lt(#[trigger] rv[j], with_bit(base, 256 - h)),
    ensures
        with_bit(base, 256 - h).len() == 32,
        zeros_from(with_bit(base, 256 - h), 256 - (h - 1)),
        forall|j: int| 0 <= j < lv.len() ==> !bit_at(#[trigger] lv[j], 256 - h),
        forall|j: int| 0 <= j < rv.len() ==> bit_at(#[trigger] rv[j], 256 - h),
        forall|i: int| 0 <= i < lv.len() ==> bits_eq_below(#[trigger] lv[i], base, 256 - (h - 1)),
        forall|i: int|
            0 <= i < rv.len() ==> bits_eq_below(
                #[trigger] rv[i],
                with_bit(base, 256 - h),
                256 - (h - 1),
            ),
{
    let p = 256 - h;
    let sp = with_bit(base, p);
    assert(!bit_at(base, p));
    assert forall|j: int| p + 1 <= j < 256 implies !bit_at(sp, j) by {
        lemma_with_bit_bits(base, p, j);
    }
    assert forall|j: int| 0 <= j < lv.len() implies !bit_at(#[trigger] lv[j], p) && bits_eq_below(
        lv[j],
        base,
        p + 1,
    ) by {
        assert(lv[j] == dv.subrange(0, lv.len() as int)[j]);
        assert(lv[j] == dv[j]);
        lemma_split_point(lv[j], base, p);
        assert(bits_eq_below(lv[j], base, p + 1));
    }
    assert forall|j: int| 0 <= j < rv.len() implies bit_at(#[trigger] rv[j], p) && bits_eq_below(
        rv[j],
        sp,
        p + 1,
    ) by {
        assert(rv[j] == dv.subrange(lv.len() as int, dv.len() as int)[j]);
        assert(rv[j] == dv[j + lv.len()]);
        lemma_split_point(rv[j], base, p);
        assert forall|t: int| 0 <= t < p + 1 implies bit_at(rv[j], t) == bit_at(sp, t) by {
            lemma_with_bit_bits(base, p, t);
        }
    }
}

/// Lifts a per-entry bit value from a sequence of keys to its set.
proof fn lemma_set_bit_from_seq(v: Seq<Seq<u8>>, p: int, side: bool)
    requires
        forall|j: int| 0 <= j < v.len() ==> bit_at(#[trigger] v[j], p) == side,
    ensures
        forall|k: Seq<u8>| v.to_set().contains(k) ==> bit_at(k, p) == side,
{
    assert forall|k: Seq<u8>| v.to_set().contains(k) implies bit_at(k, p) == side by {
        assert(v.contains(k));
        let j = choose|j: int| 0 <= j < v.len() && v[j] == k;
        assert(bit_at(v[j], p) == side);
    }
}

/// After both children of `(height, base)` hold hashes valid for the updated
/// key set `s2`, every touched node below it already follows the cache
/// policy, every untouched entry is unmoved, and the node's own entry is
/// settled by `hash_cache`, the whole subtree obeys the policy: touched nodes
/// are retained exactly when `C::retains` accepts their child digests, and
/// everything untouched - inside or outside the subtree - is as it was.
proof fn lemma_update_node_cache<C: Cache>(
    m0: Map<(u64, Seq<u8>), Seq<u8>>,
    m_pre: Map<(u64, Seq<u8>), Seq<u8>>,
    m_post: Map<(u64, Seq<u8>), Seq<u8>>,
    c: Seq<u8>,
    s2: Set<Seq<u8>>,
    ks: Set<Seq<u8>>,
    height: u64,
    base: Seq<u8>,
    sp: Seq<u8>,
    ih: Seq<u8>,
    left: Seq<u8>,
    right: Seq<u8>,
)
    requires
        1 <= height <= 256,
        base.len() == 32,
        zeros_from(base, 256 - height as int),
        sp == with_bit(base, 256 - height as int),
        touched_node((height, base), ks, height as int, base),
        forall|e: (u64, Seq<u8>)|
            #[trigger] m_pre.dom().contains(e) && canonical(e) && (within(
                e,
                height as int - 1,
                base,
            ) || within(e, height as int - 1, sp)) ==> e.0 >= 1 && m_pre[e] == subtree_root(
                c,
                keys_under(s2, e.0 as int, e.1),
                e.0 as int,
                e.1,
            ) && m_pre[e].len() == 32,
        forall|e: (u64, Seq<u8>)|
            e != (height, base) && !(#[trigger] touched_node(e, ks, height as int, base)) ==> (
            m_pre.dom().contains(e) == m0.dom().contains(e) && (m_pre.dom().contains(e)
                ==> m_pre[e] == m0[e])),
        forall|e: (u64, Seq<u8>)|
            e != (height, base) && #[trigger] touched_node(e, ks, height as int, base) ==> (
            m_pre.dom().contains(e) <==> C::retains(
                left_child_root(c, s2, e),
                right_child_root(c, s2, e),
                default_hash(c, e.0 as int - 1),
            )),
        m_post == if C::retains(left, right, default_hash(c, height as int - 1)) {
            m_pre.insert((height, base), ih)
        } else {
            m_pre.remove((height, base))
        },
        left == left_child_root(c, s2, (height, base)),
        right == right_child_root(c, s2, (height, base)),
        ih == subtree_root(c, keys_under(s2, height as int, base), height as int, base),
        ih.len() == 32,
    ensures
        cache_ok_within(m_post, c, s2, height as int, base),
        forall|e: (u64, Seq<u8>)|
            !(#[trigger] touched_node(e, ks, height as int, base)) ==> (m_post.dom().contains(e)
                == m0.dom().contains(e) && (m_post.dom().contains(e) ==> m_post[e] == m0[e])),
        forall|e: (u64, Seq<u8>)|
            #[trigger] touched_node(e, ks, height as int, base) ==> (m_post.dom().contains(e)
                <==> C::retains(
                left_child_root(c, s2, e),
                right_child_root(c, s2, e),
                default_hash(c, e.0 as int - 1),
            )),
{
    let h = height as int;
    let k = (height, base);
    assert(within(k, h, base));
    assert forall|e: (u64, Seq<u8>)|
        #[trigger] m_post.dom().contains(e) && canonical(e) && within(e, h, base) implies e.0 >= 1
        && m_post[e] == subtree_root(c, keys_under(s2, e.0 as int, e.1), e.0 as int, e.1)
        && m_post[e].len() == 32 by {
        if e == k {
            if !C::retains(left, right, default_hash(c, h - 1)) {
                assert(!m_post.dom().contains(k));
            }
            assert(m_post[e] == ih);
        } else {
            assert(m_pre.dom().contains(e) && m_post[e] == m_pre[e]);
            if e.0 == height {
                lemma_within_same_height(e, h, base);
                assert(e == k);
            } else {
                lemma_within_child(e, h, base);
                if bit_at(e.1, 256 - h) {
                    assert(within(e, h - 1, sp));
                } else {
                    assert(within(e, h - 1, base));
                }
            }
        }
    }
    assert forall|e: (u64, Seq<u8>)|
        !(#[trigger] touched_node(e, ks, h, base)) implies (m_post.dom().contains(e)
        == m0.dom().contains(e) && (m_post.dom().contains(e) ==> m_post[e] == m0[e])) by {
        assert(e != k);
        assert(m_post.dom().contains(e) == m_pre.dom().contains(e));
        assert(m_post.dom().contains(e) ==> m_post[e] == m_pre[e]);
    }
    assert forall|e: (u64, Seq<u8>)|
        #[trigger] touched_node(e, ks, h, base) implies (m_post.dom().contains(e)
        <==> C::retains(
        left_child_root(c, s2, e),
        right_child_root(c, s2, e),
        default_hash(c, e.0 as int - 1),
    )) by {
        if e == k {
            assert(left_child_root(c, s2, k) == left);
            assert(right_child_root(c, s2, k) == right);
        } else {
            assert(m_post.dom().contains(e) == m_pre.dom().contains(e));
        }
    }
}

impl SMT {
    /// Root digest of the subtree `(height, base)` over the keys of `d`,
    /// consulting the cache before recursing. The result is the node's
    /// mathematical subtree root, whatever the cache holds.
    fn root_hash_internal<C: Cache>(
        &self,
        d: &D,
        height: u64,
        base: &Vec<u8>,
        cache: &C,
        Ghost(s): Ghost<Set<Seq<u8>>>,
    ) -> (r: Vec<u8>)
        requires
            self.wf(),
            height <= 256,
            base@.len() == 32,
            zeros_from(base@, 256 - height as int),
            strictly_sorted(d@),
            uniform_len(d@, 32),
            forall|i: int|
                0 <= i < d@.len() ==> bits_eq_below(#[trigger] d@[i], base@, 256 - height as int),
            d@.to_set() == keys_under(s, height as int, base@),
            cache_ok_within(cache.contents(), self.key_prefix(), s, height as int, base@),
        ensures
            r@ == subtree_root(self.key_prefix(), d@.to_set(), height as int, base@),
            r@.len() == 32,
        decreases height,
    {
        proof {
            assert(canonical((height, base@)));
            assert(within((height, base@), height as int, base@));
        }
        if cache.contains(height, base) {
            let r = cache.get(height, base);
            return r;
        }
        if d.len() == 0 {
            proof {
                assert(d@.to_set() =~= Set::<Seq<u8>>::empty());
                assert(d@.to_set().is_empty());
            }
            return self.default_hash_at(height);
        }
        proof {
            assert(d@.to_set().contains(d@[0]));
            assert(!d@.to_set().is_empty());
        }
        if height == 0 {
            proof {
                assert forall|i: int| 0 <= i < d@.len() implies #[trigger] d@[i] == base@ by {
                    lemma_all_bits_key(d@[i], base@);
                }
                if d@.len() > 1 {
                    assert(lex_lt(d@[0], d@[1]));
                    crate::order::lemma_lex_irrefl(base@);
                }
                assert(d@.len() == 1);
            }
            let occupied = crate::hashing::set_marker();
            return self.leaf_hash(&occupied, base);
        }
        let split = bit_split(base, self.n - height);
        let (l, r) = d.split(&split);
        proof {
            lemma_split_sets(d@, l@, r@, s, height as int, base@);
            assert forall|e: (u64, Seq<u8>)|
                #[trigger] cache.contents().dom().contains(e) && canonical(e) && within(
                    e,
                    height as int - 1,
                    base@,
                ) implies within(e, height as int, base@) by {
                lemma_within_parent(e, height as int, base@);
            }
            assert forall|e: (u64, Seq<u8>)|
                #[trigger] cache.contents().dom().contains(e) && canonical(e) && within(
                    e,
                    height as int - 1,
                    split@,
                ) implies within(e, height as int, base@) by {
                lemma_within_parent(e, height as int, base@);
            }
        }
        let left = self.root_hash_internal(&l, height - 1, base, cache, Ghost(s));
        let right = self.root_hash_internal(&r, height - 1, &split, cache, Ghost(s));
        let ih = self.interior_hash(&left, &right, height, base);
        proof {
            lemma_root_unfold(self.key_prefix(), s, height as int, base@);
        }
        ih
    }

    /// New root digest of the subtree `(height, base)` after marking every
    /// key of `key` with `value`: interior hashes along the touched paths are
    /// recomputed and offered to the cache, so that every entry inside this
    /// subtree is left valid for the updated key set, and nothing outside it
    /// is touched.
    fn update_internal<C: Cache>(
        &self,
        d: &D,
        key: &Key,
        height: u64,
        base: &Vec<u8>,
        value: &Vec<u8>,
        cache: &mut C,
        Ghost(s): Ghost<Set<Seq<u8>>>,
    ) -> (r: Vec<u8>)
        requires
            self.wf(),
            height <= 256,
            base@.len() == 32,
            zeros_from(base@, 256 - height as int),
            strictly_sorted(d@),
            uniform_len(d@, 32),
            forall|i: int|
                0 <= i < d@.len() ==> bits_eq_below(#[trigger] d@[i], base@, 256 - height as int),
            d@.to_set() == keys_under(s, height as int, base@),
            strictly_sorted(key@),
            uniform_len(key@, 32),
            key@.len() >= 1,
            forall|i: int|
                0 <= i < key@.len() ==> bits_eq_below(#[trigger] key@[i], base@, 256 - height as int),
            forall|k: Seq<u8>| s.contains(k) ==> k.len() == 32,
            cache_ok_within(old(cache).contents(), self.key_prefix(), s, height as int, base@),
        ensures
            r@ == subtree_root(
                self.key_prefix(),
                keys_under(applied(s, key@.to_set(), value@), height as int, base@),
                height as int,
                base@,
            ),
            r@.len() == 32,
            cache_ok_within(
                final(cache).contents(),
                self.key_prefix(),
                applied(s, key@.to_set(), value@),
                height as int,
                base@,
            ),
            forall|e: (u64, Seq<u8>)|
                !within(e, height as int, base@) ==> (final(cache).contents().dom().contains(e)
                    == old(cache).contents().dom().contains(e) && (final(cache).contents().dom().contains(e) ==> final(cache).contents()[e] == old(cache).contents()[e])),
            forall|e: (u64, Seq<u8>)|
                !(#[trigger] touched_node(e, key@.to_set(), height as int, base@)) ==> (final(cache).contents().dom().contains(e) == old(cache).contents().dom().contains(e) && (final(cache).contents().dom().contains(e) ==> final(cache).contents()[e] == old(cache).contents()[e])),
            forall|e: (u64, Seq<u8>)|
                #[trigger] touched_node(e, key@.to_set(), height as int, base@) ==> (final(cache).contents().dom().contains(e) <==> C::retains(
                    left_child_root(self.key_prefix(), applied(s, key@.to_set(), value@), e),
                    right_child_root(self.key_prefix(), applied(s, key@.to_set(), value@), e),
                    default_hash(self.key_prefix(), e.0 as int - 1),
                )),
        decreases height,
    {
        let ghost c0 = self.key_prefix();
        let ghost ks = key@.to_set();
        let ghost s2 = applied(s, ks, value@);
        if height == 0 {
            proof {
                assert(key@.to_set().contains(key@[0]));
                assert forall|i: int| 0 <= i < key@.len() implies #[trigger] key@[i] == base@ by {
                    lemma_all_bits_key(key@[i], base@);
                }
                assert(ks.contains(base@));
                if is_empty_marker(value@) {
                    assert forall|k: Seq<u8>| !keys_under(s2, 0, base@).contains(k) by {
                        if keys_under(s2, 0, base@).contains(k) {
                            lemma_all_bits_key(k, base@);
                        }
                    }
                    assert(keys_under(s2, 0, base@) =~= Set::<Seq<u8>>::empty());
                    assert(keys_under(s2, 0, base@).is_empty());
                    assert(subtree_root(c0, keys_under(s2, 0, base@), 0, base@) == default_hash(
                        c0,
                        0,
                    ));
                } else {
                    assert(s2.contains(base@));
                    assert(keys_under(s2, 0, base@).contains(base@));
                    assert(!keys_under(s2, 0, base@).is_empty());
                }
                // no reachable cache entry can sit at a leaf, and no node of a
                // height-0 subtree can be an interior node
                assert forall|e: (u64, Seq<u8>)|
                    #[trigger] cache.contents().dom().contains(e) && canonical(e) && within(
                        e,
                        0,
                        base@,
                    ) implies false by {}
                assert forall|e: (u64, Seq<u8>)| !touched_node(e, ks, 0, base@) by {}
            }
            return self.leaf_hash(value, base);
        }
        let ghost m0 = cache.contents();
        let ghost p = 256 - height as int;
        let split = bit_split(base, self.n - height);
        let (l_d, r_d) = d.split(&split);
        let (l_keys, r_keys) = key.split(&split);
        proof {
            lemma_split_sets(d@, l_d@, r_d@, s, height as int, base@);
            lemma_split_bits(key@, l_keys@, r_keys@, height as int, base@);
            assert(key@ =~= l_keys@ + r_keys@);
            vstd::seq_lib::seq_to_set_distributes_over_add(l_keys@, r_keys@);
            assert(ks == l_keys@.to_set().union(r_keys@.to_set()));
            // parent cache validity covers both children
            assert forall|e: (u64, Seq<u8>)|
                #[trigger] m0.dom().contains(e) && canonical(e) && (within(
                    e,
                    height as int - 1,
                    base@,
                ) || within(e, height as int - 1, split@)) implies within(
                e,
                height as int,
                base@,
            ) by {
                lemma_within_parent(e, height as int, base@);
            }
        }
        let ghost l_set = l_keys@.to_set();
        let ghost r_set = r_keys@.to_set();
        proof {
            lemma_set_bit_from_seq(l_keys@, p, false);
            lemma_set_bit_from_seq(r_keys@, p, true);
            assert(bit_at(split@, p)) by {
                lemma_with_bit_bits(base@, p, p);
            }
            assert(!bit_at(base@, p));
        }
        let left: Vec<u8>;
        let right: Vec<u8>;
        if l_keys.len() == 0 && r_keys.len() > 0 {
            proof {
                assert(ks =~= r_set);
            }
            left = self.root_hash_internal(&l_d, height - 1, base, cache, Ghost(s));
            right = self.update_internal(&r_d, &r_keys, height - 1, &split, value, cache, Ghost(s));
            proof {
                assert(applied(s, r_set, value@) == s2);
                lemma_keys_under_stable(s, r_set, value@, height as int - 1, base@, p, true);
                assert(left@ == subtree_root(c0, keys_under(s2, height as int - 1, base@), height as int - 1, base@));
                // entries in the left child were untouched and stay valid
                assert forall|e: (u64, Seq<u8>)|
                    #[trigger] cache.contents().dom().contains(e) && canonical(e) && within(
                        e,
                        height as int - 1,
                        base@,
                    ) implies e.0 >= 1 && cache.contents()[e] == subtree_root(
                    c0,
                    keys_under(s2, e.0 as int, e.1),
                    e.0 as int,
                    e.1,
                ) && cache.contents()[e].len() == 32 by {
                    assert(bit_at(e.1, p) == bit_at(base@, p));
                    assert(!within(e, height as int - 1, split@));
                    assert(!touched_node(e, r_set, height as int - 1, split@));
                    assert(m0.dom().contains(e) && cache.contents()[e] == m0[e]);
                    lemma_keys_under_stable(s, r_set, value@, e.0 as int, e.1, p, true);
                }
                // away from the batch, entries are exactly as before
                assert forall|e: (u64, Seq<u8>)|
                    e != (height, base@) && !(#[trigger] touched_node(
                        e,
                        ks,
                        height as int,
                        base@,
                    )) implies (cache.contents().dom().contains(e) == m0.dom().contains(e) && (
                    cache.contents().dom().contains(e) ==> cache.contents()[e] == m0[e])) by {
                    lemma_touched_classify(e, height, base@, ks, l_set, r_set);
                    assert(!touched_node(e, r_keys@.to_set(), height as int - 1, split@));
                }
                // below the node, touched entries already follow the policy
                assert forall|e: (u64, Seq<u8>)|
                    e != (height, base@) && #[trigger] touched_node(
                        e,
                        ks,
                        height as int,
                        base@,
                    ) implies (cache.contents().dom().contains(e) <==> C::retains(
                    left_child_root(c0, s2, e),
                    right_child_root(c0, s2, e),
                    default_hash(c0, e.0 as int - 1),
                )) by {
                    lemma_touched_classify(e, height, base@, ks, l_set, r_set);
                    if bit_at(e.1, p) {
                        assert(touched_node(e, r_keys@.to_set(), height as int - 1, split@));
                    } else {
                        assert(touched_node(e, l_set, height as int - 1, base@));
                        assert(l_set =~= Set::<Seq<u8>>::empty());
                        assert(keys_under(l_set, e.0 as int, e.1) =~= Set::<Seq<u8>>::empty());
                        assert(false);
                    }
                }
            }
        } else if l_keys.len() > 0 && r_keys.len() == 0 {
            proof {
                assert(ks =~= l_set);
            }
            left = self.update_internal(&l_d, &l_keys, height - 1, base, value, cache, Ghost(s));
            proof {
                assert(applied(s, l_set, value@) == s2);
                // entries in the right child were untouched and stay valid for s
                assert forall|e: (u64, Seq<u8>)|
                    #[trigger] cache.contents().dom().contains(e) && canonical(e) && within(
                        e,
                        height as int - 1,
                        split@,
                    ) implies e.0 >= 1 && cache.contents()[e] == subtree_root(
                    c0,
                    keys_under(s, e.0 as int, e.1),
                    e.0 as int,
                    e.1,
                ) && cache.contents()[e].len() == 32 by {
                    assert(bit_at(e.1, p) == bit_at(split@, p));
                    assert(!within(e, height as int - 1, base@));
                    assert(!touched_node(e, l_set, height as int - 1, base@));
                    assert(m0.dom().contains(e) && cache.contents()[e] == m0[e]);
                }
            }
            right = self.root_hash_internal(&r_d, height - 1, &split, cache, Ghost(s));
            proof {
                lemma_keys_under_stable(s, l_set, value@, height as int - 1, split@, p, false);
                assert(right@ == subtree_root(c0, keys_under(s2, height as int - 1, split@), height as int - 1, split@));
                // and after the right read, left-child entries are valid for s2
                assert forall|e: (u64, Seq<u8>)|
                    #[trigger] cache.contents().dom().contains(e) && canonical(e) && within(
                        e,
                        height as int - 1,
                        base@,
                    ) implies e.0 >= 1 && cache.contents()[e] == subtree_root(
                    c0,
                    keys_under(s2, e.0 as int, e.1),
                    e.0 as int,
                    e.1,
                ) && cache.contents()[e].len() == 32 by {}
                // right-child entries stay valid for s2 as well
                assert forall|e: (u64, Seq<u8>)|
                    #[trigger] cache.contents().dom().contains(e) && canonical(e) && within(
                        e,
                        height as int - 1,
                        split@,
                    ) implies e.0 >= 1 && cache.contents()[e] == subtree_root(
                    c0,
                    keys_under(s2, e.0 as int, e.1),
                    e.0 as int,
                    e.1,
                ) && cache.contents()[e].len() == 32 by {
                    assert(bit_at(e.1, p) == bit_at(split@, p));
                    assert(!within(e, height as int - 1, base@));
                    assert(!touched_node(e, l_set, height as int - 1, base@));
                    assert(m0.dom().contains(e) && cache.contents()[e] == m0[e]);
                    lemma_keys_under_stable(s, l_set, value@, e.0 as int, e.1, p, false);
                }
                // away from the batch, entries are exactly as before
                assert forall|e: (u64, Seq<u8>)|
                    e != (height, base@) && !(#[trigger] touched_node(
                        e,
                        ks,
                        height as int,
                        base@,
                    )) implies (cache.contents().dom().contains(e) == m0.dom().contains(e) && (
                    cache.contents().dom().contains(e) ==> cache.contents()[e] == m0[e])) by {
                    lemma_touched_classify(e, height, base@, ks, l_set, r_set);
                    assert(!touched_node(e, l_keys@.to_set(), height as int - 1, base@));
                }
                // below the node, touched entries already follow the policy
                assert forall|e: (u64, Seq<u8>)|
                    e != (height, base@) && #[trigger] touched_node(
                        e,
                        ks,
                        height as int,
                        base@,
                    ) implies (cache.contents().dom().contains(e) <==> C::retains(
                    left_child_root(c0, s2, e),
                    right_child_root(c0, s2, e),
                    default_hash(c0, e.0 as int - 1),
                )) by {
                    lemma_touched_classify(e, height, base@, ks, l_set, r_set);
                    if !bit_at(e.1, p) {
                        assert(touched_node(e, l_keys@.to_set(), height as int - 1, base@));
                    } else {
                        assert(touched_node(e, r_set, height as int - 1, split@));
                        assert(r_set =~= Set::<Seq<u8>>::empty());
                        assert(keys_under(r_set, e.0 as int, e.1) =~= Set::<Seq<u8>>::empty());
                        assert(false);
                    }
                }
            }
        } else {
            proof {
                assert(l_keys@.len() > 0 && r_keys@.len() > 0);
            }
            let ghost s_mid = applied(s, l_set, value@);
            left = self.update_internal(&l_d, &l_keys, height - 1, base, value, cache, Ghost(s));
            proof {
                lemma_applied_twice(s, l_set, r_set, value@);
                assert(applied(s_mid, r_set, value@) == applied(s, l_set.union(r_set), value@));
                assert(l_set.union(r_set) =~= ks);
                // the right child's keys are unchanged by the left batch
                lemma_keys_under_stable(s, l_set, value@, height as int - 1, split@, p, false);
                // right-child entries untouched by the left update, valid for s_mid
                assert forall|e: (u64, Seq<u8>)|
                    #[trigger] cache.contents().dom().contains(e) && canonical(e) && within(
                        e,
                        height as int - 1,
                        split@,
                    ) implies e.0 >= 1 && cache.contents()[e] == subtree_root(
                    c0,
                    keys_under(s_mid, e.0 as int, e.1),
                    e.0 as int,
                    e.1,
                ) && cache.contents()[e].len() == 32 by {
                    assert(bit_at(e.1, p) == bit_at(split@, p));
                    assert(!within(e, height as int - 1, base@));
                    assert(m0.dom().contains(e) && cache.contents()[e] == m0[e]);
                    lemma_keys_under_stable(s, l_set, value@, e.0 as int, e.1, p, false);
                }
                assert forall|k: Seq<u8>| s_mid.contains(k) implies k.len() == 32 by {}
            }
            let ghost m1 = cache.contents();
            right = self.update_internal(
                &r_d,
                &r_keys,
                height - 1,
                &split,
                value,
                cache,
                Ghost(s_mid),
            );
            proof {
                assert(applied(s_mid, r_set, value@) == s2);
                // the left child's keys are unchanged by the right batch
                lemma_keys_under_stable(s_mid, r_set, value@, height as int - 1, base@, p, true);
                assert(left@ == subtree_root(c0, keys_under(s2, height as int - 1, base@), height as int - 1, base@));
                // left-child entries untouched by the right update, valid for s2
                assert forall|e: (u64, Seq<u8>)|
                    #[trigger] cache.contents().dom().contains(e) && canonical(e) && within(
                        e,
                        height as int - 1,
                        base@,
                    ) implies e.0 >= 1 && cache.contents()[e] == subtree_root(
                    c0,
                    keys_under(s2, e.0 as int, e.1),
                    e.0 as int,
                    e.1,
                ) && cache.contents()[e].len() == 32 by {
                    assert(bit_at(e.1, p) == bit_at(base@, p));
                    assert(!within(e, height as int - 1, split@));
                    assert(!touched_node(e, r_set, height as int - 1, split@));
                    assert(m1.dom().contains(e) && cache.contents()[e] == m1[e]);
                    lemma_keys_under_stable(s_mid, r_set, value@, e.0 as int, e.1, p, true);
                }
                // away from the batch, entries are exactly as before the call
                assert forall|e: (u64, Seq<u8>)|
                    e != (height, base@) && !(#[trigger] touched_node(
                        e,
                        ks,
                        height as int,
                        base@,
                    )) implies (cache.contents().dom().contains(e) == m0.dom().contains(e) && (
                    cache.contents().dom().contains(e) ==> cache.contents()[e] == m0[e])) by {
                    lemma_touched_classify(e, height, base@, ks, l_set, r_set);
                    assert(!touched_node(e, l_keys@.to_set(), height as int - 1, base@));
                    assert(!touched_node(e, r_keys@.to_set(), height as int - 1, split@));
                    assert(m1.dom().contains(e) == m0.dom().contains(e) && (m1.dom().contains(e)
                        ==> m1[e] == m0[e]));
                }
                // below the node, touched entries already follow the policy
                assert forall|e: (u64, Seq<u8>)|
                    e != (height, base@) && #[trigger] touched_node(
                        e,
                        ks,
                        height as int,
                        base@,
                    ) implies (cache.contents().dom().contains(e) <==> C::retains(
                    left_child_root(c0, s2, e),
                    right_child_root(c0, s2, e),
                    default_hash(c0, e.0 as int - 1),
                )) by {
                    lemma_touched_classify(e, height, base@, ks, l_set, r_set);
                    if bit_at(e.1, p) {
                        // decided by the right child's update
                        assert(touched_node(e, r_keys@.to_set(), height as int - 1, split@));
                    } else {
                        // decided by the left child's update, then untouched on
                        // the right, and the batch on the right cannot change
                        // what lies under this node's children
                        assert(touched_node(e, l_keys@.to_set(), height as int - 1, base@));
                        assert(!within(e, height as int - 1, split@));
                        assert(!touched_node(e, r_keys@.to_set(), height as int - 1, split@));
                        assert(cache.contents().dom().contains(e) == m1.dom().contains(e));
                        assert(m1.dom().contains(e) <==> C::retains(
                            left_child_root(c0, s_mid, e),
                            right_child_root(c0, s_mid, e),
                            default_hash(c0, e.0 as int - 1),
                        ));
                        assert(e.1.len() == 32);
                        lemma_keys_under_stable(s_mid, r_set, value@, e.0 as int - 1, e.1, p, true);
                        assert(left_child_root(c0, s_mid, e) == left_child_root(c0, s2, e));
                        let cb = with_bit(e.1, 256 - e.0 as int);
                        assert(bit_at(cb, p) == bit_at(e.1, p)) by {
                            lemma_with_bit_bits(e.1, 256 - e.0 as int, p);
                        }
                        lemma_keys_under_stable(s_mid, r_set, value@, e.0 as int - 1, cb, p, true);
                        assert(right_child_root(c0, s_mid, e) == right_child_root(c0, s2, e));
                    }
                }
            }
        }
        let ih = self.interior_hash(&left, &right, height, base);
        proof {
            lemma_root_unfold(c0, s2, height as int, base@);
        }
        let ghost m_pre = cache.contents();
        cache.hash_cache(&left, &right, height, base, &split, &ih, &self.default_hashes);
        proof {
            assert(self.default_hashes@[height as int - 1]@ == default_hash(
                c0,
                height as int - 1,
            )) by {
                assert(views(self.default_hashes@)[height as int - 1] == self.default_hashes@[
                    height as int - 1
                ]@);
            }
            assert(touched_node((height, base@), ks, height as int, base@)) by {
                assert(key@.to_set().contains(key@[0]));
                assert(bits_eq_below(key@[0], base@, p));
                assert(keys_under(ks, height as int, base@).contains(key@[0]));
                if keys_under(ks, height as int, base@).is_empty() {
                    assert(!keys_under(ks, height as int, base@).contains(key@[0]));
                }
            }
            assert(left@ == left_child_root(c0, s2, (height, base@)));
            assert(right@ == right_child_root(c0, s2, (height, base@)));
            lemma_update_node_cache::<C>(
                m0,
                m_pre,
                cache.contents(),
                c0,
                s2,
                ks,
                height,
                base@,
                split@,
                ih@,
                left@,
                right@,
            );
            // whatever lies outside the subtree is in particular untouched
            assert forall|e: (u64, Seq<u8>)|
                !(#[trigger] within(e, height as int, base@)) implies (
                cache.contents().dom().contains(e) == m0.dom().contains(e) && (
                cache.contents().dom().contains(e) ==> cache.contents()[e] == m0[e])) by {
                assert(!touched_node(e, ks, height as int, base@));
            }
        }
        ih
    }

    /// New root of the whole tree after marking every key of the sorted,
    /// non-empty batch `key` with `value`: keys are added to the set for any
    /// occupied marker and removed for the unoccupied one. Every cache entry
    /// is left valid for the updated key set, so a later `root_hash` over the
    /// merged keys may reuse the cache.
    pub fn update<C: Cache>(&self, d: &D, key: Key, value: &Vec<u8>, cache: &mut C) -> (r: Vec<u8>)
        requires
            self.wf(),
            strictly_sorted(d@),
            uniform_len(d@, 32),
            strictly_sorted(key@),
            uniform_len(key@, 32),
            key@.len() >= 1,
            cache_ok(old(cache).contents(), self.key_prefix(), d@.to_set()),
        ensures
            r@ == subtree_root(
                self.key_prefix(),
                applied(d@.to_set(), key@.to_set(), value@),
                256,
                zero_base(),
            ),
            r@.len() == 32,
            cache_ok(
                final(cache).contents(),
                self.key_prefix(),
                applied(d@.to_set(), key@.to_set(), value@),
            ),
            forall|e: (u64, Seq<u8>)|
                !(#[trigger] touched_node(e, key@.to_set(), 256, zero_base())) ==> (final(cache).contents().dom().contains(e) == old(cache).contents().dom().contains(e) && (final(cache).contents().dom().contains(e) ==> final(cache).contents()[e] == old(cache).contents()[e])),
            forall|e: (u64, Seq<u8>)|
                #[trigger] touched_node(e, key@.to_set(), 256, zero_base()) ==> (final(cache).contents().dom().contains(e) <==> C::retains(
                    left_child_root(
                        self.key_prefix(),
                        applied(d@.to_set(), key@.to_set(), value@),
                        e,
                    ),
                    right_child_root(
                        self.key_prefix(),
                        applied(d@.to_set(), key@.to_set(), value@),
                        e,
                    ),
                    default_hash(self.key_prefix(), e.0 as int - 1),
                )),
    {
        let ghost s = d@.to_set();
        let ghost s2 = applied(s, key@.to_set(), value@);
        proof {
            lemma_zero_base_bits();
            assert(s =~= keys_under(s, 256, zero_base()));
            assert forall|k: Seq<u8>| s.contains(k) implies k.len() == 32 by {
                let j = choose|j: int| 0 <= j < d@.len() && d@[j] == k;
            }
        }
        let r = self.update_internal(d, &key, 256, &self.base, value, cache, Ghost(s));
        proof {
            assert(keys_under(s2, 256, zero_base()) =~= s2);
            assert(self.base@ == zero_base());
            assert forall|e: (u64, Seq<u8>)|
                !(#[trigger] touched_node(e, key@.to_set(), 256, zero_base())) implies (
                cache.contents().dom().contains(e) == old(cache).contents().dom().contains(e) && (
                cache.contents().dom().contains(e) ==> cache.contents()[e] == old(
                    cache,
                ).contents()[e])) by {
                assert(!touched_node(e, key@.to_set(), 256, self.base@));
            }
            assert forall|e: (u64, Seq<u8>)|
                #[trigger] touched_node(e, key@.to_set(), 256, zero_base()) implies (
                cache.contents().dom().contains(e) <==> C::retains(
                left_child_root(self.key_prefix(), s2, e),
                right_child_root(self.key_prefix(), s2, e),
                default_hash(self.key_prefix(), e.0 as int - 1),
            )) by {
                assert(touched_node(e, key@.to_set(), 256, self.base@));
            }
        }
        r
    }

    /// Sibling digests along `key`'s path below the node `(height, base)`,
    /// ordered from the leaf's sibling up.
    fn audit_path_internal<C: Cache>(
        &self,
        d: &D,
        height: u64,
        base: &Vec<u8>,
        key: &Vec<u8>,
        cache: &C,
        Ghost(s): Ghost<Set<Seq<u8>>>,
    ) -> (r: Vec<Vec<u8>>)
        requires
            self.wf(),
            height <= 256,
            key@.len() == 32,
            base@ == path_base(key@, height as int),
            strictly_sorted(d@),
            uniform_len(d@, 32),
            forall|i: int|
                0 <= i < d@.len() ==> bits_eq_below(#[trigger] d@[i], base@, 256 - height as int),
            d@.to_set() == keys_under(s, height as int, base@),
            cache_ok_within(cache.contents(), self.key_prefix(), s, height as int, base@),
        ensures
            views(r@).len() == height,
            views(r@) == crate::model::sibling_roots(self.key_prefix(), s, key@).subrange(
                0,
                height as int,
            ),
            uniform_len(views(r@), 32),
        decreases height,
    {
        if height == 0 {
            let r: Vec<Vec<u8>> = Vec::new();
            proof {
                assert(views(r@) =~= crate::model::sibling_roots(
                    self.key_prefix(),
                    s,
                    key@,
                ).subrange(0, 0));
            }
            return r;
        }
        let ghost p = 256 - height as int;
        proof {
            crate::model::lemma_mask_above_props(key@, p);
            assert(base@.len() == 32);
            assert(zeros_from(base@, p));
            assert(bits_eq_below(key@, base@, p));
        }
        let split = bit_split(base, self.n - height);
        let (l, r) = d.split(&split);
        proof {
            lemma_split_sets(d@, l@, r@, s, height as int, base@);
            crate::model::lemma_mask_above_step(key@, p);
            assert forall|e: (u64, Seq<u8>)|
                #[trigger] cache.contents().dom().contains(e) && canonical(e) && (within(
                    e,
                    height as int - 1,
                    base@,
                ) || within(e, height as int - 1, split@)) implies within(
                e,
                height as int,
                base@,
            ) by {
                lemma_within_parent(e, height as int, base@);
            }
            assert(255 - (height as int - 1) == p);
        }
        if !bit_is_set(key, self.n - height) {
            proof {
                assert(path_base(key@, height as int - 1) == base@);
                assert(sibling_base(key@, height as int - 1) == split@);
            }
            let mut t = self.audit_path_internal(&l, height - 1, base, key, cache, Ghost(s));
            let sib = self.root_hash_internal(&r, height - 1, &split, cache, Ghost(s));
            let ghost t_before = t@;
            t.push(sib);
            proof {
                let sibs = crate::model::sibling_roots(self.key_prefix(), s, key@);
                assert forall|j: int| 0 <= j < height implies views(t@)[j] == sibs.subrange(
                    0,
                    height as int,
                )[j] by {
                    if j < height - 1 {
                        assert(views(t@)[j] == views(t_before)[j]);
                        assert(views(t_before)[j] == sibs.subrange(0, height - 1)[j]);
                    } else {
                        assert(views(t@)[j] == sib@);
                        assert(sibs[j] == subtree_root(
                            self.key_prefix(),
                            keys_under(s, j, sibling_base(key@, j)),
                            j,
                            sibling_base(key@, j),
                        ));
                    }
                }
                assert(views(t@) =~= sibs.subrange(0, height as int));
                assert forall|j: int| 0 <= j < height implies (#[trigger] views(t@)[j]).len()
                    == 32 by {
                    if j < height - 1 {
                        assert(views(t@)[j] == views(t_before)[j]);
                    } else {
                        assert(views(t@)[j] == sib@);
                    }
                }
            }
            return t;
        }
        proof {
            assert(path_base(key@, height as int - 1) == split@);
            assert(sibling_base(key@, height as int - 1) == base@);
        }
        let mut t = self.audit_path_internal(&r, height - 1, &split, key, cache, Ghost(s));
        let sib = self.root_hash_internal(&l, height - 1, base, cache, Ghost(s));
        let ghost t_before = t@;
        t.push(sib);
        proof {
            let sibs = crate::model::sibling_roots(self.key_prefix(), s, key@);
            assert forall|j: int| 0 <= j < height implies views(t@)[j] == sibs.subrange(
                0,
                height as int,
            )[j] by {
                if j < height - 1 {
                    assert(views(t@)[j] == views(t_before)[j]);
                    assert(views(t_before)[j] == sibs.subrange(0, height - 1)[j]);
                } else {
                    assert(views(t@)[j] == sib@);
                    assert(sibs[j] == subtree_root(
                        self.key_prefix(),
                        keys_under(s, j, sibling_base(key@, j)),
                        j,
                        sibling_base(key@, j),
                    ));
                }
            }
            assert(views(t@) =~= sibs.subrange(0, height as int));
            assert forall|j: int| 0 <= j < height implies (#[trigger] views(t@)[j]).len()
                == 32 by {
                if j < height - 1 {
                    assert(views(t@)[j] == views(t_before)[j]);
                } else {
                    assert(views(t@)[j] == sib@);
                }
            }
        }
        t
    }

    /// The audit path of `key` under the sorted key set `d`: exactly 256
    /// sibling digests, one per level, from the leaf's sibling up to the
    /// root's. Like the root digest, it depends only on the set of keys, not
    /// on the cache.
    pub fn audit_path<C: Cache>(&self, d: &D, key: &Vec<u8>, cache: &C) -> (r: Vec<Vec<u8>>)
        requires
            self.wf(),
            strictly_sorted(d@),
            uniform_len(d@, 32),
            key@.len() == 32,
            cache_ok(cache.contents(), self.key_prefix(), d@.to_set()),
        ensures
            views(r@).len() == 256,
            views(r@) == crate::model::sibling_roots(self.key_prefix(), d@.to_set(), key@),
            uniform_len(views(r@), 32),
    {
        proof {
            lemma_zero_base_bits();
            crate::model::lemma_mask_above_ends(key@);
            assert(d@.to_set() =~= keys_under(d@.to_set(), 256, zero_base()));
            assert(self.base@ == path_base(key@, 256));
        }
        let r = self.audit_path_internal(d, self.n, &self.base, key, cache, Ghost(d@.to_set()));
        proof {
            assert(views(r@) =~= crate::model::sibling_roots(
                self.key_prefix(),
                d@.to_set(),
                key@,
            ));
        }
        r
    }

    /// Digest reconstructed from an audit path, climbing from the leaf for
    /// `key` holding `value` up to the node at `(height, base)` on `key`'s
    /// path.
    fn audit_path_calc(
        &self,
        ap: &Vec<Vec<u8>>,
        height: u64,
        base: &Vec<u8>,
        key: &Vec<u8>,
        value: &Vec<u8>,
    ) -> (r: Vec<u8>)
        requires
            self.wf(),
            height <= 256,
            key@.len() == 32,
            base@ == path_base(key@, height as int),
            views(ap@).len() >= height,
            uniform_len(views(ap@), 32),
        ensures
            r@ == crate::model::path_calc(
                self.key_prefix(),
                views(ap@),
                height as int,
                key@,
                !is_empty_marker(value@),
            ),
            r@.len() == 32,
        decreases height,
    {
        proof {
            crate::model::lemma_mask_above_props(key@, 256 - height as int);
        }
        if height == 0 {
            return self.leaf_hash(value, base);
        }
        let split = bit_split(base, self.n - height);
        proof {
            crate::model::lemma_mask_above_step(key@, 256 - height as int);
        }
        let sibling = &ap[(height - 1) as usize];
        proof {
            assert(sibling@ == views(ap@)[height - 1]);
            assert(views(ap@)[height - 1].len() == 32);
        }
        if !bit_is_set(key, self.n - height) {
            proof {
                assert(path_base(key@, height as int - 1) == base@);
            }
            let sub = self.audit_path_calc(ap, height - 1, base, key, value);
            self.interior_hash(&sub, sibling, height, base)
        } else {
            proof {
                assert(path_base(key@, height as int - 1) == split@);
            }
            let sub = self.audit_path_calc(ap, height - 1, &split, key, value);
            self.interior_hash(sibling, &sub, height, base)
        }
    }

    /// Checks a claimed root against an audit path: reconstructs the root
    /// from the leaf marker `value` for `key` and the 256 sibling digests of
    /// `ap`, and compares it with `root`.
    pub fn verify_audit_path(
        &self,
        ap: &Vec<Vec<u8>>,
        key: &Vec<u8>,
        value: &Vec<u8>,
        root: &Vec<u8>,
    ) -> (r: bool)
        requires
            self.wf(),
            key@.len() == 32,
            views(ap@).len() == 256,
            uniform_len(views(ap@), 32),
        ensures
            r == (root@ == crate::model::path_calc(
                self.key_prefix(),
                views(ap@),
                256,
                key@,
                !is_empty_marker(value@),
            )),
    {
        let mut zero_vec: Vec<u8> = Vec::new();
        let mut z: usize = 0;
        while z < 32
            invariant
                z <= 32,
                zero_vec@.len() == z,
                forall|j: int| 0 <= j < z ==> zero_vec@[j] == 0u8,
            decreases 32 - z,
        {
            zero_vec.push(0);
            z = z + 1;
        }
        proof {
            assert(zero_vec@ =~= zero_base());
            crate::model::lemma_mask_above_ends(key@);
            assert(zero_vec@ == path_base(key@, 256));
        }
        let calc = self.audit_path_calc(ap, self.n, &zero_vec, key, value);
        crate::bits::bytes_equal(root, &calc)
    }

    /// Root digest of the whole tree over the sorted key set `d`. The result
    /// depends only on the set of keys: any cache whose entries are valid for
    /// that set, including an empty one, yields the same digest.
    pub fn root_hash<C: Cache>(&self, d: &D, cache: &C) -> (r: Vec<u8>)
        requires
            self.wf(),
            strictly_sorted(d@),
            uniform_len(d@, 32),
            cache_ok(cache.contents(), self.key_prefix(), d@.to_set()),
        ensures
            r@ == subtree_root(self.key_prefix(), d@.to_set(), 256, zero_base()),
            r@.len() == 32,
    {
        proof {
            lemma_zero_base_bits();
            assert(d@.to_set() =~= keys_under(d@.to_set(), 256, zero_base()));
        }
        self.root_hash_internal(d, self.n, &self.base, cache, Ghost(d@.to_set()))
    }
}

/// Builds a tree over prefix `c` from the given keys and returns its root
/// digest, or `None` when the keys contain a duplicate.
pub fn compute_root(c: &Vec<u8>, keys: &Vec<Vec<u8>>) -> (r: Option<Vec<u8>>)
    requires
        1 <= c@.len() <= 0x10000000,
        uniform_len(views(keys@), 32),
    ensures
        r is Some <==> views(keys@).no_duplicates(),
        r matches Some(root) ==> root@ == subtree_root(
            c@,
            views(keys@).to_set(),
            256,
            zero_base(),
        ),
{
    let smt = SMT::new(copy_bytes(c));
    let d = D::from_vec(crate::keys::copy_byte_strings(keys));
    proof {
        crate::keys::lemma_same_multiset_nodup(d@, views(keys@));
        crate::keys::lemma_sorted_strict_iff_nodup(d@);
    }
    if !d.is_strict() {
        return None;
    }
    let cache = crate::cache::CacheNothing;
    proof {
        assert forall|e: (u64, Seq<u8>)| !cache.contents().dom().contains(e) by {}
        assert(cache_ok(cache.contents(), smt.key_prefix(), d@.to_set()));
    }
    let root = smt.root_hash(&d, &cache);
    proof {
        crate::keys::lemma_same_multiset_same_set(d@, views(keys@));
    }
    Some(root)
}

/// Builds a tree over prefix `c` from `d_keys`, applies the batch `batch`
/// with the leaf marker `value` through a fresh branch cache, and returns the
/// new root digest together with the number of interior hashes the cache
/// retained. `None` when either key list holds a duplicate or the batch is
/// empty.
pub fn apply_update(
    c: &Vec<u8>,
    d_keys: &Vec<Vec<u8>>,
    batch: &Vec<Vec<u8>>,
    value: &Vec<u8>,
) -> (r: Option<(Vec<u8>, usize)>)
    requires
        1 <= c@.len() <= 0x10000000,
        uniform_len(views(d_keys@), 32),
        uniform_len(views(batch@), 32),
    ensures
        r is Some <==> (views(d_keys@).no_duplicates() && views(batch@).no_duplicates() && views(
            batch@,
        ).len() >= 1),
        r matches Some(q) ==> q.0@ == subtree_root(
            c@,
            applied(views(d_keys@).to_set(), views(batch@).to_set(), value@),
            256,
            zero_base(),
        ),
        r matches Some(q) ==> q.1 == crate::model::branch_retained_nodes(
            c@,
            applied(views(d_keys@).to_set(), views(batch@).to_set(), value@),
            views(batch@).to_set(),
        ).len(),
{
    let smt = SMT::new(copy_bytes(c));
    let d = D::from_vec(crate::keys::copy_byte_strings(d_keys));
    let key = Key::from_vec(crate::keys::copy_byte_strings(batch));
    proof {
        crate::keys::lemma_same_multiset_nodup(d@, views(d_keys@));
        crate::keys::lemma_sorted_strict_iff_nodup(d@);
        crate::keys::lemma_same_multiset_nodup(key@, views(batch@));
        crate::keys::lemma_sorted_strict_iff_nodup(key@);
        crate::keys::lemma_same_multiset_len(key@, views(batch@));
    }
    if !d.is_strict() {
        return None;
    }
    if !key.is_strict() {
        return None;
    }
    if key.len() == 0 {
        return None;
    }
    let mut cache = crate::cache::CacheBranch::new();
    proof {
        assert(cache_ok(cache.contents(), smt.key_prefix(), d@.to_set()));
    }
    proof {
        crate::keys::lemma_same_multiset_same_set(d@, views(d_keys@));
        crate::keys::lemma_same_multiset_same_set(key@, views(batch@));
    }
    let ghost ksv = key@.to_set();
    let ghost s2v = applied(views(d_keys@).to_set(), views(batch@).to_set(), value@);
    let root = smt.update(&d, key, value, &mut cache);
    let retained = cache.entries();
    proof {
        // a fresh branch cache ends up holding exactly the recomputed nodes
        // whose two children both carry real data
        let kept = crate::model::branch_retained_nodes(c@, s2v, ksv);
        assert(cache.contents().dom() =~= kept) by {
            assert forall|e: (u64, Seq<u8>)| cache.contents().dom().contains(e) implies
                kept.contains(e) by {
                if touched_node(e, ksv, 256, zero_base()) {
                    assert(crate::model::retains_both_occupied(
                        left_child_root(c@, s2v, e),
                        right_child_root(c@, s2v, e),
                        default_hash(c@, e.0 as int - 1),
                    ));
                } else {
                    assert(!touched_node(e, ksv, 256, zero_base()));
                }
            }
            assert forall|e: (u64, Seq<u8>)| kept.contains(e) implies
                cache.contents().dom().contains(e) by {
                assert(touched_node(e, ksv, 256, zero_base()));
            }
        }
        assert(retained == kept.len());
    }
    Some((root, retained))
}

/// Builds a tree over prefix `c` from `d_keys` and proves membership or
/// non-membership of `target`: returns the audit path, the root digest, the
/// verifier's verdict for the occupied marker, and its verdict for the
/// unoccupied marker. A key in the tree always passes the occupied check; a
/// key not in the tree always passes the unoccupied one. `None` when the keys
/// hold a duplicate or `target` is not 32 bytes.
pub fn prove_key(c: &Vec<u8>, d_keys: &Vec<Vec<u8>>, target: &Vec<u8>) -> (r: Option<
    (Vec<Vec<u8>>, Vec<u8>, bool, bool),
>)
    requires
        1 <= c@.len() <= 0x10000000,
        uniform_len(views(d_keys@), 32),
    ensures
        r is Some <==> (views(d_keys@).no_duplicates() && target@.len() == 32),
        r matches Some(q) ==> {
            &&& views(d_keys@).to_set().contains(target@) ==> q.2
            &&& !views(d_keys@).to_set().contains(target@) ==> q.3
            &&& q.1@ == subtree_root(c@, views(d_keys@).to_set(), 256, zero_base())
            &&& views(q.0@).len() == 256
        },
{
    if target.len() != 32 {
        return None;
    }
    let smt = SMT::new(copy_bytes(c));
    let d = D::from_vec(crate::keys::copy_byte_strings(d_keys));
    proof {
        crate::keys::lemma_same_multiset_nodup(d@, views(d_keys@));
        crate::keys::lemma_sorted_strict_iff_nodup(d@);
    }
    if !d.is_strict() {
        return None;
    }
    let cache = crate::cache::CacheNothing;
    proof {
        assert(cache_ok(cache.contents(), smt.key_prefix(), d@.to_set()));
        crate::keys::lemma_same_multiset_same_set(d@, views(d_keys@));
    }
    let root = smt.root_hash(&d, &cache);
    let ap = smt.audit_path(&d, target, &cache);
    let occupied = crate::hashing::set_marker();
    let unoccupied = crate::hashing::empty_marker();
    let member_ok = smt.verify_audit_path(&ap, target, &occupied, &root);
    let absent_ok = smt.verify_audit_path(&ap, target, &unoccupied, &root);
    proof {
        let s = d@.to_set();
        assert forall|k2: Seq<u8>| s.contains(k2) implies k2.len() == 32 by {
            let j = choose|j: int| 0 <= j < d@.len() && d@[j] == k2;
        }
        crate::model::lemma_mask_above_ends(target@);
        lemma_zero_base_bits();
        assert(keys_under(s, 256, path_base(target@, 256)) =~= s);
        if s.contains(target@) {
            crate::model::lemma_path_calc_root(
                smt.key_prefix(),
                s,
                views(ap@),
                target@,
                256,
                true,
            );
            assert(member_ok);
        } else {
            crate::model::lemma_path_calc_root(
                smt.key_prefix(),
                s,
                views(ap@),
                target@,
                256,
                false,
            );
            assert(absent_ok);
        }
    }
    Some((ap, root, member_ok, absent_ok))
}

} // verus!
