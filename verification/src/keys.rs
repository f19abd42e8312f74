//! Sorted containers of 32-byte keys: the current key set `D` and a batch of
//! mutation keys `Key`, each with a bit-directed `split` into the entries
//! strictly below a pivot and the entries at or above it.

use vstd::prelude::*;

use vstd::multiset::Multiset;

use crate::bits::copy_bytes;
use crate::order::{
    lemma_lex_connex, lemma_lex_trans, lex_le, lex_lt, lex_lt_bytes, sorted, strictly_sorted,
    uniform_len,
};

verus! {

/// The sequence of mathematical byte strings held by a sequence of vectors.
pub open spec fn views(s: Seq<Vec<u8>>) -> Seq<Seq<u8>> {
    s.map_values(|v: Vec<u8>| v@)
}

/// Chained transitivity: pairwise-adjacent strict order gives strict order
/// between any two positions.
proof fn lemma_chain_lt(s: Seq<Seq<u8>>, i: int, j: int)
    requires
        forall|k: int| 0 <= k < s.len() - 1 ==> lex_lt(#[trigger] s[k], s[k + 1]),
        0 <= i < j < s.len(),
    ensures
        lex_lt(s[i], s[j]),
    decreases j - i,
{
    if j == i + 1 {
        assert(lex_lt(s[i], s[i + 1]));
    } else {
        lemma_chain_lt(s, i, j - 1);
        assert(lex_lt(s[j - 1], s[j]));
        lemma_lex_trans(s[i], s[j - 1], s[j]);
    }
}

/// Inserts `x` into an already sorted vector, keeping it sorted.
fn insert_sorted(r: &mut Vec<Vec<u8>>, x: Vec<u8>)
    requires
        sorted(views(old(r)@)),
        uniform_len(views(old(r)@), 32),
        x@.len() == 32,
    ensures
        sorted(views(final(r)@)),
        uniform_len(views(final(r)@), 32),
        views(final(r)@).to_multiset() == views(old(r)@).to_multiset().insert(x@),
{
    let ghost s0 = views(r@);
    let p = find_split_index(r, &x);
    let ghost pp = p as int;
    r.insert(p, x);
    proof {
        let s1 = views(r@);
        assert(s1 =~= s0.insert(pp, x@));
        // every entry at or after the insertion point is at or above x
        assert forall|j: int| pp <= j < s0.len() implies lex_le(x@, #[trigger] s0[j]) by {
            assert(s0[j].len() == 32);
            assert(!lex_lt(s0[j], x@));
            if !lex_lt(x@, s0[j]) {
                lemma_lex_connex(x@, s0[j]);
            }
        }
        assert forall|i: int, j: int| 0 <= i < j < s1.len() implies lex_le(
            #[trigger] s1[i],
            #[trigger] s1[j],
        ) by {
            if i < pp && j < pp {
                assert(s1[i] == s0[i] && s1[j] == s0[j]);
            } else if i < pp && j == pp {
                assert(s1[i] == s0[i] && lex_lt(s0[i], x@));
            } else if i < pp && j > pp {
                assert(s1[i] == s0[i] && s1[j] == s0[j - 1]);
                assert(lex_le(s0[i], s0[j - 1]));
            } else if i == pp {
                assert(s1[i] == x@ && s1[j] == s0[j - 1]);
                assert(lex_le(x@, s0[j - 1]));
            } else {
                assert(s1[i] == s0[i - 1] && s1[j] == s0[j - 1]);
                assert(lex_le(s0[i - 1], s0[j - 1]));
            }
        }
        // multiset: removing the inserted entry recovers the old store
        broadcast use vstd::seq_lib::group_to_multiset_ensures;

        assert(s1.remove(pp) =~= s0);
        assert(0 <= pp < s1.len() && s1[pp] == x@);
        assert(s1.to_multiset().remove(x@) == s0.to_multiset());
        assert(s1.to_multiset().contains(x@));
        assert(s1.to_multiset() =~= s0.to_multiset().insert(x@));
    }
}

/// Sorts a vector of 32-byte strings into non-decreasing lexicographic order.
fn sort_byte_strings(v: &Vec<Vec<u8>>) -> (r: Vec<Vec<u8>>)
    requires
        uniform_len(views(v@), 32),
    ensures
        sorted(views(r@)),
        uniform_len(views(r@), 32),
        views(r@).to_multiset() == views(v@).to_multiset(),
{
    let ghost vs = views(v@);
    let mut r: Vec<Vec<u8>> = Vec::new();
    proof {
        broadcast use vstd::seq_lib::group_to_multiset_ensures;
        broadcast use vstd::multiset::group_multiset_axioms;

        assert(views(r@) =~= vs.subrange(0, 0));
    }
    let mut idx: usize = 0;
    while idx < v.len()
        invariant
            idx <= vs.len(),
            vs == views(v@),
            uniform_len(vs, 32),
            sorted(views(r@)),
            uniform_len(views(r@), 32),
            views(r@).to_multiset() == vs.subrange(0, idx as int).to_multiset(),
        decreases vs.len() - idx,
    {
        proof {
            assert(vs[idx as int].len() == 32);
        }
        let x = copy_bytes(&v[idx]);
        proof {
            assert(x@ == vs[idx as int]);
        }
        insert_sorted(&mut r, x);
        idx = idx + 1;
        proof {
            broadcast use vstd::seq_lib::group_to_multiset_ensures;

            let pre = vs.subrange(0, idx - 1);
            let post = vs.subrange(0, idx as int);
            assert(post =~= pre.push(vs[idx - 1]));
            assert(post.to_multiset() =~= pre.to_multiset().insert(vs[idx - 1]));
        }
    }
    proof {
        assert(vs.subrange(0, idx as int) =~= vs);
    }
    r
}

/// Index of the first entry of the sorted `v` that is not strictly below `s`.
fn find_split_index(v: &Vec<Vec<u8>>, s: &Vec<u8>) -> (i: usize)
    requires
        sorted(views(v@)),
        uniform_len(views(v@), 32),
        s@.len() == 32,
    ensures
        i <= v@.len(),
        forall|j: int| 0 <= j < i ==> lex_lt(#[trigger] views(v@)[j], s@),
        forall|j: int| i <= j < v@.len() ==> !lex_lt(#[trigger] views(v@)[j], s@),
{
    let ghost vs = views(v@);
    let mut lo: usize = 0;
    let mut hi: usize = v.len();
    while lo < hi
        invariant
            lo <= hi <= vs.len(),
            vs == views(v@),
            sorted(vs),
            uniform_len(vs, 32),
            s@.len() == 32,
            forall|j: int| 0 <= j < lo ==> lex_lt(#[trigger] vs[j], s@),
            forall|j: int| hi <= j < vs.len() ==> !lex_lt(#[trigger] vs[j], s@),
        decreases hi - lo,
    {
        let mid = lo + (hi - lo) / 2;
        proof {
            assert(lo <= mid < hi);
            assert(vs[mid as int].len() == 32);
        }
        if lex_lt_bytes(&v[mid], s) {
            proof {
                // everything at or before mid is below the pivot, by sortedness
                assert forall|j: int| 0 <= j < mid + 1 implies lex_lt(#[trigger] vs[j], s@) by {
                    if j < mid {
                        assert(lex_le(vs[j], vs[mid as int]));
                        if vs[j] == vs[mid as int] {
                        } else {
                            lemma_lex_trans(vs[j], vs[mid as int], s@);
                        }
                    }
                }
            }
            lo = mid + 1;
        } else {
            proof {
                // everything at or after mid is at or above the pivot
                assert forall|j: int| mid <= j < vs.len() implies !lex_lt(#[trigger] vs[j], s@) by {
                    if lex_lt(vs[j], s@) && j > mid {
                        assert(lex_le(vs[mid as int], vs[j]));
                        if vs[mid as int] == vs[j] {
                        } else {
                            lemma_lex_trans(vs[mid as int], vs[j], s@);
                        }
                    }
                }
            }
            hi = mid;
        }
    }
    lo
}

/// Copies the entries of `v` with indices in `[from, to)`.
fn copy_range(v: &Vec<Vec<u8>>, from: usize, to: usize) -> (r: Vec<Vec<u8>>)
    requires
        from <= to <= v@.len(),
    ensures
        views(r@) == views(v@).subrange(from as int, to as int),
{
    let mut r: Vec<Vec<u8>> = Vec::new();
    let mut j: usize = from;
    while j < to
        invariant
            from <= j <= to <= v@.len(),
            views(r@) == views(v@).subrange(from as int, j as int),
        decreases to - j,
    {
        let ghost r_before = r@;
        let elem = copy_bytes(&v[j]);
        proof {
            assert(elem@ == views(v@)[j as int]);
        }
        r.push(elem);
        j = j + 1;
        proof {
            assert(views(r@) =~= views(r_before).push(elem@));
            assert(views(r_before).push(elem@) =~= views(v@).subrange(from as int, j as int));
        }
    }
    r
}

/// Copies a vector of byte strings.
pub fn copy_byte_strings(v: &Vec<Vec<u8>>) -> (r: Vec<Vec<u8>>)
    ensures
        views(r@) == views(v@),
{
    let r = copy_range(v, 0, v.len());
    proof {
        assert(views(v@).subrange(0, v@.len() as int) =~= views(v@));
    }
    r
}

/// A sorted sequence is strictly sorted exactly when it has no duplicates.
pub proof fn lemma_sorted_strict_iff_nodup(s: Seq<Seq<u8>>)
    requires
        sorted(s),
    ensures
        strictly_sorted(s) <==> s.no_duplicates(),
{
    if strictly_sorted(s) {
        assert forall|i: int, j: int|
            0 <= i < s.len() && 0 <= j < s.len() && i != j implies s[i] != s[j] by {
            if i < j {
                assert(lex_lt(s[i], s[j]));
                crate::order::lemma_lex_asym(s[i], s[j]);
                crate::order::lemma_lex_irrefl(s[i]);
            } else {
                assert(lex_lt(s[j], s[i]));
                crate::order::lemma_lex_irrefl(s[i]);
            }
        }
    }
    if s.no_duplicates() {
        assert forall|i: int, j: int| 0 <= i < j < s.len() implies lex_lt(
            #[trigger] s[i],
            #[trigger] s[j],
        ) by {
            assert(lex_le(s[i], s[j]));
            assert(s[i] != s[j]);
        }
    }
}

/// Two sequences holding the same multiset of keys hold the same set of keys:
/// the root hash, which is a function of that set, does not depend on the
/// order keys were supplied in.
pub proof fn lemma_same_multiset_same_set(a: Seq<Seq<u8>>, b: Seq<Seq<u8>>)
    requires
        a.to_multiset() == b.to_multiset(),
    ensures
        a.to_set() == b.to_set(),
{
    broadcast use vstd::seq_lib::group_to_multiset_ensures;

    assert forall|k: Seq<u8>| a.to_set().contains(k) implies b.to_set().contains(k) by {
        assert(a.contains(k));
        assert(a.to_multiset().count(k) > 0);
        assert(b.contains(k));
    }
    assert forall|k: Seq<u8>| b.to_set().contains(k) implies a.to_set().contains(k) by {
        assert(b.contains(k));
        assert(b.to_multiset().count(k) > 0);
        assert(a.contains(k));
    }
    assert(a.to_set() =~= b.to_set());
}

/// Freedom from duplicates carries across a permutation.
pub proof fn lemma_same_multiset_nodup(a: Seq<Seq<u8>>, b: Seq<Seq<u8>>)
    requires
        a.to_multiset() == b.to_multiset(),
    ensures
        a.no_duplicates() <==> b.no_duplicates(),
{
    if a.no_duplicates() {
        a.lemma_multiset_has_no_duplicates();
        b.lemma_multiset_has_no_duplicates_conv();
    }
    if b.no_duplicates() {
        b.lemma_multiset_has_no_duplicates();
        a.lemma_multiset_has_no_duplicates_conv();
    }
}

/// The sorted sequence and the input sequence have equal lengths.
pub proof fn lemma_same_multiset_len(a: Seq<Seq<u8>>, b: Seq<Seq<u8>>)
    requires
        a.to_multiset() == b.to_multiset(),
    ensures
        a.len() == b.len(),
{
    broadcast use vstd::seq_lib::group_to_multiset_ensures;

    assert(a.len() == a.to_multiset().len());
    assert(b.len() == b.to_multiset().len());
}

/// The sorted set of keys currently marked "set" in the tree.
pub struct D {
    d: Vec<Vec<u8>>,
}

/// A sorted batch of keys to apply in one `update`.
pub struct Key {
    keys: Vec<Vec<u8>>,
}

impl View for D {
    type V = Seq<Seq<u8>>;

    closed spec fn view(&self) -> Seq<Seq<u8>> {
        views(self.d@)
    }
}

impl View for Key {
    type V = Seq<Seq<u8>>;

    closed spec fn view(&self) -> Seq<Seq<u8>> {
        views(self.keys@)
    }
}

impl D {
    /// Sorted, and every key exactly 32 bytes.
    pub open spec fn wf(&self) -> bool {
        sorted(self@) && uniform_len(self@, 32)
    }

    /// Builds a key set by sorting `d`; the multiset of keys is kept.
    pub fn from_vec(d: Vec<Vec<u8>>) -> (r: D)
        requires
            uniform_len(views(d@), 32),
        ensures
            r.wf(),
            r@.to_multiset() == views(d@).to_multiset(),
    {
        D { d: sort_byte_strings(&d) }
    }

    /// Number of keys.
    pub fn len(&self) -> (n: usize)
        ensures
            n == self@.len(),
    {
        self.d.len()
    }

    /// Splits into the keys strictly below `s` and the keys at or above `s`.
    pub fn split(&self, s: &Vec<u8>) -> (lr: (D, D))
        requires
            self.wf(),
            s@.len() == 32,
        ensures
            lr.0.wf(),
            lr.1.wf(),
            lr.0@ == self@.subrange(0, lr.0@.len() as int),
            lr.1@ == self@.subrange(lr.0@.len() as int, self@.len() as int),
            lr.0@.len() + lr.1@.len() == self@.len(),
            forall|j: int| 0 <= j < lr.0@.len() ==> lex_lt(#[trigger] lr.0@[j], s@),
            forall|j: int| 0 <= j < lr.1@.len() ==> !lex_lt(#[trigger] lr.1@[j], s@),
    {
        let i = find_split_index(&self.d, s);
        let left = copy_range(&self.d, 0, i);
        let right = copy_range(&self.d, i, self.d.len());
        (D { d: left }, D { d: right })
    }
}

impl Key {
    /// Sorted, and every key exactly 32 bytes.
    pub open spec fn wf(&self) -> bool {
        sorted(self@) && uniform_len(self@, 32)
    }

    /// Builds a mutation batch by sorting `keys`; the multiset of keys is kept.
    pub fn from_vec(keys: Vec<Vec<u8>>) -> (r: Key)
        requires
            uniform_len(views(keys@), 32),
        ensures
            r.wf(),
            r@.to_multiset() == views(keys@).to_multiset(),
    {
        Key { keys: sort_byte_strings(&keys) }
    }

    /// Number of keys.
    pub fn len(&self) -> (n: usize)
        ensures
            n == self@.len(),
    {
        self.keys.len()
    }

    /// Splits into the keys strictly below `s` and the keys at or above `s`.
    pub(crate) fn split(&self, s: &Vec<u8>) -> (lr: (Key, Key))
        requires
            self.wf(),
            s@.len() == 32,
        ensures
            lr.0.wf(),
            lr.1.wf(),
            lr.0@ == self@.subrange(0, lr.0@.len() as int),
            lr.1@ == self@.subrange(lr.0@.len() as int, self@.len() as int),
            lr.0@.len() + lr.1@.len() == self@.len(),
            forall|j: int| 0 <= j < lr.0@.len() ==> lex_lt(#[trigger] lr.0@[j], s@),
            forall|j: int| 0 <= j < lr.1@.len() ==> !lex_lt(#[trigger] lr.1@[j], s@),
    {
        let i = find_split_index(&self.keys, s);
        let left = copy_range(&self.keys, 0, i);
        let right = copy_range(&self.keys, i, self.keys.len());
        (Key { keys: left }, Key { keys: right })
    }
}

/// Checks that a sequence of keys is strictly sorted with 32-byte entries:
/// the shape `root_hash` and `update` demand of their inputs.
pub fn check_strictly_sorted(v: &Vec<Vec<u8>>) -> (r: bool)
    ensures
        r == (strictly_sorted(views(v@)) && uniform_len(views(v@), 32)),
{
    let ghost vs = views(v@);
    let mut j: usize = 0;
    while j < v.len()
        invariant
            j <= vs.len(),
            vs == views(v@),
            forall|k: int| 0 <= k < j ==> (#[trigger] vs[k]).len() == 32,
        decreases vs.len() - j,
    {
        if v[j].len() != 32 {
            proof {
                assert(vs[j as int].len() != 32);
            }
            return false;
        }
        j = j + 1;
    }
    assert(uniform_len(vs, 32));
    if v.len() == 0 {
        return true;
    }
    let mut i: usize = 0;
    while i < v.len() - 1
        invariant
            vs.len() >= 1,
            i <= vs.len() - 1,
            vs == views(v@),
            uniform_len(vs, 32),
            forall|k: int| 0 <= k < i ==> lex_lt(#[trigger] vs[k], vs[k + 1]),
        decreases vs.len() - i,
    {
        proof {
            assert(vs[i as int].len() == 32);
            assert(vs[i as int + 1].len() == 32);
        }
        if !lex_lt_bytes(&v[i], &v[i + 1]) {
            proof {
                assert(!lex_lt(vs[i as int], vs[i as int + 1]));
            }
            return false;
        }
        i = i + 1;
    }
    proof {
        assert forall|a: int, b: int| 0 <= a < b < vs.len() implies lex_lt(
            #[trigger] vs[a],
            #[trigger] vs[b],
        ) by {
            lemma_chain_lt(vs, a, b);
        }
    }
    true
}

/// `D` wrapper for [`check_strictly_sorted`].
impl D {
    /// True exactly when this key set is strictly sorted with 32-byte keys.
    pub fn is_strict(&self) -> (r: bool)
        ensures
            r == (strictly_sorted(self@) && uniform_len(self@, 32)),
    {
        check_strictly_sorted(&self.d)
    }
}

impl Key {
    /// True exactly when this batch is strictly sorted with 32-byte keys.
    pub fn is_strict(&self) -> (r: bool)
        ensures
            r == (strictly_sorted(self@) && uniform_len(self@, 32)),
    {
        check_strictly_sorted(&self.keys)
    }
}

} // verus!
