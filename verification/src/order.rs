//! Lexicographic (big-endian numeric) order on byte strings of equal length,
//! and sortedness of sequences of byte strings.

use vstd::prelude::*;

verus! {

/// `m` witnesses that `a` is lexicographically below `b`: the two strings
/// agree strictly before position `m` and differ there in `a`'s favour.
pub open spec fn lex_lt_at(a: Seq<u8>, b: Seq<u8>, m: int) -> bool {
    &&& 0 <= m < a.len()
    &&& m < b.len()
    &&& a[m] < b[m]
    &&& forall|i: int| 0 <= i < m ==> a[i] == b[i]
}

/// `a` is strictly below `b` in lexicographic order (for equal-length strings
/// this coincides with big-endian numeric order).
pub open spec fn lex_lt(a: Seq<u8>, b: Seq<u8>) -> bool {
    exists|m: int| lex_lt_at(a, b, m)
}

/// `a` is below or equal to `b`.
pub open spec fn lex_le(a: Seq<u8>, b: Seq<u8>) -> bool {
    lex_lt(a, b) || a == b
}

/// The order is irreflexive.
pub proof fn lemma_lex_irrefl(a: Seq<u8>)
    ensures
        !lex_lt(a, a),
{
    assert forall|m: int| !lex_lt_at(a, a, m) by {}
}

/// The order is asymmetric.
pub proof fn lemma_lex_asym(a: Seq<u8>, b: Seq<u8>)
    requires
        lex_lt(a, b),
    ensures
        !lex_lt(b, a),
{
    let m1 = choose|m: int| lex_lt_at(a, b, m);
    assert forall|m2: int| !lex_lt_at(b, a, m2) by {
        if lex_lt_at(b, a, m2) {
            if m1 < m2 {
                assert(b[m1] == a[m1]);
            } else if m2 < m1 {
                assert(a[m2] == b[m2]);
            }
        }
    }
}

/// The order is transitive.
pub proof fn lemma_lex_trans(a: Seq<u8>, b: Seq<u8>, c: Seq<u8>)
    requires
        lex_lt(a, b),
        lex_lt(b, c),
    ensures
        lex_lt(a, c),
{
    let m1 = choose|m: int| lex_lt_at(a, b, m);
    let m2 = choose|m: int| lex_lt_at(b, c, m);
    if m1 < m2 {
        assert(lex_lt_at(a, c, m1));
    } else if m2 < m1 {
        assert(lex_lt_at(a, c, m2));
    } else {
        assert(lex_lt_at(a, c, m1));
    }
}

/// Equal-length strings that are not ordered either way are equal.
pub proof fn lemma_lex_connex(a: Seq<u8>, b: Seq<u8>)
    requires
        a.len() == b.len(),
        !lex_lt(a, b),
        !lex_lt(b, a),
    ensures
        a == b,
    decreases a.len(),
{
    if a.len() == 0 {
        assert(a =~= b);
    } else if a[0] < b[0] {
        assert(lex_lt_at(a, b, 0));
    } else if b[0] < a[0] {
        assert(lex_lt_at(b, a, 0));
    } else {
        let a1 = a.skip(1);
        let b1 = b.skip(1);
        assert forall|m: int| !lex_lt_at(a1, b1, m) by {
            if lex_lt_at(a1, b1, m) {
                assert forall|i: int| 0 <= i < m + 1 implies a[i] == b[i] by {
                    if 0 < i {
                        assert(a1[i - 1] == b1[i - 1]);
                    }
                }
                assert(a[m + 1] == a1[m]);
                assert(lex_lt_at(a, b, m + 1));
            }
        }
        assert forall|m: int| !lex_lt_at(b1, a1, m) by {
            if lex_lt_at(b1, a1, m) {
                assert forall|i: int| 0 <= i < m + 1 implies b[i] == a[i] by {
                    if 0 < i {
                        assert(b1[i - 1] == a1[i - 1]);
                    }
                }
                assert(b[m + 1] == b1[m]);
                assert(lex_lt_at(b, a, m + 1));
            }
        }
        lemma_lex_connex(a1, b1);
        assert forall|i: int| 0 <= i < a.len() implies a[i] == b[i] by {
            if 0 < i {
                assert(a1[i - 1] == b1[i - 1]);
            }
        }
        assert(a =~= b);
    }
}

/// Decides the strict order on two equal-length byte strings.
pub fn lex_lt_bytes(a: &Vec<u8>, b: &Vec<u8>) -> (r: bool)
    requires
        a@.len() == b@.len(),
    ensures
        r == lex_lt(a@, b@),
{
    let mut i: usize = 0;
    while i < a.len()
        invariant
            a@.len() == b@.len(),
            i <= a@.len(),
            forall|k: int| 0 <= k < i ==> a@[k] == b@[k],
        decreases a@.len() - i,
    {
        let x = a[i];
        let y = b[i];
        if x < y {
            proof {
                assert(lex_lt_at(a@, b@, i as int));
            }
            return true;
        }
        if y < x {
            proof {
                assert forall|m: int| !lex_lt_at(a@, b@, m) by {
                    if lex_lt_at(a@, b@, m) {
                        if m < i {
                            assert(a@[m] == b@[m]);
                        } else if m > i {
                            assert(a@[i as int] == b@[i as int]);
                        }
                    }
                }
            }
            return false;
        }
        i = i + 1;
    }
    proof {
        assert forall|m: int| !lex_lt_at(a@, b@, m) by {
            if lex_lt_at(a@, b@, m) {
                assert(a@[m] == b@[m]);
            }
        }
    }
    false
}

/// Every pair of entries of `s` is in non-decreasing order.
pub open spec fn sorted(s: Seq<Seq<u8>>) -> bool {
    forall|i: int, j: int| 0 <= i < j < s.len() ==> lex_le(#[trigger] s[i], #[trigger] s[j])
}

/// Every pair of entries of `s` is in strictly increasing order; in
/// particular the entries are distinct.
pub open spec fn strictly_sorted(s: Seq<Seq<u8>>) -> bool {
    forall|i: int, j: int| 0 <= i < j < s.len() ==> lex_lt(#[trigger] s[i], #[trigger] s[j])
}

/// Entries all have the same length `n`.
pub open spec fn uniform_len(s: Seq<Seq<u8>>, n: int) -> bool {
    forall|i: int| 0 <= i < s.len() ==> (#[trigger] s[i]).len() == n
}

} // verus!
