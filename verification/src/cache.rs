//! Caches of interior-node hashes, keyed by (height, base): the trivial cache
//! that retains nothing, and the branch cache that retains exactly the
//! interior nodes both of whose children hold real data.

use vstd::prelude::*;

use crate::bits::{bytes_equal, copy_bytes};

verus! {

/// What the engine asks of a cache of interior hashes. `contents()` is the
/// mathematical map of retained entries and `retains` is the cache's storage
/// rule: on `hash_cache` the offered interior hash is recorded under the
/// offered node exactly when `retains` accepts the two child hashes, and the
/// node's entry is dropped otherwise. Whatever a cache claims to hold it must
/// hand back unchanged.
pub trait Cache: Sized {
    /// The retained entries, keyed by (height, base).
    spec fn contents(&self) -> Map<(u64, Seq<u8>), Seq<u8>>;

    /// The storage rule: whether a node whose freshly computed child hashes
    /// are `left` and `right` is worth retaining, `dh` being the default hash
    /// of the level below the node.
    spec fn retains(left: Seq<u8>, right: Seq<u8>, dh: Seq<u8>) -> bool;

    /// Whether an entry for the node `(height, base)` is retained.
    fn contains(&self, height: u64, base: &Vec<u8>) -> (r: bool)
        ensures
            r == self.contents().dom().contains((height, base@)),
    ;

    /// The retained entry for `(height, base)`.
    fn get(&self, height: u64, base: &Vec<u8>) -> (r: Vec<u8>)
        requires
            self.contents().dom().contains((height, base@)),
        ensures
            r@ == self.contents()[(height, base@)],
    ;

    /// Observes the interior hash just computed for `(height, base)` from the
    /// child hashes `left` and `right`, and either retains it or drops the
    /// node's entry.
    fn hash_cache(
        &mut self,
        left: &Vec<u8>,
        right: &Vec<u8>,
        height: u64,
        base: &Vec<u8>,
        split: &Vec<u8>,
        interior_hash: &Vec<u8>,
        default_hashes: &Vec<Vec<u8>>,
    )
        requires
            1 <= height,
            height <= default_hashes@.len(),
        ensures
            final(self).contents() == if Self::retains(
                left@,
                right@,
                default_hashes@[height as int - 1]@,
            ) {
                old(self).contents().insert((height, base@), interior_hash@)
            } else {
                old(self).contents().remove((height, base@))
            },
    ;

    /// Number of retained entries.
    fn entries(&self) -> (n: usize)
        ensures
            n == self.contents().dom().len(),
    ;
}

/// A cache that retains nothing.
pub struct CacheNothing;

impl Cache for CacheNothing {
    open spec fn contents(&self) -> Map<(u64, Seq<u8>), Seq<u8>> {
        Map::empty()
    }

    open spec fn retains(left: Seq<u8>, right: Seq<u8>, dh: Seq<u8>) -> bool {
        false
    }

    fn contains(&self, height: u64, base: &Vec<u8>) -> (r: bool) {
        false
    }

    fn get(&self, height: u64, base: &Vec<u8>) -> (r: Vec<u8>) {
        proof {
            assert(false);
        }
        Vec::new()
    }

    fn hash_cache(
        &mut self,
        left: &Vec<u8>,
        right: &Vec<u8>,
        height: u64,
        base: &Vec<u8>,
        split: &Vec<u8>,
        interior_hash: &Vec<u8>,
        default_hashes: &Vec<Vec<u8>>,
    ) {
        proof {
            assert(self.contents() =~= old(self).contents().remove((height, base@)));
        }
    }

    fn entries(&self) -> (n: usize) {
        proof {
            assert(self.contents().dom() =~= Set::<(u64, Seq<u8>)>::empty());
        }
        0
    }
}

/// The node a stored entry is keyed by.
pub open spec fn entry_key(e: (u64, Vec<u8>, Vec<u8>)) -> (u64, Seq<u8>) {
    (e.0, e.1@)
}

/// Some stored entry is keyed by `k`.
pub open spec fn has_key(s: Seq<(u64, Vec<u8>, Vec<u8>)>, k: (u64, Seq<u8>)) -> bool {
    exists|i: int| 0 <= i < s.len() && entry_key(#[trigger] s[i]) == k
}

/// No two stored entries share a key.
pub open spec fn keys_distinct(s: Seq<(u64, Vec<u8>, Vec<u8>)>) -> bool {
    forall|i: int, j: int|
        0 <= i < j < s.len() ==> entry_key(#[trigger] s[i]) != entry_key(#[trigger] s[j])
}

/// The map held by a store of entries.
pub open spec fn contents_of(s: Seq<(u64, Vec<u8>, Vec<u8>)>) -> Map<(u64, Seq<u8>), Seq<u8>> {
    Map::new(
        |k: (u64, Seq<u8>)| has_key(s, k),
        |k: (u64, Seq<u8>)|
            s[choose|i: int| 0 <= i < s.len() && entry_key(#[trigger] s[i]) == k].2@,
    )
}

/// With distinct keys, the entry at index `i` is what the map holds at its key.
proof fn lemma_contents_at(s: Seq<(u64, Vec<u8>, Vec<u8>)>, i: int)
    requires
        keys_distinct(s),
        0 <= i < s.len(),
    ensures
        contents_of(s).dom().contains(entry_key(s[i])),
        contents_of(s)[entry_key(s[i])] == s[i].2@,
{
    let k = entry_key(s[i]);
    assert(has_key(s, k));
    let w = choose|j: int| 0 <= j < s.len() && entry_key(#[trigger] s[j]) == k;
    if w != i {
        assert(entry_key(s[w]) != entry_key(s[i]));
    }
}

/// A cache that retains an interior node exactly when neither child is the
/// default hash of its level: nodes with an all-empty child are cheap to
/// recompute, so storing them would bloat the cache.
pub struct CacheBranch {
    store: Vec<(u64, Vec<u8>, Vec<u8>)>,
}

impl CacheBranch {
    /// No two stored entries share a (height, base) key.
    #[verifier::type_invariant]
    spec fn inv(&self) -> bool {
        keys_distinct(self.store@)
    }

    /// An empty branch cache.
    pub fn new() -> (r: CacheBranch)
        ensures
            r.contents() == Map::<(u64, Seq<u8>), Seq<u8>>::empty(),
    {
        let r = CacheBranch { store: Vec::new() };
        proof {
            assert forall|k: (u64, Seq<u8>)| !has_key(r.store@, k) by {}
            assert(contents_of(r.store@) =~= Map::<(u64, Seq<u8>), Seq<u8>>::empty());
        }
        r
    }

    /// Index of the entry keyed by `(height, base)`, if one is stored.
    fn find(&self, height: u64, base: &Vec<u8>) -> (r: Option<usize>)
        ensures
            match r {
                Some(i) => i < self.store@.len() && entry_key(self.store@[i as int]) == (
                    height,
                    base@,
                ),
                None => !has_key(self.store@, (height, base@)),
            },
    {
        let mut i: usize = 0;
        while i < self.store.len()
            invariant
                i <= self.store@.len(),
                forall|j: int| 0 <= j < i ==> entry_key(#[trigger] self.store@[j]) != (height, base@),
            decreases self.store@.len() - i,
        {
            let hit = self.store[i].0 == height && bytes_equal(&self.store[i].1, base);
            if hit {
                return Some(i);
            }
            i = i + 1;
        }
        None
    }
}

impl Cache for CacheBranch {
    closed spec fn contents(&self) -> Map<(u64, Seq<u8>), Seq<u8>> {
        contents_of(self.store@)
    }

    open spec fn retains(left: Seq<u8>, right: Seq<u8>, dh: Seq<u8>) -> bool {
        crate::model::retains_both_occupied(left, right, dh)
    }

    fn contains(&self, height: u64, base: &Vec<u8>) -> (r: bool) {
        proof {
            use_type_invariant(self);
        }
        match self.find(height, base) {
            Some(i) => {
                proof {
                    lemma_contents_at(self.store@, i as int);
                }
                true
            },
            None => {
                proof {
                    assert(!contents_of(self.store@).dom().contains((height, base@)));
                }
                false
            },
        }
    }

    fn get(&self, height: u64, base: &Vec<u8>) -> (r: Vec<u8>) {
        proof {
            use_type_invariant(self);
        }
        match self.find(height, base) {
            Some(i) => {
                proof {
                    lemma_contents_at(self.store@, i as int);
                }
                copy_bytes(&self.store[i].2)
            },
            None => {
                proof {
                    assert(!contents_of(self.store@).dom().contains((height, base@)));
                    assert(false);
                }
                Vec::new()
            },
        }
    }

    fn hash_cache(
        &mut self,
        left: &Vec<u8>,
        right: &Vec<u8>,
        height: u64,
        base: &Vec<u8>,
        split: &Vec<u8>,
        interior_hash: &Vec<u8>,
        default_hashes: &Vec<Vec<u8>>,
    ) {
        proof {
            use_type_invariant(&*self);
        }
        let ghost s0 = self.store@;
        let ghost k = (height, base@);
        let table_len = default_hashes.len();
        let dh = &default_hashes[(height - 1) as usize];
        let keep = !bytes_equal(dh, left) && !bytes_equal(dh, right);
        proof {
            assert(((height - 1) as usize) < table_len);
            assert(dh@ == default_hashes@[height as int - 1]@);
            assert(keep == Self::retains(left@, right@, default_hashes@[height as int - 1]@));
        }
        let found = self.find(height, base);
        let mut st: Vec<(u64, Vec<u8>, Vec<u8>)> = Vec::new();
        core::mem::swap(&mut self.store, &mut st);
        if keep {
            let entry = (height, copy_bytes(base), copy_bytes(interior_hash));
            proof {
                assert(entry_key(entry) == k);
            }
            match found {
                Some(i) => {
                    st.set(i, entry);
                    proof {
                        let s1 = st@;
                        assert(s1 == s0.update(i as int, entry));
                        assert forall|a: int, b: int| 0 <= a < b < s1.len() implies entry_key(
                            #[trigger] s1[a],
                        ) != entry_key(#[trigger] s1[b]) by {
                            assert(entry_key(s1[a]) == entry_key(s0[a]));
                            assert(entry_key(s1[b]) == entry_key(s0[b]));
                        }
                        assert(contents_of(s1) =~= contents_of(s0).insert(k, interior_hash@)) by {
                            assert forall|e: (u64, Seq<u8>)| has_key(s1, e) <==> has_key(s0, e) by {
                                assert forall|j: int|
                                    0 <= j < s1.len() implies entry_key(s1[j]) == entry_key(
                                    s0[j],
                                ) by {}
                                if has_key(s1, e) {
                                    let w = choose|j: int|
                                        0 <= j < s1.len() && entry_key(#[trigger] s1[j]) == e;
                                    assert(entry_key(s0[w]) == e);
                                }
                                if has_key(s0, e) {
                                    let w = choose|j: int|
                                        0 <= j < s0.len() && entry_key(#[trigger] s0[j]) == e;
                                    assert(entry_key(s1[w]) == e);
                                }
                            }
                            assert forall|e: (u64, Seq<u8>)|
                                contents_of(s1).dom().contains(e) implies contents_of(s1)[e]
                                == contents_of(s0).insert(k, interior_hash@)[e] by {
                                let w = choose|j: int|
                                    0 <= j < s1.len() && entry_key(#[trigger] s1[j]) == e;
                                lemma_contents_at(s1, w);
                                if e == k {
                                    if w != i {
                                        assert(entry_key(s1[w]) == entry_key(s0[w]));
                                        assert(entry_key(s0[w]) != entry_key(s0[i as int]));
                                    }
                                    assert(w == i);
                                } else {
                                    assert(w != i);
                                    lemma_contents_at(s0, w);
                                }
                            }
                        }
                    }
                },
                None => {
                    st.push(entry);
                    proof {
                        let s1 = st@;
                        assert(s1 == s0.push(entry));
                        assert forall|a: int, b: int| 0 <= a < b < s1.len() implies entry_key(
                            #[trigger] s1[a],
                        ) != entry_key(#[trigger] s1[b]) by {
                            if b < s1.len() - 1 {
                                assert(entry_key(s0[a]) != entry_key(s0[b]));
                            } else {
                                assert(entry_key(s1[a]) == entry_key(s0[a]));
                                assert(!has_key(s0, k));
                            }
                        }
                        assert(contents_of(s1) =~= contents_of(s0).insert(k, interior_hash@)) by {
                            assert forall|e: (u64, Seq<u8>)|
                                has_key(s1, e) <==> (has_key(s0, e) || e == k) by {
                                if has_key(s1, e) {
                                    let w = choose|j: int|
                                        0 <= j < s1.len() && entry_key(#[trigger] s1[j]) == e;
                                    if w < s1.len() - 1 {
                                        assert(entry_key(s0[w]) == e);
                                    }
                                }
                                if has_key(s0, e) {
                                    let w = choose|j: int|
                                        0 <= j < s0.len() && entry_key(#[trigger] s0[j]) == e;
                                    assert(entry_key(s1[w]) == e);
                                }
                                if e == k {
                                    assert(entry_key(s1[s1.len() - 1]) == k);
                                }
                            }
                            assert forall|e: (u64, Seq<u8>)|
                                contents_of(s1).dom().contains(e) implies contents_of(s1)[e]
                                == contents_of(s0).insert(k, interior_hash@)[e] by {
                                let w = choose|j: int|
                                    0 <= j < s1.len() && entry_key(#[trigger] s1[j]) == e;
                                lemma_contents_at(s1, w);
                                if e == k {
                                    if w < s1.len() - 1 {
                                        assert(entry_key(s0[w]) == k);
                                        assert(has_key(s0, k));
                                    }
                                } else {
                                    assert(w < s1.len() - 1);
                                    lemma_contents_at(s0, w);
                                }
                            }
                        }
                    }
                },
            }
        } else {
            match found {
                Some(i) => {
                    st.remove(i);
                    proof {
                        let s1 = st@;
                        assert(s1 == s0.remove(i as int));
                        assert forall|a: int, b: int| 0 <= a < b < s1.len() implies entry_key(
                            #[trigger] s1[a],
                        ) != entry_key(#[trigger] s1[b]) by {
                            let a0: int = if a < i { a } else { a + 1 };
                            let b0: int = if b < i { b } else { b + 1 };
                            assert(s1[a] == s0[a0]);
                            assert(s1[b] == s0[b0]);
                            assert(entry_key(s0[a0]) != entry_key(s0[b0]));
                        }
                        assert(contents_of(s1) =~= contents_of(s0).remove(k)) by {
                            assert forall|e: (u64, Seq<u8>)|
                                has_key(s1, e) <==> (has_key(s0, e) && e != k) by {
                                if has_key(s1, e) {
                                    let w = choose|j: int|
                                        0 <= j < s1.len() && entry_key(#[trigger] s1[j]) == e;
                                    let w0: int = if w < i { w } else { w + 1 };
                                    assert(s1[w] == s0[w0]);
                                    assert(entry_key(s0[w0]) == e);
                                    if e == k {
                                        assert(entry_key(s0[w0]) != entry_key(s0[i as int]));
                                    }
                                }
                                if has_key(s0, e) && e != k {
                                    let w = choose|j: int|
                                        0 <= j < s0.len() && entry_key(#[trigger] s0[j]) == e;
                                    assert(w != i);
                                    let w1: int = if w < i { w } else { w - 1 };
                                    assert(s1[w1] == s0[w]);
                                    assert(entry_key(s1[w1]) == e);
                                }
                            }
                            assert forall|e: (u64, Seq<u8>)|
                                contents_of(s1).dom().contains(e) implies contents_of(s1)[e]
                                == contents_of(s0).remove(k)[e] by {
                                let w = choose|j: int|
                                    0 <= j < s1.len() && entry_key(#[trigger] s1[j]) == e;
                                lemma_contents_at(s1, w);
                                let w0: int = if w < i { w } else { w + 1 };
                                assert(s1[w] == s0[w0]);
                                lemma_contents_at(s0, w0);
                            }
                        }
                    }
                },
                None => {
                    proof {
                        assert(!contents_of(s0).dom().contains(k));
                        assert(contents_of(st@) =~= contents_of(s0).remove(k));
                    }
                },
            }
        }
        core::mem::swap(&mut self.store, &mut st);
    }

    fn entries(&self) -> (n: usize) {
        proof {
            use_type_invariant(self);
            let s = self.store@;
            let keys = s.map_values(|e: (u64, Vec<u8>, Vec<u8>)| entry_key(e));
            assert(contents_of(s).dom() =~= keys.to_set()) by {
                assert forall|e: (u64, Seq<u8>)| has_key(s, e) <==> keys.to_set().contains(e) by {
                    if has_key(s, e) {
                        let w = choose|j: int| 0 <= j < s.len() && entry_key(#[trigger] s[j]) == e;
                        assert(keys[w] == e);
                    }
                    if keys.to_set().contains(e) {
                        let w = choose|j: int| 0 <= j < keys.len() && keys[j] == e;
                        assert(entry_key(s[w]) == e);
                    }
                }
            }
            assert(keys.no_duplicates()) by {
                assert forall|a: int, b: int|
                    0 <= a < keys.len() && 0 <= b < keys.len() && a != b implies keys[a]
                    != keys[b] by {
                    if a < b {
                        assert(entry_key(s[a]) != entry_key(s[b]));
                    } else {
                        assert(entry_key(s[b]) != entry_key(s[a]));
                    }
                }
            }
            keys.unique_seq_to_set();
        }
        self.store.len()
    }
}

} // verus!
