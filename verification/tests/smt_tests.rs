use smt::bits::bytes_equal;
use smt::cache::{Cache, CacheBranch, CacheNothing};
use smt::hashing::{empty_marker, set_marker, EMPTY, SET};
use smt::keys::{check_strictly_sorted, D, Key};
use smt::tree::{apply_update, compute_root, prove_key, SMT};

fn sha(data: &[u8]) -> Vec<u8> {
    ring::digest::digest(&ring::digest::SHA256, data).as_ref().to_vec()
}

fn prefix() -> Vec<u8> {
    vec![0x42u8]
}

/// default_hashes[0..=256], computed independently of the library.
fn default_hashes() -> Vec<Vec<u8>> {
    let mut dh = vec![sha(&prefix())];
    for _ in 1..257 {
        let prev = dh.last().unwrap().clone();
        let mut two = prev.clone();
        two.extend(&prev);
        dh.push(sha(&two));
    }
    dh
}

fn k1() -> Vec<u8> {
    sha(b"abc")
}

fn k2() -> Vec<u8> {
    sha(b"bcde")
}

#[test]
fn empty_tree_root_is_default() {
    let root = compute_root(&prefix(), &Vec::new()).unwrap();
    assert_eq!(root, default_hashes()[256]);
}

#[test]
fn single_insert_matches_root_hash() {
    let smt = SMT::new(prefix());
    let d_empty = D::from_vec(Vec::new());
    let key = Key::from_vec(vec![k1()]);
    let mut c = CacheNothing;
    let update_hash = smt.update(&d_empty, key, &SET.to_vec(), &mut c);
    let d = D::from_vec(vec![k1()]);
    let root_hash = smt.root_hash(&d, &c);
    assert_eq!(update_hash, root_hash);
}

#[test]
fn update_matches_root_hash_two_keys() {
    let smt = SMT::new(prefix());
    let keys = Key::from_vec(vec![k1(), k2()]);
    let d = D::from_vec(vec![k1(), k2()]);
    let mut c = CacheNothing;
    let update_hash = smt.update(&d, keys, &SET.to_vec(), &mut c);
    let root_hash = smt.root_hash(&d, &c);
    assert_eq!(update_hash, root_hash);
}

#[test]
fn branch_cache_agrees_with_no_cache() {
    let smt = SMT::new(prefix());
    let d = D::from_vec(vec![k1(), k2()]);
    let mut plain = CacheNothing;
    let keys_a = Key::from_vec(vec![k1(), k2()]);
    let a = smt.update(&d, keys_a, &SET.to_vec(), &mut plain);
    let mut branch = CacheBranch::new();
    let keys_b = Key::from_vec(vec![k1(), k2()]);
    let b = smt.update(&d, keys_b, &SET.to_vec(), &mut branch);
    assert_eq!(a, b);
    // the warmed branch cache is transparent to root_hash
    let with_cache = smt.root_hash(&d, &branch);
    let without = smt.root_hash(&d, &plain);
    assert_eq!(with_cache, without);
    assert_eq!(with_cache, a);
}

#[test]
fn non_member_proof() {
    let smt = SMT::new(prefix());
    let d = D::from_vec(vec![k1(), k2()]);
    let c = CacheNothing;
    let root = smt.root_hash(&d, &c);
    let t = sha(b"not_member");
    let ap = smt.audit_path(&d, &t, &c);
    assert_eq!(smt.verify_audit_path(&ap, &t, &EMPTY.to_vec(), &root), true);
    assert_eq!(smt.verify_audit_path(&ap, &t, &SET.to_vec(), &root), false);
}

#[test]
fn member_proof() {
    let smt = SMT::new(prefix());
    let d = D::from_vec(vec![k1(), k2()]);
    let c = CacheNothing;
    let root = smt.root_hash(&d, &c);
    let t = k1();
    let ap = smt.audit_path(&d, &t, &c);
    assert_eq!(smt.verify_audit_path(&ap, &t, &EMPTY.to_vec(), &root), false);
    assert_eq!(smt.verify_audit_path(&ap, &t, &SET.to_vec(), &root), true);
}

#[test]
fn verify_rejects_wrong_root() {
    let smt = SMT::new(prefix());
    let d = D::from_vec(vec![k1()]);
    let c = CacheNothing;
    let ap = smt.audit_path(&d, &k1(), &c);
    let wrong_root = vec![0u8; 32];
    assert_eq!(smt.verify_audit_path(&ap, &k1(), &SET.to_vec(), &wrong_root), false);
}

#[test]
fn audit_path_has_depth_entries() {
    let smt = SMT::new(prefix());
    let d = D::from_vec(vec![k1(), k2()]);
    let c = CacheNothing;
    let ap = smt.audit_path(&d, &k1(), &c);
    assert_eq!(ap.len(), 256);
    for entry in &ap {
        assert_eq!(entry.len(), 32);
    }
}

#[test]
fn single_key_audit_path_is_all_defaults() {
    let smt = SMT::new(prefix());
    let d = D::from_vec(vec![k1()]);
    let c = CacheNothing;
    let ap = smt.audit_path(&d, &k1(), &c);
    let dh = default_hashes();
    for j in 0..256 {
        assert_eq!(ap[j], dh[j]);
    }
}

#[test]
fn lowest_bit_neighbours_diverge_at_height_one() {
    let a = k1();
    let mut b = a.clone();
    b[31] ^= 1;
    let smt = SMT::new(prefix());
    let d = D::from_vec(vec![a.clone(), b.clone()]);
    let c = CacheNothing;
    let ap = smt.audit_path(&d, &a, &c);
    // the sibling leaf holds the neighbour key
    let mut leaf_preimage = prefix();
    leaf_preimage.extend(&b);
    assert_eq!(ap[0], sha(&leaf_preimage));
    // above the leaves the two keys share their path: all siblings are empty
    let dh = default_hashes();
    for j in 1..256 {
        assert_eq!(ap[j], dh[j]);
    }
}

#[test]
fn branch_cache_occupancy_top_bit() {
    // two keys that diverge at the very first bit: only the root has two
    // non-default children, so exactly one interior hash is retained
    let mut low = vec![0u8; 32];
    low[31] = 1;
    let mut high = vec![0u8; 32];
    high[0] = 0x80;
    let (_, retained) = apply_update(&prefix(), &Vec::new(), &vec![low, high], &SET.to_vec())
        .unwrap();
    assert_eq!(retained, 1);
    // with a single key no interior node has two non-default children
    let (_, retained_single) = apply_update(&prefix(), &Vec::new(), &vec![k1()], &SET.to_vec())
        .unwrap();
    assert_eq!(retained_single, 0);
}

#[test]
fn single_key_root_matches_byte_level_formula() {
    // climb from the leaf for k, recomputing every preimage by hand:
    // leaf = sha(c || k); at height h the sibling is the default hash of
    // height h - 1, and an interior node with unequal children hashes
    // left || right || base || height as 8 big-endian bytes
    let k = k1();
    let dh = default_hashes();
    let mut leaf_preimage = prefix();
    leaf_preimage.extend(&k);
    let mut cur = sha(&leaf_preimage);
    for h in 1..257u64 {
        let bit_pos = 256 - h;
        let byte = (bit_pos / 8) as usize;
        let bit_is_one = k[byte] & (1u8 << (7 - (bit_pos % 8))) != 0;
        let sibling = dh[(h - 1) as usize].clone();
        let (l, r) = if bit_is_one { (sibling, cur.clone()) } else { (cur.clone(), sibling) };
        let mut base = k.clone();
        // clear the bits at and after bit_pos
        for i in 0..32usize {
            let lo = 8 * i as u64;
            if lo >= bit_pos {
                base[i] = 0;
            } else if lo + 8 > bit_pos {
                base[i] &= 0xffu8 << (8 - (bit_pos - lo));
            }
        }
        let mut preimage = l.clone();
        preimage.extend(&r);
        if l == r {
            cur = sha(&preimage);
        } else {
            preimage.extend(&base);
            preimage.extend(&h.to_be_bytes());
            cur = sha(&preimage);
        }
    }
    let root = compute_root(&prefix(), &vec![k]).unwrap();
    assert_eq!(root, cur);
}

#[test]
fn root_ignores_insertion_order() {
    let forward = compute_root(&prefix(), &vec![k1(), k2()]).unwrap();
    let backward = compute_root(&prefix(), &vec![k2(), k1()]).unwrap();
    assert_eq!(forward, backward);
}

#[test]
fn duplicate_keys_are_rejected() {
    assert!(compute_root(&prefix(), &vec![k1(), k1()]).is_none());
    assert!(apply_update(&prefix(), &Vec::new(), &vec![k1(), k1()], &SET.to_vec()).is_none());
    assert!(apply_update(&prefix(), &Vec::new(), &Vec::new(), &SET.to_vec()).is_none());
}

#[test]
fn update_with_empty_marker_removes_keys() {
    let smt = SMT::new(prefix());
    let d = D::from_vec(vec![k1(), k2()]);
    let batch = Key::from_vec(vec![k2()]);
    let mut c = CacheNothing;
    let removed = smt.update(&d, batch, &EMPTY.to_vec(), &mut c);
    let remaining = D::from_vec(vec![k1()]);
    assert_eq!(removed, smt.root_hash(&remaining, &c));
}

#[test]
fn prove_key_driver_round_trips() {
    let r = prove_key(&prefix(), &vec![k1(), k2()], &k1()).unwrap();
    assert!(r.2);
    assert!(!r.3);
    let t = sha(b"not_member");
    let r2 = prove_key(&prefix(), &vec![k1(), k2()], &t).unwrap();
    assert!(!r2.2);
    assert!(r2.3);
    assert!(prove_key(&prefix(), &vec![k1()], &vec![1u8, 2u8]).is_none());
}

#[test]
fn compute_root_matches_engine() {
    let via_driver = compute_root(&prefix(), &vec![k1(), k2()]).unwrap();
    let smt = SMT::new(prefix());
    let d = D::from_vec(vec![k1(), k2()]);
    let c = CacheNothing;
    assert_eq!(via_driver, smt.root_hash(&d, &c));
}

#[test]
fn bit_utilities() {
    let v = vec![0b1000_0000u8, 0b0000_0001u8];
    assert!(smt::bits::bit_is_set(&v, 0));
    assert!(!smt::bits::bit_is_set(&v, 1));
    assert!(smt::bits::bit_is_set(&v, 15));
    let mut w = vec![0u8, 0u8];
    smt::bits::bit_set(&mut w, 9);
    assert_eq!(w, vec![0u8, 0b0100_0000u8]);
    let split = smt::bits::bit_split(&w, 0);
    assert_eq!(split, vec![0b1000_0000u8, 0b0100_0000u8]);
    // bit_split copies: its input is unchanged
    assert_eq!(w, vec![0u8, 0b0100_0000u8]);
}

#[test]
fn markers_and_byte_equality() {
    assert_eq!(set_marker(), SET.to_vec());
    assert_eq!(empty_marker(), EMPTY.to_vec());
    assert!(bytes_equal(&vec![1u8, 2u8], &vec![1u8, 2u8]));
    assert!(!bytes_equal(&vec![1u8, 2u8], &vec![1u8, 3u8]));
    assert!(!bytes_equal(&vec![1u8], &vec![1u8, 2u8]));
}

#[test]
fn key_sets_sort_and_split() {
    let d = D::from_vec(vec![k2(), k1()]);
    assert!(d.is_strict());
    assert_eq!(d.len(), 2);
    // split at a pivot above both keys
    let (l, r) = d.split(&vec![0xffu8; 32]);
    assert_eq!(l.len(), 2);
    assert_eq!(r.len(), 0);
    let sorted_pair = if k1() < k2() { (k1(), k2()) } else { (k2(), k1()) };
    let (l2, r2) = d.split(&sorted_pair.1);
    assert_eq!(l2.len(), 1);
    assert_eq!(r2.len(), 1);
    assert!(check_strictly_sorted(&vec![sorted_pair.0, sorted_pair.1]));
    assert!(!check_strictly_sorted(&vec![k1(), k1()]));
    assert!(!check_strictly_sorted(&vec![vec![0u8; 31]]));
}

#[test]
fn cache_trait_behaviour() {
    let mut branch = CacheBranch::new();
    assert_eq!(branch.entries(), 0);
    let smt = SMT::new(prefix());
    let keys = Key::from_vec(vec![k1(), k2()]);
    let d = D::from_vec(vec![k1(), k2()]);
    let root = smt.update(&d, keys, &SET.to_vec(), &mut branch);
    assert!(branch.entries() > 0);
    // every retained entry is served back
    assert_eq!(smt.root_hash(&d, &branch), root);
    let nothing = CacheNothing;
    assert_eq!(nothing.entries(), 0);
    assert!(!nothing.contains(256, &vec![0u8; 32]));
}
