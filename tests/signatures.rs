use minhash_dedup::dedup::record_signature;
use minhash_dedup::minhash::{permute_hash, RMinHash};

#[test]
fn permute_hash_keeps_upper_half() {
    assert_eq!(permute_hash(0x1_0000_0000, 1, 0), 1);
    assert_eq!(permute_hash(0x1_0000_0000, 3, 5), 3);
    assert_eq!(permute_hash(7, 0, 0xABCD_0000_1234), 0xABCD);
}

#[test]
fn permute_hash_wraps_modulo_two_to_the_64() {
    assert_eq!(permute_hash(2, u64::MAX, 0), 0xFFFF_FFFF);
    assert_eq!(permute_hash(1, u64::MAX, 2), 0);
}

#[test]
fn fresh_signature_is_all_maximum() {
    let m = RMinHash::new(256, 0);
    assert_eq!(m.get_num_perm(), 256);
    assert_eq!(m.digest(), vec![u32::MAX; 256]);
}

#[test]
fn update_lowers_slots() {
    let mut m = RMinHash::new(64, 0);
    m.update(vec!["hello"]);
    assert_eq!(m.digest().len(), 64);
    assert!(m.digest().iter().any(|&v| v < u32::MAX));
}

#[test]
fn same_seed_same_family() {
    let mut a = RMinHash::new(32, 7);
    let mut b = RMinHash::new(32, 7);
    a.update(vec!["x", "y"]);
    b.update(vec!["x", "y"]);
    assert_eq!(a.digest(), b.digest());
}

#[test]
fn different_seeds_give_different_families() {
    let mut a = RMinHash::new(32, 0);
    let mut b = RMinHash::new(32, 1);
    a.update(vec!["x", "y"]);
    b.update(vec!["x", "y"]);
    assert_ne!(a.digest(), b.digest());
}

#[test]
fn self_agreement_is_full() {
    let mut a = RMinHash::new(128, 0);
    a.update(vec!["the", "quick", "fox"]);
    assert_eq!(a.equal_count(&a), 128);
    let jaccard = a.equal_count(&a) as f64 / a.get_num_perm() as f64;
    assert_eq!(jaccard, 1.0);
}

#[test]
fn agreement_stays_in_range() {
    let mut a = RMinHash::new(128, 0);
    let mut b = RMinHash::new(128, 0);
    a.update(vec!["the", "quick", "fox"]);
    b.update(vec!["a", "slow", "dog"]);
    let count = a.equal_count(&b);
    assert!(count <= 128);
    let jaccard = count as f64 / 128.0;
    assert!((0.0..=1.0).contains(&jaccard));
    assert!(count < 128);
}

#[test]
fn token_order_does_not_matter() {
    let mut a = RMinHash::new(256, 0);
    let mut b = RMinHash::new(256, 0);
    a.update(vec!["a", "b"]);
    b.update(vec!["b", "a"]);
    assert_eq!(a.digest(), b.digest());
}

#[test]
fn repeated_tokens_do_not_matter() {
    let mut a = RMinHash::new(256, 0);
    let mut b = RMinHash::new(256, 0);
    a.update(vec!["a", "b", "a", "a"]);
    b.update(vec!["b", "a"]);
    assert_eq!(a.digest(), b.digest());
}

#[test]
fn different_tokens_give_different_digests() {
    let mut a = RMinHash::new(256, 0);
    let mut b = RMinHash::new(256, 0);
    a.update(vec!["alpha"]);
    b.update(vec!["beta"]);
    assert_ne!(a.digest(), b.digest());
}

#[test]
fn record_signature_folds_case() {
    let a = record_signature("Hello World", 256, 0);
    let b = record_signature("hello world", 256, 0);
    assert_eq!(a.digest(), b.digest());
    let c = record_signature("goodbye moon", 256, 0);
    assert_ne!(a.digest(), c.digest());
}

#[test]
fn record_signature_splits_on_single_spaces() {
    let a = record_signature("x = 1", 256, 0);
    let mut b = RMinHash::new(256, 0);
    b.update(vec!["x", "=", "1"]);
    assert_eq!(a.digest(), b.digest());
    let mut whole = RMinHash::new(256, 0);
    whole.update(vec!["x = 1"]);
    assert_ne!(a.digest(), whole.digest());
}

#[test]
fn consecutive_spaces_give_empty_tokens() {
    let a = record_signature("a  b", 256, 0);
    let mut b = RMinHash::new(256, 0);
    b.update(vec!["a", "", "b"]);
    assert_eq!(a.digest(), b.digest());
    let c = record_signature("a b", 256, 0);
    assert_ne!(a.digest(), c.digest());
}
