use minhash_dedup::lsh::RMinHashLSH;
use minhash_dedup::minhash::RMinHash;

fn signature(tokens: Vec<&str>) -> RMinHash {
    let mut m = RMinHash::new(256, 0);
    m.update(tokens);
    m
}

#[test]
fn new_index_reports_its_shape() {
    let lsh = RMinHashLSH::new(256, 5);
    assert_eq!(lsh.get_num_perm(), 256);
    assert_eq!(lsh.get_num_bands(), 5);
}

#[test]
fn insert_then_query_returns_key() {
    let mut lsh = RMinHashLSH::new(256, 5);
    let s = signature(vec!["fn", "main", "()"]);
    lsh.insert(42, &s);
    assert!(lsh.query(&s).contains(&42));
}

#[test]
fn query_on_empty_index_is_empty() {
    let lsh = RMinHashLSH::new(256, 5);
    assert_eq!(lsh.query(&signature(vec!["a"])), Vec::<usize>::new());
}

#[test]
fn query_sorts_and_deduplicates() {
    let mut lsh = RMinHashLSH::new(256, 8);
    let s = signature(vec!["same", "tokens"]);
    lsh.insert(9, &s);
    lsh.insert(2, &s);
    lsh.insert(5, &s);
    lsh.insert(2, &s);
    assert_eq!(lsh.query(&s), vec![2, 5, 9]);
}

#[test]
fn any_matches_on_empty_index_is_none() {
    let lsh = RMinHashLSH::new(256, 5);
    assert!(lsh.any_matches(&signature(vec!["a", "b"])).is_none());
    assert!(lsh.any_matches(&RMinHash::new(256, 0)).is_none());
}

#[test]
fn any_matches_finds_identical_signature() {
    let mut lsh = RMinHashLSH::new(256, 5);
    let s = signature(vec!["x", "=", "1"]);
    lsh.insert(0, &s);
    let t = signature(vec!["1", "x", "="]);
    assert_eq!(lsh.any_matches(&t), Some(&vec![0]));
}

#[test]
fn any_matches_ignores_unrelated_signature() {
    let mut lsh = RMinHashLSH::new(256, 5);
    lsh.insert(0, &signature(vec!["alpha", "beta", "gamma"]));
    assert!(lsh.any_matches(&signature(vec!["delta", "epsilon", "zeta"])).is_none());
}

#[test]
fn trailing_slots_are_outside_every_band() {
    let mut lsh = RMinHashLSH::new(10, 3);
    let mut a = RMinHash::new(10, 0);
    a.update(vec!["p"]);
    lsh.insert(3, &a);
    assert_eq!(lsh.query(&a), vec![3]);
    assert_eq!(lsh.any_matches(&a), Some(&vec![3]));
}
