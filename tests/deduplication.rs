use minhash_dedup::dedup::{record_signature, Deduplicator, NUM_BANDS, NUM_PERM, SEED};

fn offer_text(d: &mut Deduplicator, text: &str) -> Option<usize> {
    let s = record_signature(text, NUM_PERM, SEED);
    d.offer(&s)
}

#[test]
fn identical_contents_keep_one_record() {
    let mut d = Deduplicator::new(NUM_PERM, NUM_BANDS);
    assert_eq!(offer_text(&mut d, "x = 1"), Some(0));
    assert_eq!(offer_text(&mut d, "x = 1"), None);
    assert_eq!(d.accepted_count(), 1);
}

#[test]
fn disjoint_vocabularies_keep_both_records() {
    let mut d = Deduplicator::new(NUM_PERM, NUM_BANDS);
    assert_eq!(offer_text(&mut d, "fn main() { println!(\"hi\"); }"), Some(0));
    assert_eq!(offer_text(&mut d, "def f(x): return x * 2"), Some(1));
    assert_eq!(d.accepted_count(), 2);
}

#[test]
fn keys_are_consecutive_from_zero() {
    let mut d = Deduplicator::new(NUM_PERM, NUM_BANDS);
    let texts = ["alpha one", "beta two", "alpha one", "gamma three", "delta four"];
    let keys: Vec<usize> = texts.iter().filter_map(|t| offer_text(&mut d, t)).collect();
    assert_eq!(keys, vec![0, 1, 2, 3]);
    assert_eq!(d.accepted_count(), 4);
}

#[test]
fn case_only_differences_are_duplicates() {
    let mut d = Deduplicator::new(NUM_PERM, NUM_BANDS);
    assert_eq!(offer_text(&mut d, "Hello There"), Some(0));
    assert_eq!(offer_text(&mut d, "hello there"), None);
}

#[test]
fn malformed_line_is_skipped() {
    let lines = [
        "{\"filename\":\"a.py\",\"contents\":\"x = 1\"}",
        "{\"filename\":\"b.py\",\"contents\":",
    ];
    let mut d = Deduplicator::new(NUM_PERM, NUM_BANDS);
    let mut kept: Vec<String> = Vec::new();
    for line in lines {
        for value in serde_json::Deserializer::from_str(line).into_iter::<serde_json::Value>() {
            let value = match value {
                Ok(v) => v,
                Err(_) => continue,
            };
            let contents = match value.get("contents").and_then(|c| c.as_str()) {
                Some(c) => c.to_string(),
                None => continue,
            };
            if offer_text(&mut d, &contents).is_some() {
                kept.push(contents);
            }
        }
    }
    assert_eq!(kept, vec!["x = 1".to_string()]);
}
