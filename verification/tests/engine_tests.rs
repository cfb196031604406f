use pnum::countmap::CountMap;
use pnum::engine::{count_tokens, count_tokens_partitioned};
use pnum::filter::FilterSpec;
use pnum::sort::{entry_precedes, sorted_entries, str_le, SortKey};

fn strings(raw: &[&str]) -> Vec<String> {
    raw.iter().map(|s| s.to_string()).collect()
}

#[test]
fn uniform_tokens_yield_one_key_with_the_full_count() {
    let tokens = strings(&["rs", "rs", "rs", "rs", "rs"]);
    let filter = FilterSpec::new(&vec![], &vec![]);
    let m = count_tokens(&tokens, &filter);
    assert_eq!(m.get("rs"), 5);
    assert_eq!(m.get("toml"), 0);
    assert_eq!(m.entries().len(), 1);
}

#[test]
fn counting_normalizes_tokens_before_keying() {
    let tokens = strings(&["rs", ".RS", " Rs ", "TOML"]);
    let filter = FilterSpec::new(&vec![], &vec![]);
    let m = count_tokens(&tokens, &filter);
    assert_eq!(m.get("rs"), 3);
    assert_eq!(m.get("toml"), 1);
    assert_eq!(m.entries().len(), 2);
}

#[test]
fn partition_counts_agree_for_one_two_and_eight_workers() {
    let tokens = strings(&[
        "rs", "toml", "rs", "md", "rs", "toml", "lock", "rs", "md", "rs", "c", "h", "c",
    ]);
    let filter = FilterSpec::new(&vec![], &vec![]);
    let sequential = count_tokens(&tokens, &filter);
    for workers in [1, 2, 8, 100] {
        let split = count_tokens_partitioned(&tokens, &filter, workers);
        assert_eq!(split.entries().len(), sequential.entries().len());
        for (key, count) in sequential.entries() {
            assert_eq!(split.get(key.as_str()), *count);
        }
    }
}

#[test]
fn exclusion_wins_over_inclusion() {
    let tokens = strings(&["rs", "toml", "rs"]);
    let filter = FilterSpec::new(&strings(&["rs", "toml"]), &strings(&["rs"]));
    let m = count_tokens(&tokens, &filter);
    assert_eq!(m.get("rs"), 0);
    assert_eq!(m.get("toml"), 1);
    assert_eq!(m.entries().len(), 1);
}

#[test]
fn filter_lists_are_normalized_like_tokens() {
    let tokens = strings(&["rs", "toml"]);
    let filter = FilterSpec::new(&strings(&[" .TOML "]), &vec![]);
    let m = count_tokens(&tokens, &filter);
    assert_eq!(m.get("toml"), 1);
    assert_eq!(m.get("rs"), 0);
}

#[test]
fn merge_sums_counts_pointwise() {
    let filter = FilterSpec::new(&vec![], &vec![]);
    let mut a = count_tokens(&strings(&["rs", "rs", "md"]), &filter);
    let b = count_tokens(&strings(&["rs", "toml"]), &filter);
    a.merge(&b);
    assert_eq!(a.get("rs"), 3);
    assert_eq!(a.get("md"), 1);
    assert_eq!(a.get("toml"), 1);
}

#[test]
fn increment_creates_and_bumps_entries() {
    let mut m = CountMap::new();
    assert!(m.is_empty());
    m.increment("rs".to_string());
    m.increment("rs".to_string());
    m.increment("toml".to_string());
    assert!(!m.is_empty());
    assert_eq!(m.get("rs"), 2);
    assert_eq!(m.get("toml"), 1);
    assert_eq!(m.get("absent"), 0);
}

#[test]
fn sorted_entries_orders_by_name_or_by_descending_count() {
    let tokens = strings(&["toml", "rs", "rs", "md", "rs", "toml"]);
    let filter = FilterSpec::new(&vec![], &vec![]);
    let m = count_tokens(&tokens, &filter);
    let by_name = sorted_entries(&m, SortKey::Name);
    let names: Vec<&str> = by_name.iter().map(|(e, _)| e.as_str()).collect();
    assert_eq!(names, vec!["md", "rs", "toml"]);
    let by_count = sorted_entries(&m, SortKey::Count);
    let counts: Vec<u64> = by_count.iter().map(|(_, c)| *c).collect();
    assert_eq!(counts, vec![3, 2, 1]);
    assert_eq!(by_count[0].0, "rs");
}

#[test]
fn string_order_and_entry_order_follow_the_sort_key() {
    assert!(str_le("md", "rs"));
    assert!(!str_le("rs", "md"));
    assert!(str_le("rs", "rs"));
    assert!(str_le("r", "rs"));
    assert!(!str_le("rs", "r"));
    let a = ("md".to_string(), 2u64);
    let b = ("rs".to_string(), 5u64);
    assert!(entry_precedes(&a, &b, SortKey::Name));
    assert!(!entry_precedes(&b, &a, SortKey::Name));
    assert!(entry_precedes(&b, &a, SortKey::Count));
    assert!(!entry_precedes(&a, &b, SortKey::Count));
}
