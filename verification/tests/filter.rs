use vweditor::distinct::{distinct_result, DistinctCount, DistinctTally, HllSketch, HLL_M};
use vweditor::filter::{apply_filters_lines, filter_and_sort, ColumnFilter};
use vweditor::sort::{SortDir, SortKind, SortSpec};

fn lines(v: &[&str]) -> Vec<String> {
    v.iter().map(|s| s.to_string()).collect()
}

#[test]
fn apply_filters_lines_matches_mmap_path() {
    let lines = lines(&["apple", "banana", "cherry", "apple"]);
    let f = ColumnFilter { contains: String::new(), included: Some(vec!["apple".to_string()]) };
    let matched = apply_filters_lines(&lines, &[(0, f)], b',', 0);
    assert_eq!(matched, vec![0, 3]);
}

#[test]
fn apply_filters_lines_contains_case_insensitive() {
    let lines = lines(&["Apple", "banana", "Pineapple"]);
    let f = ColumnFilter { contains: "APP".to_string(), included: None };
    let matched = apply_filters_lines(&lines, &[(0, f)], b',', 0);
    assert_eq!(matched, vec![0, 2]);
}

#[test]
fn apply_filters_lines_respects_data_start() {
    let lines = lines(&["name", "a", "b", "a"]);
    let f = ColumnFilter { contains: String::new(), included: Some(vec!["a".to_string()]) };
    let matched = apply_filters_lines(&lines, &[(0, f)], b',', 1);
    assert_eq!(matched, vec![1, 3]);
}

#[test]
fn filter_combines_multiple_columns_with_and() {
    let lines = lines(&["A,10", "A,20", "B,10"]);
    let f0 = ColumnFilter { contains: String::new(), included: Some(vec!["A".to_string()]) };
    let f1 = ColumnFilter { contains: "10".to_string(), included: None };
    assert_eq!(apply_filters_lines(&lines, &[(0, f0), (1, f1)], b',', 0), vec![0]);
}

#[test]
fn filter_empty_conditions_match_everything() {
    let lines = lines(&["a", "b", "c"]);
    assert_eq!(apply_filters_lines(&lines, &[], b',', 0), vec![0, 1, 2]);
    assert!(apply_filters_lines(&lines, &[], b',', 3).is_empty());
}

#[test]
fn filter_compares_shown_values() {
    // A quoted cell is compared by the value it shows; a missing cell is empty.
    let lines = lines(&["\"a,b\",1", "\"x\"\"y\",2", "c"]);
    let f = ColumnFilter {
        contains: String::new(),
        included: Some(vec!["a,b".to_string(), "x\"y".to_string()]),
    };
    assert_eq!(apply_filters_lines(&lines, &[(0, f)], b',', 0), vec![0, 1]);
    let blank = ColumnFilter { contains: String::new(), included: Some(vec![String::new()]) };
    assert_eq!(apply_filters_lines(&lines, &[(1, blank)], b',', 0), vec![2]);
}

#[test]
fn noop_filters() {
    assert!(ColumnFilter::default().is_noop());
    assert!(ColumnFilter { contains: "  \t".to_string(), included: None }.is_noop());
    assert!(!ColumnFilter { contains: "a".to_string(), included: None }.is_noop());
    assert!(!ColumnFilter { contains: String::new(), included: Some(vec![]) }.is_noop());
}

#[test]
fn empty_choice_passes_nothing() {
    let lines = lines(&["a", "b"]);
    let f = ColumnFilter { contains: String::new(), included: Some(vec![]) };
    assert!(apply_filters_lines(&lines, &[(0, f)], b',', 0).is_empty());
}

fn tally_of(text: &str, data_start: usize) -> vweditor::distinct::DistinctTally {
    let lines: Vec<String> = text.lines().map(|s| s.to_string()).collect();
    vweditor::distinct::distinct_tally(&lines, b',', 0, data_start)
}

#[test]
fn distinct_counts_values() {
    let result = tally_of("a\nb\na\nc\na\n", 0);
    assert_eq!(result.values, vec![("a".to_string(), 3), ("b".to_string(), 1), ("c".to_string(), 1)]);
    assert!(!result.truncated);
}

#[test]
fn distinct_respects_data_start() {
    let result = tally_of("name\na\nb\na\n", 1);
    assert_eq!(result.values, vec![("a".to_string(), 2), ("b".to_string(), 1)]);
}

#[test]
fn distinct_unquotes_values() {
    let result = tally_of("\"a,b\"\nc\n", 0);
    assert_eq!(result.values, vec![("a,b".to_string(), 1), ("c".to_string(), 1)]);
}

#[test]
fn extract_distinct_lines_matches_mmap_path() {
    let result = tally_of("a\nb\na\nc\na", 0);
    assert_eq!(result.values, vec![("a".to_string(), 3), ("b".to_string(), 1), ("c".to_string(), 1)]);
    assert_eq!(result.distinct, 3);
    assert!(!result.hit_cap);
}

#[test]
fn distinct_truncates_when_too_many_values() {
    let mut content = String::new();
    for i in 0..(vweditor::distinct::MAX_DISTINCT_VALUES + 10) {
        content.push_str(&format!("v{i}\n"));
    }
    let result = tally_of(&content, 0);
    assert_eq!(result.values.len(), vweditor::distinct::MAX_DISTINCT_VALUES);
    assert!(result.truncated);
}

#[test]
fn distinct_count_is_exact_under_cap() {
    let mut content = String::new();
    for i in 0..1500 {
        content.push_str(&format!("v{i}\n"));
    }
    let result = tally_of(&content, 0);
    assert_eq!(result.distinct, 1500);
    assert!(!result.hit_cap);
    assert_eq!(result.values.len(), 1000);
}

#[test]
fn distinct_tally_caps_at_first_values_met() {
    let mut content = String::new();
    for i in 0..(vweditor::distinct::EXACT_COUNT_CAP + 5) {
        content.push_str(&format!("{:05}\n", 99999 - i));
    }
    content.push_str("99999\n");
    let result = tally_of(&content, 0);
    assert!(result.hit_cap);
    assert!(result.truncated);
    assert_eq!(result.distinct, vweditor::distinct::EXACT_COUNT_CAP);
    // The values met first are kept; the smallest of them are listed.
    assert_eq!(result.values[0].0, format!("{:05}", 99999 - (vweditor::distinct::EXACT_COUNT_CAP - 1)));
    let top = result.values.iter().find(|v| v.0 == "99999");
    assert!(top.is_none());
    let sorted = result.values.windows(2).all(|w| w[0].0 < w[1].0);
    assert!(sorted);
}

#[test]
fn filter_then_sort_orders_only_the_matching_rows() {
    let lines = lines(&["name,n", "b,x", "a,y", "c,x", "a,x"]);
    let f = ColumnFilter { contains: String::new(), included: Some(vec!["x".to_string()]) };
    let spec = SortSpec { col: 0, kind: SortKind::Text, dir: SortDir::Asc, ci: false };
    let numbers = vec![[0u64; 4]; 4];
    let filters = vec![(1, f)];
    assert_eq!(filter_and_sort(&lines, &filters, &[spec], b',', 1, &numbers), vec![4, 1, 3]);
    assert_eq!(filter_and_sort(&lines, &filters, &[], b',', 1, &numbers), vec![1, 3, 4]);
}

#[test]
fn sketch_registers_keep_the_largest_rank() {
    let mut h = HllSketch::new();
    assert_eq!(h.registers().len(), HLL_M);
    assert!(h.registers().iter().all(|&r| r == 0));
    h.insert_hash(0);
    assert_eq!(h.registers()[0], 65);
    h.insert_hash(u64::MAX);
    assert_eq!(h.registers()[HLL_M - 1], 1);
    h.insert_hash((1u64 << 50) | (1u64 << 49));
    assert_eq!(h.registers()[1], 1);
    h.insert_hash(1u64 << 50);
    assert_eq!(h.registers()[1], 65);
    h.insert_hash((1u64 << 50) | (1u64 << 49));
    assert_eq!(h.registers()[1], 65);
    assert_eq!(h.registers()[2], 0);
}

#[test]
fn distinct_count_is_exact_under_the_cap() {
    let tally = DistinctTally {
        values: vec![("a".to_string(), 2)],
        truncated: false,
        hit_cap: false,
        distinct: 1,
    };
    let r = distinct_result(tally, 99);
    assert_eq!(r.count, DistinctCount::Exact(1));
    assert_eq!(r.values, vec![("a".to_string(), 2)]);
    assert!(!r.truncated);
    let capped = DistinctTally { values: vec![], truncated: true, hit_cap: true, distinct: 5000 };
    let r = distinct_result(capped, 12345);
    assert_eq!(r.count, DistinctCount::Approx(12345));
    assert!(r.truncated);
}

#[test]
fn filter_then_sort_without_filters_is_the_full_sort() {
    let lines = lines(&["h", "b", "c", "a", "b"]);
    let spec = SortSpec { col: 0, kind: SortKind::Text, dir: SortDir::Desc, ci: false };
    let numbers = vec![[0u64; 4]; 4];
    let full = vweditor::sort::sort_lines(&lines, &[spec], b',', 1, &numbers);
    assert_eq!(full, vec![2, 1, 4, 3]);
    assert_eq!(filter_and_sort(&lines, &[], &[spec], b',', 1, &numbers), full);
}

#[test]
fn sketch_ignores_order_and_repeats() {
    let hashes = [0u64, u64::MAX, 1u64 << 50, (1u64 << 50) | 7, 0x1234_5678_9abc_def0];
    let mut a = HllSketch::new();
    for &h in hashes.iter() {
        a.insert_hash(h);
    }
    let mut b = HllSketch::new();
    for &h in hashes.iter().rev() {
        b.insert_hash(h);
        b.insert_hash(h);
    }
    assert_eq!(a.registers(), b.registers());
}
