use vweditor::sort::{
    col_key, f64_sortable, sort_lines, sort_lines_subset, text_key, SortDir, SortKind, SortSpec,
    NUM_INVALID,
};

fn spec(col: usize, kind: SortKind, dir: SortDir) -> SortSpec {
    SortSpec { col, kind, dir, ci: false }
}

fn lines_of(text: &str) -> Vec<String> {
    text.split('\n').map(|s| s.to_string()).collect()
}

/// Number keys as a caller reads them: the sortable bits of the parsed cell.
fn number_table(lines: &[String], specs: &[SortSpec], from: usize) -> Vec<[u64; 4]> {
    lines[from..]
        .iter()
        .map(|l| {
            let mut row = [NUM_INVALID; 4];
            for (k, s) in specs.iter().enumerate().take(4) {
                if let Some(f) = vweditor::csv::field_slice(l, b',', s.col) {
                    if let Ok(v) = f.trim().parse::<f64>() {
                        row[k] = f64_sortable(v.to_bits());
                    }
                }
            }
            row
        })
        .collect()
}

#[test]
fn sort_lines_text_ascending() {
    let lines = vec!["banana".to_string(), "apple".to_string(), "cherry".to_string()];
    let specs = [spec(0, SortKind::Text, SortDir::Asc)];
    let order = sort_lines(&lines, &specs, b',', 0, &[]);
    assert_eq!(order, vec![1, 0, 2]);
}

#[test]
fn sort_lines_respects_data_start() {
    let lines = vec!["name".to_string(), "banana".to_string(), "apple".to_string()];
    let specs = [spec(0, SortKind::Text, SortDir::Asc)];
    let order = sort_lines(&lines, &specs, b',', 1, &[]);
    assert_eq!(order, vec![2, 1]);
}

#[test]
fn sort_lines_subset_only_orders_given_rows() {
    let lines = vec!["c".to_string(), "a".to_string(), "b".to_string(), "d".to_string()];
    let specs = [spec(0, SortKind::Text, SortDir::Asc)];
    let rows = [0u32, 2, 1];
    let order = sort_lines_subset(&lines, &specs, b',', &rows, &[]);
    assert_eq!(order, vec![1, 2, 0]);
}

#[test]
fn sort_lines_subset_empty_rows_is_empty() {
    let lines = vec!["a".to_string()];
    let specs = [spec(0, SortKind::Text, SortDir::Asc)];
    assert!(sort_lines_subset(&lines, &specs, b',', &[], &[]).is_empty());
}

#[test]
fn sort_lines_multi_city_then_age() {
    let lines = lines_of("B,30\nA,20\nB,10\nA,40");
    let specs = [spec(0, SortKind::Text, SortDir::Asc), spec(1, SortKind::Number, SortDir::Asc)];
    let numbers = number_table(&lines, &specs, 0);
    assert_eq!(sort_lines(&lines, &specs, b',', 0, &numbers), vec![1, 3, 2, 0]);
}

#[test]
fn sort_lines_mixed_direction() {
    let lines = lines_of("B,30\nA,20\nB,10\nA,40");
    let specs = [spec(0, SortKind::Text, SortDir::Asc), spec(1, SortKind::Number, SortDir::Desc)];
    let numbers = number_table(&lines, &specs, 0);
    assert_eq!(sort_lines(&lines, &specs, b',', 0, &numbers), vec![3, 1, 0, 2]);
}

#[test]
fn sort_lines_number_beats_lexicographic_and_non_numbers_go_last() {
    let lines = lines_of("10\n2\n9\nabc\n-3.5");
    for dir in [SortDir::Asc, SortDir::Desc] {
        let specs = [spec(0, SortKind::Number, dir)];
        let numbers = number_table(&lines, &specs, 0);
        let order = sort_lines(&lines, &specs, b',', 0, &numbers);
        if dir == SortDir::Asc {
            assert_eq!(order, vec![4, 1, 2, 0, 3]);
        } else {
            assert_eq!(order, vec![0, 2, 1, 4, 3]);
        }
    }
}

#[test]
fn sort_lines_is_stable_on_equal_keys() {
    let lines = lines_of("x\na\nx");
    let specs = [spec(0, SortKind::Text, SortDir::Asc)];
    assert_eq!(sort_lines(&lines, &specs, b',', 0, &[]), vec![1, 0, 2]);
}

#[test]
fn sort_lines_ignores_case_when_asked() {
    let lines = lines_of("Zebra\napple");
    let cs = [SortSpec { col: 0, kind: SortKind::Text, dir: SortDir::Asc, ci: false }];
    let ci = [SortSpec { col: 0, kind: SortKind::Text, dir: SortDir::Asc, ci: true }];
    assert_eq!(sort_lines(&lines, &cs, b',', 0, &[]), vec![0, 1]);
    assert_eq!(sort_lines(&lines, &ci, b',', 0, &[]), vec![1, 0]);
}

#[test]
fn sort_lines_no_specs_or_rows_is_empty() {
    let lines = lines_of("a\nb");
    assert!(sort_lines(&lines, &[], b',', 0, &[]).is_empty());
    let specs = [spec(0, SortKind::Text, SortDir::Asc)];
    assert!(sort_lines(&lines, &specs, b',', 2, &[]).is_empty());
}

#[test]
fn text_key_packs_eight_bytes_big_endian() {
    assert_eq!(text_key(b"ab", false), 0x6162_0000_0000_0000);
    assert_eq!(text_key(b"ABCDEFGHIJ", true), u64::from_be_bytes(*b"abcdefgh"));
    assert_eq!(text_key(b"", false), 0);
    assert!(text_key(b"ab", false) < text_key(b"abc", false));
}

#[test]
fn f64_sortable_orders_like_numbers() {
    let vals = [-10.0f64, -3.5, -0.0, 0.0, 0.5, 2.0, 1e300];
    for w in vals.windows(2) {
        assert!(f64_sortable(w[0].to_bits()) <= f64_sortable(w[1].to_bits()));
    }
    assert_eq!(f64_sortable(0.0f64.to_bits()), 0x8000_0000_0000_0000);
}

#[test]
fn col_key_folds_direction_and_keeps_non_numbers_last() {
    let num = SortSpec { col: 0, kind: SortKind::Number, dir: SortDir::Desc, ci: false };
    assert_eq!(col_key(None, num, 5), NUM_INVALID);
    assert_eq!(col_key(Some(b"x"), num, NUM_INVALID), NUM_INVALID);
    assert_eq!(col_key(Some(b"5"), num, 7), !7u64);
    let txt = SortSpec { col: 0, kind: SortKind::Text, dir: SortDir::Desc, ci: false };
    assert_eq!(col_key(None, txt, 0), u64::MAX);
    assert_eq!(col_key(Some(b"a"), txt, 0), !0x6100_0000_0000_0000u64);
}
