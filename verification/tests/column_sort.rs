use vweditor::column_sort::extract_and_sort;
use vweditor::csv::field_slice;
use vweditor::sort::{f64_sortable, SortDir, SortKind, NUM_INVALID};

/// Sorts the lines of `content` by column `col`, reading number keys as a
/// caller does.
fn sorted(content: &str, col: usize, data_start: usize, kind: SortKind, dir: SortDir, ci: bool) -> Vec<u32> {
    let lines: Vec<String> = content.lines().map(|s| s.to_string()).collect();
    let numbers: Vec<u64> = lines
        .iter()
        .skip(data_start)
        .map(|l| match field_slice(l, b',', col) {
            Some(f) => match f.trim().parse::<f64>() {
                Ok(v) => f64_sortable(v.to_bits()),
                Err(_) => NUM_INVALID,
            },
            None => NUM_INVALID,
        })
        .collect();
    extract_and_sort(&lines, b',', col, data_start, kind, dir, ci, &numbers)
}

#[test]
fn text_sort_ascending() {
    assert_eq!(sorted("banana\napple\ncherry\n", 0, 0, SortKind::Text, SortDir::Asc, false), vec![1, 0, 2]);
}

#[test]
fn text_sort_descending() {
    assert_eq!(sorted("banana\napple\ncherry\n", 0, 0, SortKind::Text, SortDir::Desc, false), vec![2, 0, 1]);
}

#[test]
fn number_sort_beats_lexicographic() {
    assert_eq!(sorted("10\n2\n9\n", 0, 0, SortKind::Number, SortDir::Asc, false), vec![1, 2, 0]);
}

#[test]
fn number_sort_descending() {
    assert_eq!(sorted("10\n2\n9\n", 0, 0, SortKind::Number, SortDir::Desc, false), vec![0, 2, 1]);
}

#[test]
fn non_numeric_goes_last_ascending() {
    assert_eq!(sorted("5\nabc\n1\n", 0, 0, SortKind::Number, SortDir::Asc, false), vec![2, 0, 1]);
}

#[test]
fn non_numeric_goes_last_descending_too() {
    assert_eq!(sorted("5\nabc\n1\n", 0, 0, SortKind::Number, SortDir::Desc, false), vec![0, 2, 1]);
}

#[test]
fn stable_on_equal_keys() {
    assert_eq!(sorted("x\na\nx\n", 0, 0, SortKind::Text, SortDir::Asc, false), vec![1, 0, 2]);
}

#[test]
fn sorts_second_column() {
    assert_eq!(sorted("a,30\nb,10\nc,20\n", 1, 0, SortKind::Number, SortDir::Asc, false), vec![1, 2, 0]);
}

#[test]
fn header_row_excluded() {
    assert_eq!(sorted("name\nbanana\napple\n", 0, 1, SortKind::Text, SortDir::Asc, false), vec![2, 1]);
}

#[test]
fn missing_column_treated_as_empty_or_none() {
    assert_eq!(sorted("5,3\n9\n5,1\n", 1, 0, SortKind::Number, SortDir::Asc, false), vec![2, 0, 1]);
}

#[test]
fn text_tie_break_beyond_prefix() {
    let perm = sorted(
        "abcdefghijklmnop_Z\nabcdefghijklmnop_A\nabcdefghijklmnop_M\n",
        0,
        0,
        SortKind::Text,
        SortDir::Asc,
        false,
    );
    assert_eq!(perm, vec![1, 2, 0], "ties on the prefix are broken by the 17th byte");
}

#[test]
fn text_sort_shorter_prefix_first() {
    assert_eq!(sorted("b\nabc\nab\n", 0, 0, SortKind::Text, SortDir::Asc, false), vec![2, 1, 0]);
}

#[test]
fn number_sort_negatives_and_decimals() {
    assert_eq!(sorted("-3.5\n2\n-10\n0.5\n", 0, 0, SortKind::Number, SortDir::Asc, false), vec![2, 0, 3, 1]);
}

#[test]
fn number_sort_column_after_unquoted_mid_field_quote() {
    let perm = sorted("5\" pipe,10,X\nsize 6\",100,ok\nA\"B,3,C\n", 1, 0, SortKind::Number, SortDir::Asc, false);
    assert_eq!(perm, vec![2, 0, 1], "a literal quote inside a field must not shift column 1");
}

#[test]
fn quoted_field_with_embedded_delimiter_keeps_column_boundaries() {
    let perm = sorted("\"a,b\",2\n\"c,d\",5\n", 1, 0, SortKind::Number, SortDir::Asc, false);
    assert_eq!(perm, vec![0, 1], "a delimiter inside quotes is no column boundary");
}

#[test]
fn single_text_case_sensitive_vs_insensitive() {
    assert_eq!(sorted("Zebra\napple\n", 0, 0, SortKind::Text, SortDir::Asc, false), vec![0, 1]);
    assert_eq!(sorted("Zebra\napple\n", 0, 0, SortKind::Text, SortDir::Asc, true), vec![1, 0]);
}

#[test]
fn ci_groups_mixed_case_together() {
    assert_eq!(
        sorted("apple\nBanana\nApple\nbanana\n", 0, 0, SortKind::Text, SortDir::Asc, true),
        vec![0, 2, 1, 3]
    );
}

#[test]
fn ci_tie_break_beyond_prefix() {
    assert_eq!(sorted("ABCDEFGH_z\nabcdefgh_a\n", 0, 0, SortKind::Text, SortDir::Asc, true), vec![1, 0]);
}

#[test]
fn descending_keeps_non_numbers_last_in_line_order() {
    assert_eq!(sorted("x\n3\ny\n7\n", 0, 0, SortKind::Number, SortDir::Desc, false), vec![3, 1, 0, 2]);
    assert!(sorted("a\nb\n", 0, 2, SortKind::Text, SortDir::Asc, false).is_empty());
}

#[test]
fn a_proper_prefix_sorts_first_beyond_eight_bytes() {
    assert_eq!(sorted("abcdefghi\nabcdefgh\n", 0, 0, SortKind::Text, SortDir::Asc, false), vec![1, 0]);
    assert_eq!(sorted("abcdefghi\nabcdefgh\n", 0, 0, SortKind::Text, SortDir::Desc, false), vec![0, 1]);
}

#[test]
fn descending_keeps_equal_values_in_line_order() {
    assert_eq!(sorted("x\na\nx\n", 0, 0, SortKind::Text, SortDir::Desc, false), vec![0, 2, 1]);
    assert_eq!(sorted("5\n1\n5\nq\n", 0, 0, SortKind::Number, SortDir::Desc, false), vec![0, 2, 1, 3]);
}
