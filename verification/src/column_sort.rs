//! Sorting the data lines by one column. A text sort orders the whole values
//! in dictionary order (by code point, which is the byte order of UTF-8),
//! ASCII case folded when asked, a missing cell being the empty text. A number
//! sort orders the number keys; non-numbers and missing cells go last in
//! either direction. Descending reverses only the value comparison: rows with
//! equal values keep their line order in both directions.
use vstd::prelude::*;
use crate::csv::{delim_char, field_slice, raw_fields};
use crate::chars::chars_of;
use crate::i18n::{ascii_lower, lower};
use crate::sort::{SortDir, SortKind, NUM_INVALID};
use crate::text_order::{compare_text, lemma_text_total, lemma_text_trans, text_lt};
use rayon::iter::{IntoParallelIterator, ParallelIterator};
use rayon::slice::ParallelSliceMut;
use std::cmp::Ordering;

verus! {

/// A row to sort by one column: its whole value (folded; empty for a number
/// sort), its number key (for a number sort), and its line index.
pub type ColumnItem = (Vec<char>, u64, u32);

/// The number key of data line `i`, from the table the caller filled;
/// `NUM_INVALID` where the table has none.
pub open spec fn number_of(numbers: Seq<u64>, i: int) -> u64 {
    if 0 <= i < numbers.len() {
        numbers[i]
    } else {
        NUM_INVALID
    }
}

/// The whole raw value of cell `col` of `line`, ASCII case folded when `ci`;
/// empty when there is none.
pub open spec fn cell_text(line: Seq<char>, delim: u8, col: int, ci: bool) -> Seq<char> {
    if 0 <= col < raw_fields(line, delim_char(delim)).len() {
        let f = raw_fields(line, delim_char(delim))[col];
        if ci {
            f.map_values(|c: char| ascii_lower(c))
        } else {
            f
        }
    } else {
        Seq::empty()
    }
}

/// What a row is sorted by: its value (text sort), its number key (number
/// sort; `NUM_INVALID` for a missing cell), and its line index.
pub open spec fn column_item_of(
    lines: Seq<String>,
    delim: u8,
    col: int,
    kind: SortKind,
    ci: bool,
    numbers: Seq<u64>,
    i: int,
    line: int,
) -> (Seq<char>, u64, u32) {
    match kind {
        SortKind::Text => (cell_text(lines[line]@, delim, col, ci), 0, line as u32),
        SortKind::Number => (
            Seq::empty(),
            if 0 <= col < raw_fields(lines[line]@, delim_char(delim)).len() {
                number_of(numbers, i)
            } else {
                NUM_INVALID
            },
            line as u32,
        ),
    }
}

/// The order of two rows (-1, 0, 1). Text: by value, ascending or
/// descending, then by line. Number: numbers before non-numbers; numbers by
/// key, ascending or descending; then by line.
pub open spec fn column_order_of(
    kind: SortKind,
    dir: SortDir,
    a: (Seq<char>, u64, u32),
    b: (Seq<char>, u64, u32),
) -> int {
    let by_line: int = if a.2 < b.2 {
        -1
    } else if a.2 > b.2 {
        1
    } else {
        0
    };
    match kind {
        SortKind::Text => if a.0 == b.0 {
            by_line
        } else if text_lt(a.0, b.0) == (dir == SortDir::Asc) {
            -1
        } else {
            1
        },
        SortKind::Number => {
            let ia = a.1 == NUM_INVALID;
            let ib = b.1 == NUM_INVALID;
            if ia != ib {
                if ia {
                    1
                } else {
                    -1
                }
            } else if ia || a.1 == b.1 {
                by_line
            } else if (a.1 < b.1) == (dir == SortDir::Asc) {
                -1
            } else {
                1
            }
        },
    }
}

/// The items of a sequence of exec rows.
pub open spec fn items_of(v: Seq<ColumnItem>) -> Seq<(Seq<char>, u64, u32)> {
    v.map_values(|x: ColumnItem| (x.0@, x.1, x.2))
}

/// Whether `s` is in ascending order of `column_order_of`.
pub open spec fn column_sorted(s: Seq<(Seq<char>, u64, u32)>, kind: SortKind, dir: SortDir) -> bool {
    forall|i: int, j: int| 0 <= i < j < s.len() ==> #[trigger] column_order_of(kind, dir, s[i], s[j]) <= 0
}

/// Whether the order is antisymmetric and transitive on `s`.
pub open spec fn column_order_total(s: Seq<(Seq<char>, u64, u32)>, kind: SortKind, dir: SortDir) -> bool {
    &&& forall|x: int, y: int|
        0 <= x < s.len() && 0 <= y < s.len() ==> #[trigger] column_order_of(kind, dir, s[x], s[y])
            == -column_order_of(kind, dir, s[y], s[x])
    &&& forall|x: int, y: int, z: int|
        0 <= x < s.len() && 0 <= y < s.len() && 0 <= z < s.len() && #[trigger] column_order_of(
            kind,
            dir,
            s[x],
            s[y],
        ) <= 0 && #[trigger] column_order_of(kind, dir, s[y], s[z]) <= 0 ==> column_order_of(
            kind,
            dir,
            s[x],
            s[z],
        ) <= 0
}

/// Whether `r` lists the lines of `rows` in sorted order: some ascending
/// arrangement of the rows has exactly these lines.
pub open spec fn column_sorted_lines_of(
    r: Seq<u32>,
    rows: Seq<(Seq<char>, u64, u32)>,
    kind: SortKind,
    dir: SortDir,
) -> bool {
    exists|s: Seq<(Seq<char>, u64, u32)>|
        s.to_multiset() == rows.to_multiset() && column_sorted(s, kind, dir) && r == s.map_values(
            |x: (Seq<char>, u64, u32)| x.2,
        )
}

proof fn lemma_order_pair(kind: SortKind, dir: SortDir, a: (Seq<char>, u64, u32), b: (Seq<char>, u64, u32))
    ensures
        column_order_of(kind, dir, a, b) == -column_order_of(kind, dir, b, a),
        -1 <= column_order_of(kind, dir, a, b) <= 1,
{
    lemma_text_total(a.0, b.0);
}

proof fn lemma_order_trans(
    kind: SortKind,
    dir: SortDir,
    a: (Seq<char>, u64, u32),
    b: (Seq<char>, u64, u32),
    c: (Seq<char>, u64, u32),
)
    requires
        column_order_of(kind, dir, a, b) <= 0,
        column_order_of(kind, dir, b, c) <= 0,
    ensures
        column_order_of(kind, dir, a, c) <= 0,
{
    lemma_text_total(a.0, b.0);
    lemma_text_total(b.0, c.0);
    lemma_text_total(a.0, c.0);
    if kind == SortKind::Text {
        if text_lt(a.0, b.0) && text_lt(b.0, c.0) {
            lemma_text_trans(a.0, b.0, c.0);
        }
        if text_lt(b.0, a.0) && text_lt(c.0, b.0) {
            lemma_text_trans(c.0, b.0, a.0);
        }
        if a.0 == c.0 && a.0 != b.0 {
            lemma_text_total(a.0, b.0);
        }
    }
}

/// The order is a total order on any rows: antisymmetric and transitive.
pub proof fn lemma_column_order_total(s: Seq<(Seq<char>, u64, u32)>, kind: SortKind, dir: SortDir)
    ensures
        column_order_total(s, kind, dir),
{
    assert forall|x: int, y: int| 0 <= x < s.len() && 0 <= y < s.len() implies #[trigger] column_order_of(
        kind,
        dir,
        s[x],
        s[y],
    ) == -column_order_of(kind, dir, s[y], s[x]) by {
        lemma_order_pair(kind, dir, s[x], s[y]);
    }
    assert forall|x: int, y: int, z: int|
        0 <= x < s.len() && 0 <= y < s.len() && 0 <= z < s.len() && #[trigger] column_order_of(
            kind,
            dir,
            s[x],
            s[y],
        ) <= 0 && #[trigger] column_order_of(kind, dir, s[y], s[z]) <= 0 implies column_order_of(
        kind,
        dir,
        s[x],
        s[z],
    ) <= 0 by {
        lemma_order_trans(kind, dir, s[x], s[y], s[z]);
    }
}

/// The whole value of cell `col` of `line`, folded when `ci`.
fn cell_chars(line: &str, delim: u8, col: usize, ci: bool) -> (r: Vec<char>)
    ensures
        r@ == cell_text(line@, delim, col as int, ci),
{
    match field_slice(line, delim, col) {
        Some(f) => {
            let cs = chars_of(f.as_str());
            if !ci {
                return cs;
            }
            let mut out: Vec<char> = Vec::new();
            let mut i: usize = 0;
            while i < cs.len()
                invariant
                    i <= cs@.len(),
                    out@ == cs@.take(i as int).map_values(|c: char| ascii_lower(c)),
                decreases cs@.len() - i,
            {
                out.push(lower(cs[i]));
                assert(cs@.take(i + 1).map_values(|c: char| ascii_lower(c)) =~= cs@.take(
                    i as int,
                ).map_values(|c: char| ascii_lower(c)).push(ascii_lower(cs@[i as int])));
                i += 1;
            }
            assert(cs@.take(cs@.len() as int) =~= cs@);
            out
        },
        None => Vec::new(),
    }
}

/// The row to sort for line `line`, data line `i`.
fn column_item_row(
    lines: &[String],
    delim: u8,
    col: usize,
    kind: SortKind,
    ci: bool,
    numbers: &[u64],
    i: usize,
    line: usize,
) -> (r: ColumnItem)
    requires
        line < lines@.len(),
    ensures
        (r.0@, r.1, r.2) == column_item_of(
            lines@,
            delim,
            col as int,
            kind,
            ci,
            numbers@,
            i as int,
            line as int,
        ),
{
    let row = #[verifier::truncate] (line as u32);
    match kind {
        SortKind::Text => (cell_chars(lines[line].as_str(), delim, col, ci), 0, row),
        SortKind::Number => {
            let number = match field_slice(lines[line].as_str(), delim, col) {
                Some(_) => {
                    if i < numbers.len() {
                        numbers[i]
                    } else {
                        NUM_INVALID
                    }
                },
                None => NUM_INVALID,
            };
            (Vec::new(), number, row)
        },
    }
}

/// How two rows compare (see `column_order_of`).
pub fn compare_column_items(kind: SortKind, dir: SortDir, a: &ColumnItem, b: &ColumnItem) -> (r:
    Ordering)
    ensures
        (r == Ordering::Less) == (column_order_of(kind, dir, (a.0@, a.1, a.2), (b.0@, b.1, b.2))
            == -1),
        (r == Ordering::Equal) == (column_order_of(kind, dir, (a.0@, a.1, a.2), (b.0@, b.1, b.2))
            == 0),
        (r == Ordering::Greater) == (column_order_of(kind, dir, (a.0@, a.1, a.2), (b.0@, b.1, b.2))
            == 1),
{
    let asc = dir == SortDir::Asc;
    match kind {
        SortKind::Text => {
            let c = compare_text(&a.0, &b.0);
            proof {
                lemma_text_total(a.0@, b.0@);
            }
            if c == 0 {
                if a.2 < b.2 {
                    Ordering::Less
                } else if a.2 > b.2 {
                    Ordering::Greater
                } else {
                    Ordering::Equal
                }
            } else if (c < 0) == asc {
                Ordering::Less
            } else {
                Ordering::Greater
            }
        },
        SortKind::Number => {
            let ia = a.1 == NUM_INVALID;
            let ib = b.1 == NUM_INVALID;
            if ia != ib {
                if ia {
                    Ordering::Greater
                } else {
                    Ordering::Less
                }
            } else if ia || a.1 == b.1 {
                if a.2 < b.2 {
                    Ordering::Less
                } else if a.2 > b.2 {
                    Ordering::Greater
                } else {
                    Ordering::Equal
                }
            } else if (a.1 < b.1) == asc {
                Ordering::Less
            } else {
                Ordering::Greater
            }
        },
    }
}

/// The rows of lines `start..start + n`.
/// Maps `column_item_row` over the range with rayon's
/// `into_par_iter().map(..).collect()`; claims, as rayon documents for an
/// indexed iterator, that the results come in the order of the range.
#[verifier::external_body]
fn par_column_items(
    lines: &[String],
    delim: u8,
    col: usize,
    kind: SortKind,
    ci: bool,
    numbers: &[u64],
    start: usize,
    n: usize,
) -> (r: Vec<ColumnItem>)
    requires
        start + n <= lines@.len(),
    ensures
        items_of(r@) == Seq::new(
            n as nat,
            |i: int| column_item_of(lines@, delim, col as int, kind, ci, numbers@, i, start + i),
        ),
{
    (0..n).into_par_iter().map(|i| column_item_row(lines, delim, col, kind, ci, numbers, i, start + i)).collect()
}

/// Sorts rows in parallel by `compare_column_items`.
/// Calls rayon's `par_sort_unstable_by`; claims that the rows afterwards are
/// the same rows, and, as rayon documents, in ascending order when the
/// comparison is a total order on them.
#[verifier::external_body]
fn par_sort_column(v: &mut Vec<ColumnItem>, kind: SortKind, dir: SortDir)
    ensures
        items_of(final(v)@).to_multiset() == items_of(old(v)@).to_multiset(),
        column_order_total(items_of(old(v)@), kind, dir) ==> column_sorted(
            items_of(final(v)@),
            kind,
            dir,
        ),
{
    v.par_sort_unstable_by(|a, b| compare_column_items(kind, dir, a, b));
}

/// Sorts the data lines (`data_start..`) by column `col` and gives the line
/// indices in sorted order (see the module documentation). `numbers[i]` is
/// the number key of data line `i`, read by the caller (`NUM_INVALID` for a
/// non-number). No data lines give nothing.
pub fn extract_and_sort(
    lines: &[String],
    delim: u8,
    col: usize,
    data_start: usize,
    kind: SortKind,
    dir: SortDir,
    ci: bool,
    numbers: &[u64],
) -> (r: Vec<u32>)
    ensures
        lines@.len() <= data_start ==> r@.len() == 0,
        lines@.len() > data_start ==> column_sorted_lines_of(
            r@,
            Seq::new(
                (lines@.len() - data_start) as nat,
                |i: int|
                    column_item_of(
                        lines@,
                        delim,
                        col as int,
                        kind,
                        ci,
                        numbers@,
                        i,
                        data_start + i,
                    ),
            ),
            kind,
            dir,
        ),
        lines@.len() > data_start && lines@.len() <= 0x1_0000_0000 ==> {
            &&& r@.len() == lines@.len() - data_start
            &&& forall|j: int| 0 <= j < r@.len() ==> data_start <= #[trigger] r@[j] < lines@.len()
            &&& r@.no_duplicates()
        },
{
    if lines.len() <= data_start {
        return Vec::new();
    }
    let n = lines.len() - data_start;
    let mut items = par_column_items(lines, delim, col, kind, ci, numbers, data_start, n);
    let ghost rows = items_of(items@);
    proof {
        lemma_column_order_total(rows, kind, dir);
    }
    par_sort_column(&mut items, kind, dir);
    let ghost s = items_of(items@);
    let mut out: Vec<u32> = Vec::new();
    let mut j: usize = 0;
    while j < items.len()
        invariant
            j <= items@.len(),
            s == items_of(items@),
            out@ == s.take(j as int).map_values(|x: (Seq<char>, u64, u32)| x.2),
        decreases items@.len() - j,
    {
        out.push(items[j].2);
        assert(s.take(j + 1).map_values(|x: (Seq<char>, u64, u32)| x.2) =~= s.take(j as int).map_values(
            |x: (Seq<char>, u64, u32)| x.2,
        ).push(s[j as int].2));
        j += 1;
    }
    proof {
        assert(s.take(s.len() as int) =~= s);
        assert(s.to_multiset() == rows.to_multiset() && column_sorted(s, kind, dir) && out@
            == s.map_values(|x: (Seq<char>, u64, u32)| x.2));
        if lines@.len() <= 0x1_0000_0000 {
            lemma_column_sort_lists_each_data_line_once(
                lines@,
                delim,
                col as int,
                data_start as int,
                kind,
                dir,
                ci,
                numbers@,
                out@,
            );
        }
    }
    out
}


/// A one-column sort lists line indices, not data-row offsets: every data
/// line (`data_start..`) once, and nothing else (line indices being `u32`,
/// for files of at most `2^32` lines).
pub proof fn lemma_column_sort_lists_each_data_line_once(
    lines: Seq<String>,
    delim: u8,
    col: int,
    data_start: int,
    kind: SortKind,
    dir: SortDir,
    ci: bool,
    numbers: Seq<u64>,
    r: Seq<u32>,
)
    requires
        0 <= data_start < lines.len(),
        lines.len() <= 0x1_0000_0000,
        column_sorted_lines_of(
            r,
            Seq::new(
                (lines.len() - data_start) as nat,
                |i: int| column_item_of(lines, delim, col, kind, ci, numbers, i, data_start + i),
            ),
            kind,
            dir,
        ),
    ensures
        r.len() == lines.len() - data_start,
        forall|j: int| 0 <= j < r.len() ==> data_start <= #[trigger] r[j] < lines.len(),
        r.no_duplicates(),
{
    broadcast use vstd::seq_lib::group_to_multiset_ensures;

    let rows = Seq::new(
        (lines.len() - data_start) as nat,
        |i: int| column_item_of(lines, delim, col, kind, ci, numbers, i, data_start + i),
    );
    let s = choose|s: Seq<(Seq<char>, u64, u32)>|
        s.to_multiset() == rows.to_multiset() && column_sorted(s, kind, dir) && r == s.map_values(
            |x: (Seq<char>, u64, u32)| x.2,
        );
    assert forall|i: int| 0 <= i < rows.len() implies #[trigger] rows[i].2 == data_start + i by {}
    assert(rows.no_duplicates()) by {
        assert forall|a: int, b: int|
            0 <= a < rows.len() && 0 <= b < rows.len() && a != b implies rows[a] != rows[b] by {
            assert(rows[a].2 == data_start + a);
            assert(rows[b].2 == data_start + b);
        }
    }
    rows.lemma_multiset_has_no_duplicates();
    s.lemma_multiset_has_no_duplicates_conv();
    assert(s.len() == rows.len()) by {
        assert(s.to_multiset().len() == rows.to_multiset().len());
    }
    assert forall|j: int| 0 <= j < s.len() implies #[trigger] rows.contains(s[j]) by {
        assert(s.contains(s[j]));
        assert(s.to_multiset().count(s[j]) > 0);
    }
    assert forall|j: int| 0 <= j < r.len() implies data_start <= #[trigger] r[j] < lines.len() by {
        assert(rows.contains(s[j]));
        let i = choose|i: int| 0 <= i < rows.len() && #[trigger] rows[i] == s[j];
        assert(rows[i].2 == data_start + i);
    }
    assert forall|a: int, b: int|
        0 <= a < r.len() && 0 <= b < r.len() && a != b implies r[a] != r[b] by {
        assert(rows.contains(s[a]));
        assert(rows.contains(s[b]));
        let ia = choose|i: int| 0 <= i < rows.len() && #[trigger] rows[i] == s[a];
        let ib = choose|i: int| 0 <= i < rows.len() && #[trigger] rows[i] == s[b];
        assert(rows[ia].2 == data_start + ia);
        assert(rows[ib].2 == data_start + ib);
        if r[a] == r[b] {
            assert(ia == ib);
            assert(s[a] == s[b]);
        }
    }
}

/// Descending reverses only the comparison of values: rows with different
/// values (or, in a number sort, different number keys, both numbers) swap
/// order against ascending, while rows with equal values, and non-numbers
/// against numbers, keep their ascending order.
pub proof fn lemma_descending_reverses_values_only(
    kind: SortKind,
    a: (Seq<char>, u64, u32),
    b: (Seq<char>, u64, u32),
)
    ensures
        ({
            let asc = column_order_of(kind, SortDir::Asc, a, b);
            let desc = column_order_of(kind, SortDir::Desc, a, b);
            let values_differ = match kind {
                SortKind::Text => a.0 != b.0,
                SortKind::Number => a.1 != NUM_INVALID && b.1 != NUM_INVALID && a.1 != b.1,
            };
            if values_differ {
                desc == -asc
            } else {
                desc == asc
            }
        }),
{
    if kind == SortKind::Text && a.0 != b.0 {
        lemma_text_total(a.0, b.0);
    }
}

/// Whether `f` and `g` are the same text but for the case of ASCII letters.
pub open spec fn same_but_ascii_case(f: Seq<char>, g: Seq<char>) -> bool {
    &&& f.len() == g.len()
    &&& forall|k: int|
        0 <= k < f.len() ==> #[trigger] f[k] == g[k] || ('A' <= f[k] <= 'Z' && g[k] as u32 == f[k]
            as u32 + 32) || ('A' <= g[k] <= 'Z' && f[k] as u32 == g[k] as u32 + 32)
}

/// Ignoring case, two rows whose cells differ only in the case of ASCII
/// letters have the same value, so they sort as equals (by line), in either
/// direction.
pub proof fn lemma_ignore_case_equal_values(
    lines: Seq<String>,
    delim: u8,
    col: int,
    numbers: Seq<u64>,
    i: int,
    x: int,
    j: int,
    y: int,
)
    requires
        0 <= x < lines.len(),
        0 <= y < lines.len(),
        0 <= col < raw_fields(lines[x]@, delim_char(delim)).len(),
        0 <= col < raw_fields(lines[y]@, delim_char(delim)).len(),
        same_but_ascii_case(
            raw_fields(lines[x]@, delim_char(delim))[col],
            raw_fields(lines[y]@, delim_char(delim))[col],
        ),
    ensures
        column_item_of(lines, delim, col, SortKind::Text, true, numbers, i, x).0 == column_item_of(
            lines,
            delim,
            col,
            SortKind::Text,
            true,
            numbers,
            j,
            y,
        ).0,
{
    let f = raw_fields(lines[x]@, delim_char(delim))[col];
    let g = raw_fields(lines[y]@, delim_char(delim))[col];
    assert(f.map_values(|c: char| ascii_lower(c)) =~= g.map_values(|c: char| ascii_lower(c))) by {
        assert forall|k: int| 0 <= k < f.len() implies ascii_lower(f[k]) == ascii_lower(g[k]) by {
            assert(f[k] == g[k] || ('A' <= f[k] <= 'Z' && g[k] as u32 == f[k] as u32 + 32) || (
            'A' <= g[k] <= 'Z' && f[k] as u32 == g[k] as u32 + 32));
        }
    }
}
} // verus!
