//! Sorting the data lines of the in-memory document by up to `MAX_KEYS`
//! criteria. Every row gets a fixed tuple of integer keys, so that the sort
//! itself is a plain integer sort; ties keep the line order.
use vstd::prelude::*;
use crate::csv::{delim_char, field_slice, raw_fields};
use rayon::iter::{
    IndexedParallelIterator, IntoParallelIterator, IntoParallelRefIterator, ParallelIterator,
};
use rayon::slice::ParallelSliceMut;

verus! {

/// How a column is compared.
#[derive(Debug, Clone, Copy, PartialEq, Eq, Structural)]
pub enum SortKind {
    Text,
    Number,
}

/// Ascending or descending.
#[derive(Debug, Clone, Copy, PartialEq, Eq, Structural)]
pub enum SortDir {
    Asc,
    Desc,
}

/// One sort criterion: which column, how, in which direction, and whether a
/// text comparison ignores ASCII case.
#[derive(Debug, Clone, Copy, PartialEq, Eq, Structural)]
pub struct SortSpec {
    pub col: usize,
    pub kind: SortKind,
    pub dir: SortDir,
    pub ci: bool,
}

/// The most criteria one sort uses; further ones are ignored.
pub const MAX_KEYS: usize = 4;

/// The key of a value that is no number (or a missing cell) in a number sort:
/// the largest key, so such rows go last.
pub const NUM_INVALID: u64 = 0xffff_ffff_ffff_ffff;

/// A text key holds this many leading bytes of the value.
pub const PREFIX_LEN: usize = 8;

/// A byte with ASCII capitals folded to small letters when `ci` holds.
pub open spec fn fold_byte(b: u8, ci: bool) -> u8 {
    if ci && 65 <= b <= 90 {
        (b + 32) as u8
    } else {
        b
    }
}

/// Byte `i` of the key buffer: the (folded) byte of the value, or 0 past its
/// end.
pub open spec fn key_byte(field: Seq<u8>, ci: bool, i: int) -> int {
    if 0 <= i < field.len() {
        fold_byte(field[i], ci) as int
    } else {
        0
    }
}

/// The first `k` bytes of the key buffer read as a big-endian number.
pub open spec fn be_prefix(field: Seq<u8>, ci: bool, k: int) -> int
    decreases k,
{
    if k <= 0 {
        0
    } else {
        be_prefix(field, ci, k - 1) * 256 + key_byte(field, ci, k - 1)
    }
}

/// The text key of a value: its first 8 bytes (ASCII case folded when `ci`),
/// zero-padded, read as a big-endian number. So comparing keys compares the
/// first 8 bytes as a dictionary does, and a shorter value comes first.
pub open spec fn text_key_of(field: Seq<u8>, ci: bool) -> u64 {
    be_prefix(field, ci, PREFIX_LEN as int) as u64
}

pub open spec fn pow256(k: nat) -> nat
    decreases k,
{
    if k == 0 {
        1
    } else {
        256 * pow256((k - 1) as nat)
    }
}

proof fn lemma_be_prefix_bound(field: Seq<u8>, ci: bool, k: nat)
    ensures
        0 <= be_prefix(field, ci, k as int) < pow256(k),
    decreases k,
{
    if k > 0 {
        lemma_be_prefix_bound(field, ci, (k - 1) as nat);
        let p = be_prefix(field, ci, k - 1);
        let q = pow256((k - 1) as nat);
        let x = key_byte(field, ci, k - 1);
        assert(0 <= x < 256);
        assert(0 <= p * 256 + x < 256 * q) by (nonlinear_arith)
            requires
                0 <= p < q,
                0 <= x < 256,
        ;
    }
}

/// The text key of a value (see `text_key_of`).
pub fn text_key(field: &[u8], ci: bool) -> (k: u64)
    ensures
        k == text_key_of(field@, ci),
{
    let mut key: u64 = 0;
    let mut i: usize = 0;
    proof {
        reveal_with_fuel(pow256, 9);
    }
    while i < PREFIX_LEN
        invariant
            i <= PREFIX_LEN,
            key == be_prefix(field@, ci, i as int),
            pow256(7) == 0x100_0000_0000_0000,
        decreases PREFIX_LEN - i,
    {
        let mut b: u8 = 0;
        if i < field.len() {
            b = field[i];
            if ci && 65 <= b && b <= 90 {
                b = b + 32;
            }
        }
        proof {
            lemma_be_prefix_bound(field@, ci, i as nat);
            if i < 7 {
                lemma_pow256_mono(i as nat, 7);
            }
        }
        key = key * 256 + b as u64;
        i += 1;
    }
    key
}

proof fn lemma_pow256_mono(a: nat, b: nat)
    requires
        a <= b,
    ensures
        pow256(a) <= pow256(b),
    decreases b,
{
    if a < b {
        lemma_pow256_mono(a, (b - 1) as nat);
    }
}

/// The bits of a double, turned into a key whose unsigned order is the order
/// of the numbers: a negative number has all its bits flipped, any other gets
/// its sign bit set.
pub open spec fn sortable_bits(bits: u64) -> u64 {
    if bits & 0x8000_0000_0000_0000 != 0 {
        !bits
    } else {
        bits | 0x8000_0000_0000_0000
    }
}

/// The sortable key of a double given by its bits (see `sortable_bits`).
pub fn f64_sortable(bits: u64) -> (k: u64)
    ensures
        k == sortable_bits(bits),
{
    if bits & 0x8000_0000_0000_0000 != 0 {
        !bits
    } else {
        bits | 0x8000_0000_0000_0000
    }
}

/// The key of one cell under one criterion, the direction folded in: a text
/// key (0 for a missing cell) or `number`, the number key of the cell
/// (`NUM_INVALID` for a missing cell). Descending flips every key but
/// `NUM_INVALID` of a number sort, so that non-numbers stay last.
pub open spec fn col_key_of(field: Option<Seq<u8>>, spec: SortSpec, number: u64) -> u64 {
    let raw: u64 = match spec.kind {
        SortKind::Text => match field {
            Some(f) => text_key_of(f, spec.ci),
            None => 0,
        },
        SortKind::Number => match field {
            Some(f) => number,
            None => NUM_INVALID,
        },
    };
    match spec.dir {
        SortDir::Asc => raw,
        SortDir::Desc => if spec.kind == SortKind::Number && raw == NUM_INVALID {
            NUM_INVALID
        } else {
            !raw
        },
    }
}

/// The key of one cell under one criterion (see `col_key_of`). `number` is
/// the number key of the cell, read by the caller.
pub fn col_key(field: Option<&[u8]>, spec: SortSpec, number: u64) -> (k: u64)
    ensures
        k == col_key_of(
            match field {
                Some(f) => Some(f@),
                None => None,
            },
            spec,
            number,
        ),
{
    let raw: u64 = match spec.kind {
        SortKind::Text => match field {
            Some(f) => text_key(f, spec.ci),
            None => 0,
        },
        SortKind::Number => match field {
            Some(_) => number,
            None => NUM_INVALID,
        },
    };
    match spec.dir {
        SortDir::Asc => raw,
        SortDir::Desc => {
            if spec.kind == SortKind::Number && raw == NUM_INVALID {
                NUM_INVALID
            } else {
                !raw
            }
        },
    }
}

/// The UTF-8 bytes of cell `col` of `line`, quotes left in, if there is one.
pub open spec fn cell_bytes(line: Seq<char>, delim: u8, col: int) -> Option<Seq<u8>> {
    if 0 <= col < raw_fields(line, delim_char(delim)).len() {
        Some(vstd::utf8::encode_utf8(raw_fields(line, delim_char(delim))[col]))
    } else {
        None
    }
}

/// The number key of criterion `k` for a row, from the table the caller
/// filled; `NUM_INVALID` where the table has none.
pub open spec fn number_at(numbers: Seq<[u64; 4]>, i: int, k: int) -> u64 {
    if 0 <= i < numbers.len() {
        numbers[i][k]
    } else {
        NUM_INVALID
    }
}

/// Key `k` of a line: its key under criterion `k`, or 0 for a criterion that
/// is not given.
pub open spec fn key_of(
    line: Seq<char>,
    specs: Seq<SortSpec>,
    delim: u8,
    number: u64,
    k: int,
) -> u64 {
    if k < specs.len() {
        col_key_of(cell_bytes(line, delim, specs[k].col as int), specs[k], number)
    } else {
        0
    }
}

/// A row to sort: its four keys and its line index.
pub type Keyed = (u64, u64, u64, u64, u32);

/// Key `k` of a line that does not exist: every cell is missing.
pub open spec fn missing_key_of(specs: Seq<SortSpec>, number: u64, k: int) -> u64 {
    if k < specs.len() {
        col_key_of(None, specs[k], number)
    } else {
        0
    }
}

/// The keyed row for line `line` (number keys from entry `i` of the table);
/// a line past the end has every cell missing.
pub open spec fn keyed_of(
    lines: Seq<String>,
    specs: Seq<SortSpec>,
    delim: u8,
    numbers: Seq<[u64; 4]>,
    i: int,
    line: int,
) -> Keyed {
    if !(0 <= line < lines.len()) {
        (
            missing_key_of(specs, number_at(numbers, i, 0), 0),
            missing_key_of(specs, number_at(numbers, i, 1), 1),
            missing_key_of(specs, number_at(numbers, i, 2), 2),
            missing_key_of(specs, number_at(numbers, i, 3), 3),
            line as u32,
        )
    } else {
    (
        key_of(lines[line]@, specs, delim, number_at(numbers, i, 0), 0),
        key_of(lines[line]@, specs, delim, number_at(numbers, i, 1), 1),
        key_of(lines[line]@, specs, delim, number_at(numbers, i, 2), 2),
        key_of(lines[line]@, specs, delim, number_at(numbers, i, 3), 3),
        line as u32,
    )
    }
}

/// Whether `a` comes no later than `b`: by the keys in turn, then by line.
pub open spec fn keyed_le(a: Keyed, b: Keyed) -> bool {
    a.0 < b.0 || (a.0 == b.0 && (a.1 < b.1 || (a.1 == b.1 && (a.2 < b.2 || (a.2 == b.2 && (a.3
        < b.3 || (a.3 == b.3 && a.4 <= b.4)))))))
}

/// Whether `s` is in ascending order.
pub open spec fn keyed_sorted(s: Seq<Keyed>) -> bool {
    forall|i: int, j: int| 0 <= i < j < s.len() ==> keyed_le(s[i], s[j])
}

/// Whether `r` lists the lines of `rows` in sorted order: some ascending
/// arrangement of the keyed rows has exactly these lines.
pub open spec fn sorted_lines_of(r: Seq<u32>, rows: Seq<Keyed>) -> bool {
    exists|s: Seq<Keyed>|
        s.to_multiset() == rows.to_multiset() && keyed_sorted(s) && r == s.map_values(
            |x: Keyed| x.4,
        )
}

/// Key `k` of line `line`, the number key taken from entry `i` of the table.
fn key_at(
    text: &str,
    specs: &[SortSpec],
    delim: u8,
    numbers: &[[u64; 4]],
    i: usize,
    k: usize,
) -> (r: u64)
    requires
        k < 4,
    ensures
        r == key_of(text@, specs@, delim, number_at(numbers@, i as int, k as int), k as int),
{
    if k >= specs.len() {
        return 0;
    }
    let spec = specs[k];
    let number = if i < numbers.len() {
        let row = numbers[i];
        row[k]
    } else {
        NUM_INVALID
    };
    match field_slice(text, delim, spec.col) {
        Some(f) => col_key(Some(f.as_str().as_bytes()), spec, number),
        None => col_key(None, spec, number),
    }
}

/// Key `k` of a line that does not exist, the number key taken from entry
/// `i` of the table.
fn missing_key_at(specs: &[SortSpec], numbers: &[[u64; 4]], i: usize, k: usize) -> (r: u64)
    requires
        k < 4,
    ensures
        r == missing_key_of(specs@, number_at(numbers@, i as int, k as int), k as int),
{
    if k >= specs.len() {
        return 0;
    }
    let number = if i < numbers.len() {
        let row = numbers[i];
        row[k]
    } else {
        NUM_INVALID
    };
    col_key(None, specs[k], number)
}

/// The keyed row of line `line`, the number keys taken from entry `i` of the
/// table; a line past the end has every cell missing.
fn keyed_row(
    lines: &[String],
    specs: &[SortSpec],
    delim: u8,
    numbers: &[[u64; 4]],
    i: usize,
    line: usize,
) -> (r: Keyed)
    ensures
        r == keyed_of(lines@, specs@, delim, numbers@, i as int, line as int),
{
    if line >= lines.len() {
        return (
            missing_key_at(specs, numbers, i, 0),
            missing_key_at(specs, numbers, i, 1),
            missing_key_at(specs, numbers, i, 2),
            missing_key_at(specs, numbers, i, 3),
            #[verifier::truncate] (line as u32),
        );
    }
    let text = lines[line].as_str();
    (
        key_at(text, specs, delim, numbers, i, 0),
        key_at(text, specs, delim, numbers, i, 1),
        key_at(text, specs, delim, numbers, i, 2),
        key_at(text, specs, delim, numbers, i, 3),
        #[verifier::truncate] (line as u32),
    )
}

/// The keyed rows of lines `start..start + n`, entry `i` from the number
/// table's entry `i`.
/// Maps `keyed_row` over the range with rayon's `into_par_iter().map(..)
/// .collect()`; claims, as rayon documents for an indexed iterator, that the
/// results come in the order of the range.
#[verifier::external_body]
fn par_keyed_range(
    lines: &[String],
    specs: &[SortSpec],
    delim: u8,
    numbers: &[[u64; 4]],
    start: usize,
    n: usize,
) -> (r: Vec<Keyed>)
    requires
        start + n <= lines@.len(),
    ensures
        r@ == Seq::new(
            n as nat,
            |i: int| keyed_of(lines@, specs@, delim, numbers@, i, start + i),
        ),
{
    (0..n).into_par_iter().map(|i| keyed_row(lines, specs, delim, numbers, i, start + i)).collect()
}

/// The keyed rows of the lines `rows`, entry `i` from the number table's
/// entry `i`.
/// Maps `keyed_row` over `rows` with rayon's `par_iter().enumerate().map(..)
/// .collect()`; claims that the results come in the order of `rows`.
#[verifier::external_body]
fn par_keyed_rows(
    lines: &[String],
    specs: &[SortSpec],
    delim: u8,
    numbers: &[[u64; 4]],
    rows: &[u32],
) -> (r: Vec<Keyed>)
    ensures
        r@ == Seq::new(
            rows@.len(),
            |i: int| keyed_of(lines@, specs@, delim, numbers@, i, rows@[i] as int),
        ),
{
    rows.par_iter().enumerate().map(|(i, &l)| keyed_row(lines, specs, delim, numbers, i, l as usize)).collect()
}

/// Sorts keyed rows in parallel, by the tuples' own order.
/// Calls rayon's `par_sort_unstable`; claims that the rows afterwards are the
/// same rows, in ascending lexicographic order (the order std documents for
/// tuples).
#[verifier::external_body]
fn par_sort_keyed(v: &mut Vec<Keyed>)
    ensures
        final(v)@.to_multiset() == old(v)@.to_multiset(),
        keyed_sorted(final(v)@),
{
    v.par_sort_unstable();
}

/// The line indices of sorted keyed rows, in order.
fn lines_of(v: Vec<Keyed>) -> (r: Vec<u32>)
    ensures
        r@ == v@.map_values(|x: Keyed| x.4),
{
    let mut r: Vec<u32> = Vec::new();
    let mut i: usize = 0;
    while i < v.len()
        invariant
            i <= v@.len(),
            r@ == v@.take(i as int).map_values(|x: Keyed| x.4),
        decreases v@.len() - i,
    {
        r.push(v[i].4);
        assert(v@.take(i + 1).map_values(|x: Keyed| x.4) =~= v@.take(i as int).map_values(
            |x: Keyed| x.4,
        ).push(v@[i as int].4));
        i += 1;
    }
    assert(v@.take(v@.len() as int) =~= v@);
    r
}

/// Sorts the data lines (`data_start..`) by `specs`, first criterion first,
/// and gives the line indices in sorted order; equal keys keep the line order.
/// `numbers[i][k]` is the number key of criterion `k` for data line `i`, read
/// by the caller (see `number_at`). No data lines or no criteria give nothing.
pub fn sort_lines(
    lines: &[String],
    specs: &[SortSpec],
    delim: u8,
    data_start: usize,
    numbers: &[[u64; 4]],
) -> (r: Vec<u32>)
    ensures
        lines@.len() <= data_start || specs@.len() == 0 ==> r@.len() == 0,
        lines@.len() > data_start && specs@.len() > 0 ==> sorted_lines_of(
            r@,
            Seq::new(
                (lines@.len() - data_start) as nat,
                |i: int| keyed_of(lines@, specs@, delim, numbers@, i, data_start + i),
            ),
        ),
        lines@.len() > data_start && specs@.len() > 0 && lines@.len() <= 0x1_0000_0000 ==> {
            &&& r@.len() == lines@.len() - data_start
            &&& forall|j: int| 0 <= j < r@.len() ==> data_start <= #[trigger] r@[j] < lines@.len()
            &&& r@.no_duplicates()
        },
{
    if lines.len() <= data_start || specs.len() == 0 {
        return Vec::new();
    }
    let n = lines.len() - data_start;
    let mut keyed = par_keyed_range(lines, specs, delim, numbers, data_start, n);
    let ghost rows = keyed@;
    par_sort_keyed(&mut keyed);
    let r = lines_of(keyed);
    proof {
        let s = keyed@;
        assert(s.to_multiset() == rows.to_multiset() && keyed_sorted(s) && r@ == s.map_values(
            |x: Keyed| x.4,
        ));
        if lines@.len() <= 0x1_0000_0000 {
            lemma_sort_lists_each_data_line_once(
                lines@,
                specs@,
                delim,
                data_start as int,
                numbers@,
                r@,
            );
        }
    }
    r
}

/// Sorts only the lines `rows` (in any order) by `specs`, as `sort_lines`
/// does; `numbers[i][k]` is the number key of criterion `k` for `rows[i]`. A
/// row past the end of `lines` sorts as a line whose cells are all missing.
/// No rows or no criteria give nothing.
pub fn sort_lines_subset(
    lines: &[String],
    specs: &[SortSpec],
    delim: u8,
    rows: &[u32],
    numbers: &[[u64; 4]],
) -> (r: Vec<u32>)
    ensures
        rows@.len() == 0 || specs@.len() == 0 ==> r@.len() == 0,
        rows@.len() > 0 && specs@.len() > 0 ==> sorted_lines_of(
            r@,
            Seq::new(
                rows@.len(),
                |i: int| keyed_of(lines@, specs@, delim, numbers@, i, rows@[i] as int),
            ),
        ),
        rows@.len() > 0 && specs@.len() > 0 ==> {
            &&& r@.len() == rows@.len()
            &&& forall|j: int| 0 <= j < r@.len() ==> rows@.contains(#[trigger] r@[j])
            &&& rows@.no_duplicates() ==> r@.no_duplicates()
        },
{
    if rows.len() == 0 || specs.len() == 0 {
        return Vec::new();
    }
    let mut keyed = par_keyed_rows(lines, specs, delim, numbers, rows);
    let ghost before = keyed@;
    par_sort_keyed(&mut keyed);
    let r = lines_of(keyed);
    proof {
        let s = keyed@;
        assert(s.to_multiset() == before.to_multiset() && keyed_sorted(s) && r@ == s.map_values(
            |x: Keyed| x.4,
        ));
        lemma_subset_sort_lists_the_rows(lines@, specs@, delim, numbers@, rows@, r@);
    }
    r
}

/// `keyed_le` is a total order on keyed rows.
pub proof fn lemma_keyed_total()
    ensures
        vstd::relations::total_ordering(|a: Keyed, b: Keyed| keyed_le(a, b)),
{
    let leq = |a: Keyed, b: Keyed| keyed_le(a, b);
    assert(vstd::relations::reflexive(leq));
    assert(vstd::relations::antisymmetric(leq)) by {
        assert forall|x: Keyed, y: Keyed| #[trigger] leq(x, y) && #[trigger] leq(y, x) implies x
            == y by {
        }
    }
    assert(vstd::relations::transitive(leq));
    assert(vstd::relations::strongly_connected(leq));
}

/// Two results that list the same rows in sorted order are equal.
pub proof fn lemma_sorted_lines_unique(r1: Seq<u32>, r2: Seq<u32>, rows: Seq<Keyed>)
    requires
        sorted_lines_of(r1, rows),
        sorted_lines_of(r2, rows),
    ensures
        r1 == r2,
{
    let s1 = choose|s: Seq<Keyed>|
        s.to_multiset() == rows.to_multiset() && keyed_sorted(s) && r1 == s.map_values(
            |x: Keyed| x.4,
        );
    let s2 = choose|s: Seq<Keyed>|
        s.to_multiset() == rows.to_multiset() && keyed_sorted(s) && r2 == s.map_values(
            |x: Keyed| x.4,
        );
    let leq = |a: Keyed, b: Keyed| keyed_le(a, b);
    lemma_keyed_total();
    assert(vstd::relations::sorted_by(s1, leq));
    assert(vstd::relations::sorted_by(s2, leq));
    vstd::seq_lib::lemma_sorted_unique(s1, s2, leq);
    assert(s1 == s2);
}

/// Sorting every data line as a subset gives the full sort: when `rows` lists
/// the data lines in order and the number table is the same, the orders that
/// `sort_lines_subset` and `sort_lines` may return are the same order.
pub proof fn lemma_subset_of_all_rows_is_full_sort(
    lines: Seq<String>,
    specs: Seq<SortSpec>,
    delim: u8,
    data_start: int,
    numbers: Seq<[u64; 4]>,
    rows: Seq<u32>,
    r_subset: Seq<u32>,
    r_full: Seq<u32>,
)
    requires
        0 <= data_start < lines.len(),
        rows.len() == lines.len() - data_start,
        forall|i: int| 0 <= i < rows.len() ==> rows[i] == data_start + i,
        sorted_lines_of(
            r_subset,
            Seq::new(rows.len(), |i: int| keyed_of(lines, specs, delim, numbers, i, rows[i] as int)),
        ),
        sorted_lines_of(
            r_full,
            Seq::new(
                (lines.len() - data_start) as nat,
                |i: int| keyed_of(lines, specs, delim, numbers, i, data_start + i),
            ),
        ),
    ensures
        r_subset == r_full,
{
    let a = Seq::new(rows.len(), |i: int| keyed_of(lines, specs, delim, numbers, i, rows[i] as int));
    let b = Seq::new(
        (lines.len() - data_start) as nat,
        |i: int| keyed_of(lines, specs, delim, numbers, i, data_start + i),
    );
    assert(a =~= b);
    lemma_sorted_lines_unique(r_subset, r_full, b);
}

/// A cell that is no number (or is missing) has the largest key in a number
/// sort, whichever the direction.
pub proof fn lemma_non_number_key(field: Option<Seq<u8>>, spec: SortSpec, number: u64)
    requires
        spec.kind == SortKind::Number,
        field is None || number == NUM_INVALID,
    ensures
        col_key_of(field, spec, number) == NUM_INVALID,
        col_key_of(field, spec, number) == u64::MAX,
{
}

/// In sorted rows, nothing follows a row whose first key is the largest but
/// rows with that key too: non-numbers come last.
pub proof fn lemma_largest_first_key_last(s: Seq<Keyed>, i: int, j: int)
    requires
        keyed_sorted(s),
        0 <= i < j < s.len(),
        s[i].0 == NUM_INVALID,
    ensures
        s[j].0 == NUM_INVALID,
{
    assert(keyed_le(s[i], s[j]));
}


/// `f` with the ASCII capitals `A`..`Z` turned into `a`..`z`, byte by byte.
pub open spec fn ascii_lowercase_bytes(f: Seq<u8>) -> Seq<u8> {
    f.map_values(|b: u8| if 65 <= b <= 90 { (b + 32) as u8 } else { b })
}

proof fn lemma_be_prefix_folded(f: Seq<u8>, k: int)
    ensures
        be_prefix(f, true, k) == be_prefix(ascii_lowercase_bytes(f), false, k),
    decreases k,
{
    if k > 0 {
        lemma_be_prefix_folded(f, k - 1);
        assert(key_byte(f, true, k - 1) == key_byte(ascii_lowercase_bytes(f), false, k - 1));
    }
}

/// Ignoring case, a text key is the key of the value in small letters, in
/// either direction: ignoring case means reading `A`..`Z` as `a`..`z`.
pub proof fn lemma_ignore_case_key_is_lowercase_key(f: Seq<u8>, spec: SortSpec, number: u64)
    requires
        spec.kind == SortKind::Text,
        spec.ci,
    ensures
        col_key_of(Some(f), spec, number) == col_key_of(
            Some(ascii_lowercase_bytes(f)),
            SortSpec { col: spec.col, kind: spec.kind, dir: spec.dir, ci: false },
            number,
        ),
{
    lemma_be_prefix_folded(f, PREFIX_LEN as int);
}

/// Ignoring case, two values that differ only in ASCII case get the same
/// key, in either direction, so they sort as equals.
pub proof fn lemma_ignore_case_same_key(f: Seq<u8>, g: Seq<u8>, spec: SortSpec, number: u64)
    requires
        spec.kind == SortKind::Text,
        spec.ci,
        ascii_lowercase_bytes(f) == ascii_lowercase_bytes(g),
    ensures
        col_key_of(Some(f), spec, number) == col_key_of(Some(g), spec, number),
{
    lemma_ignore_case_key_is_lowercase_key(f, spec, number);
    lemma_ignore_case_key_is_lowercase_key(g, spec, number);
}

/// A descending key is the bitwise complement of the ascending key of the
/// same cell under the same criterion, so descending is exactly the reverse
/// order; the one exception is a non-number in a number sort, which keeps
/// the largest key and stays last.
pub proof fn lemma_descending_key_flips_ascending(
    field: Option<Seq<u8>>,
    spec: SortSpec,
    number: u64,
)
    requires
        spec.dir == SortDir::Desc,
    ensures
        ({
            let asc = SortSpec { col: spec.col, kind: spec.kind, dir: SortDir::Asc, ci: spec.ci };
            if spec.kind == SortKind::Number && col_key_of(field, asc, number) == NUM_INVALID {
                col_key_of(field, spec, number) == NUM_INVALID
            } else {
                col_key_of(field, spec, number) == !col_key_of(field, asc, number)
            }
        }),
{
}

proof fn lemma_be_prefix_same(f: Seq<u8>, g: Seq<u8>, ci: bool, k: int)
    requires
        forall|i: int| 0 <= i < k ==> key_byte(f, ci, i) == key_byte(g, ci, i),
    ensures
        be_prefix(f, ci, k) == be_prefix(g, ci, k),
    decreases k,
{
    if k > 0 {
        lemma_be_prefix_same(f, g, ci, k - 1);
    }
}

proof fn lemma_be_prefix_apart(f: Seq<u8>, g: Seq<u8>, ci: bool, k: int, n: int)
    requires
        0 <= k < n,
        forall|i: int| 0 <= i < k ==> key_byte(f, ci, i) == key_byte(g, ci, i),
        key_byte(f, ci, k) < key_byte(g, ci, k),
    ensures
        be_prefix(f, ci, n) < be_prefix(g, ci, n),
    decreases n,
{
    if n == k + 1 {
        lemma_be_prefix_same(f, g, ci, k);
    } else {
        lemma_be_prefix_apart(f, g, ci, k, n - 1);
        let a = key_byte(f, ci, n - 1);
        let b = key_byte(g, ci, n - 1);
        assert(0 <= a < 256 && 0 <= b < 256);
    }
}

proof fn lemma_text_key_apart(f: Seq<u8>, g: Seq<u8>, k: int)
    requires
        0 <= k < PREFIX_LEN,
        forall|i: int| 0 <= i < k ==> key_byte(f, false, i) == key_byte(g, false, i),
        key_byte(f, false, k) < key_byte(g, false, k),
    ensures
        text_key_of(f, false) < text_key_of(g, false),
{
    lemma_be_prefix_apart(f, g, false, k, PREFIX_LEN as int);
    lemma_be_prefix_bound(f, false, 8);
    lemma_be_prefix_bound(g, false, 8);
    reveal_with_fuel(pow256, 9);
}

/// Text keys order values as a dictionary does over their first 8 bytes:
/// where two values first differ (within those bytes), the one with the
/// smaller byte has the smaller key.
pub proof fn lemma_text_key_orders_by_first_difference(f: Seq<u8>, g: Seq<u8>, k: int)
    requires
        0 <= k < PREFIX_LEN,
        k < f.len(),
        k < g.len(),
        forall|i: int| 0 <= i < k ==> f[i] == g[i],
        f[k] < g[k],
    ensures
        text_key_of(f, false) < text_key_of(g, false),
{
    assert forall|i: int| 0 <= i < k implies key_byte(f, false, i) == key_byte(g, false, i) by {}
    lemma_text_key_apart(f, g, k);
}

/// A shorter value that begins a longer one comes first ("ab" before
/// "abc"), when the longer one goes on within the first 8 bytes with a
/// byte other than 0.
pub proof fn lemma_text_key_prefix_first(f: Seq<u8>, g: Seq<u8>)
    requires
        f.len() < g.len(),
        f.len() < PREFIX_LEN,
        f == g.take(f.len() as int),
        g[f.len() as int] != 0,
    ensures
        text_key_of(f, false) < text_key_of(g, false),
{
    let k = f.len() as int;
    assert forall|i: int| 0 <= i < k implies key_byte(f, false, i) == key_byte(g, false, i) by {
        assert(f[i] == g.take(k)[i]);
    }
    lemma_text_key_apart(f, g, k);
}

/// Values that agree on their first 8 bytes have the same text key.
pub proof fn lemma_text_key_same_prefix(f: Seq<u8>, g: Seq<u8>, ci: bool)
    requires
        f.len() >= PREFIX_LEN,
        g.len() >= PREFIX_LEN,
        f.take(PREFIX_LEN as int) == g.take(PREFIX_LEN as int),
    ensures
        text_key_of(f, ci) == text_key_of(g, ci),
{
    assert forall|i: int| 0 <= i < PREFIX_LEN implies key_byte(f, ci, i) == key_byte(g, ci, i) by {
        assert(f[i] == f.take(PREFIX_LEN as int)[i]);
        assert(g[i] == g.take(PREFIX_LEN as int)[i]);
    }
    lemma_be_prefix_same(f, g, ci, PREFIX_LEN as int);
}

/// The lines a sorted result lists are those of the keyed rows: as many, each
/// one a row's line, and no line twice when no two rows share a line.
proof fn lemma_sorted_lines_are_row_lines(r: Seq<u32>, ks: Seq<Keyed>)
    requires
        sorted_lines_of(r, ks),
    ensures
        r.len() == ks.len(),
        forall|j: int| 0 <= j < r.len() ==> ks.map_values(|k: Keyed| k.4).contains(#[trigger] r[j]),
        (forall|a: int, b: int| 0 <= a < b < ks.len() ==> #[trigger] ks[a].4 != #[trigger] ks[b].4)
            ==> r.no_duplicates(),
{
    broadcast use vstd::seq_lib::group_to_multiset_ensures;

    let s = choose|s: Seq<Keyed>|
        s.to_multiset() == ks.to_multiset() && keyed_sorted(s) && r == s.map_values(|x: Keyed| x.4);
    assert(s.len() == ks.len()) by {
        assert(s.to_multiset().len() == ks.to_multiset().len());
    }
    assert forall|j: int| 0 <= j < s.len() implies #[trigger] ks.contains(s[j]) by {
        assert(s.contains(s[j]));
        assert(s.to_multiset().count(s[j]) > 0);
    }
    assert forall|j: int| 0 <= j < r.len() implies ks.map_values(|k: Keyed| k.4).contains(
        #[trigger] r[j],
    ) by {
        assert(ks.contains(s[j]));
        let i = choose|i: int| 0 <= i < ks.len() && ks[i] == s[j];
        assert(ks.map_values(|k: Keyed| k.4)[i] == r[j]);
    }
    if forall|a: int, b: int| 0 <= a < b < ks.len() ==> #[trigger] ks[a].4 != #[trigger] ks[b].4 {
        assert(ks.no_duplicates()) by {
            assert forall|a: int, b: int|
                0 <= a < ks.len() && 0 <= b < ks.len() && a != b implies ks[a] != ks[b] by {
                if a < b {
                    assert(ks[a].4 != ks[b].4);
                } else {
                    assert(ks[b].4 != ks[a].4);
                }
            }
        }
        ks.lemma_multiset_has_no_duplicates();
        s.lemma_multiset_has_no_duplicates_conv();
        assert forall|a: int, b: int|
            0 <= a < r.len() && 0 <= b < r.len() && a != b implies r[a] != r[b] by {
            assert(ks.contains(s[a]));
            assert(ks.contains(s[b]));
            let ia = choose|i: int| 0 <= i < ks.len() && ks[i] == s[a];
            let ib = choose|i: int| 0 <= i < ks.len() && ks[i] == s[b];
            if r[a] == r[b] {
                if ia < ib {
                    assert(ks[ia].4 != ks[ib].4);
                } else if ib < ia {
                    assert(ks[ib].4 != ks[ia].4);
                }
                assert(s[a] == s[b]);
            }
        }
    }
}

/// A multi-column sort lists line indices, not data-row offsets: every data
/// line (`data_start..`) once, and nothing else (line indices being `u32`,
/// for files of at most `2^32` lines).
pub proof fn lemma_sort_lists_each_data_line_once(
    lines: Seq<String>,
    specs: Seq<SortSpec>,
    delim: u8,
    data_start: int,
    numbers: Seq<[u64; 4]>,
    r: Seq<u32>,
)
    requires
        0 <= data_start < lines.len(),
        lines.len() <= 0x1_0000_0000,
        sorted_lines_of(
            r,
            Seq::new(
                (lines.len() - data_start) as nat,
                |i: int| keyed_of(lines, specs, delim, numbers, i, data_start + i),
            ),
        ),
    ensures
        r.len() == lines.len() - data_start,
        forall|j: int| 0 <= j < r.len() ==> data_start <= #[trigger] r[j] < lines.len(),
        r.no_duplicates(),
{
    let ks = Seq::new(
        (lines.len() - data_start) as nat,
        |i: int| keyed_of(lines, specs, delim, numbers, i, data_start + i),
    );
    assert forall|i: int| 0 <= i < ks.len() implies #[trigger] ks[i].4 == data_start + i by {}
    lemma_sorted_lines_are_row_lines(r, ks);
    assert forall|j: int| 0 <= j < r.len() implies data_start <= #[trigger] r[j] < lines.len() by {
        let m = ks.map_values(|k: Keyed| k.4);
        assert(m.contains(r[j]));
        let i = choose|i: int| 0 <= i < m.len() && #[trigger] m[i] == r[j];
        assert(ks[i].4 == data_start + i);
    }
    assert forall|a: int, b: int| 0 <= a < b < ks.len() implies #[trigger] ks[a].4
        != #[trigger] ks[b].4 by {
        assert(ks[a].4 == data_start + a);
        assert(ks[b].4 == data_start + b);
    }
}

/// Sorting a subset lists exactly the given rows: as many entries, each one
/// of the rows, and no row twice when the rows hold none twice.
pub proof fn lemma_subset_sort_lists_the_rows(
    lines: Seq<String>,
    specs: Seq<SortSpec>,
    delim: u8,
    numbers: Seq<[u64; 4]>,
    rows: Seq<u32>,
    r: Seq<u32>,
)
    requires
        sorted_lines_of(
            r,
            Seq::new(rows.len(), |i: int| keyed_of(lines, specs, delim, numbers, i, rows[i] as int)),
        ),
    ensures
        r.len() == rows.len(),
        forall|j: int| 0 <= j < r.len() ==> rows.contains(#[trigger] r[j]),
        rows.no_duplicates() ==> r.no_duplicates(),
{
    let ks = Seq::new(rows.len(), |i: int| keyed_of(lines, specs, delim, numbers, i, rows[i] as int));
    assert forall|i: int| 0 <= i < ks.len() implies #[trigger] ks[i].4 == rows[i] by {}
    lemma_sorted_lines_are_row_lines(r, ks);
    assert(ks.map_values(|k: Keyed| k.4) =~= rows);
    if rows.no_duplicates() {
        assert forall|a: int, b: int| 0 <= a < b < ks.len() implies #[trigger] ks[a].4
            != #[trigger] ks[b].4 by {
            assert(ks[a].4 == rows[a]);
            assert(ks[b].4 == rows[b]);
        }
    }
}
} // verus!
