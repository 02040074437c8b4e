//! Excel-style column filters on the data lines of the in-memory document: a
//! filter on a column passes the rows whose value there contains a text
//! (ignoring case) and is one of the chosen values; filters on several
//! columns all have to pass.
use vstd::prelude::*;
use crate::chars::{chars_of, string_from, texts};
use crate::csv::{
    delim_char, escape, field_slice, join, lemma_escape_front, lemma_raw_fields_of_join,
    needs_quote, quote_field, raw_fields,
};
use crate::edit::{is_whitespace, spec_is_whitespace};
use crate::sort::{
    keyed_of, lemma_sorted_lines_unique, number_at, sort_lines_subset, sorted_lines_of, SortSpec,
    NUM_INVALID,
};
use rayon::iter::{IntoParallelIterator, ParallelIterator};

verus! {

/// The conditions on one column. `contains`: the value must contain this text,
/// ignoring case; no condition when it is blank. `included`: the value must be
/// one of these; no condition when `None` (everything chosen).
#[derive(Debug, Clone)]
pub struct ColumnFilter {
    pub contains: String,
    pub included: Option<Vec<String>>,
}

impl Default for ColumnFilter {
    /// No condition at all.
    fn default() -> (r: Self)
        ensures
            r.contains@.len() == 0,
            r.included is None,
    {
        ColumnFilter { contains: String::new(), included: None }
    }
}

/// Whether every character of `s` is white space.
pub open spec fn blank(s: Seq<char>) -> bool {
    forall|i: int| 0 <= i < s.len() ==> spec_is_whitespace(s[i])
}

impl ColumnFilter {
    /// Whether the filter sets no condition, the same as no filter.
    pub fn is_noop(&self) -> (r: bool)
        ensures
            r == (blank(self.contains@) && self.included is None),
    {
        let cs = chars_of(self.contains.as_str());
        let mut i: usize = 0;
        while i < cs.len()
            invariant
                i <= cs@.len(),
                cs@ == self.contains@,
                forall|j: int| 0 <= j < i ==> spec_is_whitespace(cs@[j]),
            decreases cs@.len() - i,
        {
            if !is_whitespace(cs[i]) {
                return false;
            }
            i += 1;
        }
        self.included.is_none()
    }
}

/// The outcome of filtering: the indices of the data lines that pass, in
/// ascending order.
#[derive(Debug, Clone)]
pub struct FilterState {
    pub matched: Vec<u32>,
}

/// `s` with every `""` turned into `"`, read left to right.
pub open spec fn undouble(s: Seq<char>) -> Seq<char>
    decreases s.len(),
{
    if s.len() == 0 {
        Seq::empty()
    } else if s.len() >= 2 && s[0] == '"' && s[1] == '"' {
        seq!['"'] + undouble(s.skip(2))
    } else {
        seq![s[0]] + undouble(s.skip(1))
    }
}

/// The value that a raw field shows: a field wrapped in quotes loses them,
/// and its doubled quotes become single ones.
pub open spec fn display_of(f: Seq<char>) -> Seq<char> {
    if f.len() >= 2 && f[0] == '"' && f.last() == '"' {
        undouble(f.subrange(1, f.len() - 1))
    } else {
        f
    }
}

/// The value that cell `col` of `line` shows; empty when there is none.
pub open spec fn line_value(line: Seq<char>, delim: u8, col: int) -> Seq<char> {
    if 0 <= col < raw_fields(line, delim_char(delim)).len() {
        display_of(raw_fields(line, delim_char(delim))[col])
    } else {
        Seq::empty()
    }
}

/// The value that the raw field `f` shows (see `display_of`).
fn display_value(f: &str) -> (r: String)
    ensures
        r@ == display_of(f@),
{
    let cs = chars_of(f);
    let n = cs.len();
    if !(n >= 2 && cs[0] == '"' && cs[n - 1] == '"') {
        return string_from(&cs);
    }
    let ghost inner = cs@.subrange(1, n - 1);
    let mut out: Vec<char> = Vec::new();
    let mut i: usize = 1;
    assert(inner.skip(0) =~= inner);
    assert(out@ + undouble(inner) =~= undouble(inner));
    while i < n - 1
        invariant
            2 <= n == cs@.len(),
            1 <= i <= n - 1,
            inner == cs@.subrange(1, n - 1),
            out@ + undouble(inner.skip(i - 1)) == undouble(inner),
        decreases n - i,
    {
        let ghost rest = inner.skip(i - 1);
        assert(rest[0] == cs@[i as int]);
        if cs[i] == '"' && i + 1 < n - 1 && cs[i + 1] == '"' {
            assert(rest[1] == cs@[i + 1]);
            assert(rest.skip(2) =~= inner.skip(i + 1));
            out.push('"');
            assert(out@ + undouble(inner.skip(i + 1)) =~= undouble(inner));
            i = i + 2;
        } else {
            assert(rest.skip(1) =~= inner.skip(i as int));
            if i + 1 < n - 1 {
                assert(rest[1] == cs@[i + 1]);
            }
            out.push(cs[i]);
            assert(out@ + undouble(inner.skip(i as int)) =~= undouble(inner));
            i = i + 1;
        }
    }
    assert(inner.skip(i - 1) =~= Seq::<char>::empty());
    assert(out@ =~= undouble(inner));
    string_from(&out)
}

/// The value that cell `col` of `line` shows (see `line_value`).
pub fn line_field_value(line: &str, delim: u8, col: usize) -> (r: String)
    ensures
        r@ == line_value(line@, delim, col as int),
{
    match field_slice(line, delim, col) {
        Some(f) => display_value(f.as_str()),
        None => String::new(),
    }
}

/// The text that `to_lowercase` gives for `s`.
pub uninterp spec fn lower_text(s: Seq<char>) -> Seq<char>;

/// `s` in small letters.
/// Calls `str::to_lowercase`; claims the result is `lower_text` of `s`, and
/// that empty text stays empty.
#[verifier::external_body]
fn lowercase(s: &str) -> (r: String)
    ensures
        r@ == lower_text(s@),
        s@.len() == 0 ==> r@.len() == 0,
{
    s.to_lowercase()
}

/// Whether `n` occurs in `h` as a run of consecutive characters.
pub open spec fn has_substring(h: Seq<char>, n: Seq<char>) -> bool {
    exists|i: int| 0 <= i && i + n.len() <= h.len() && #[trigger] h.subrange(i, i + n.len()) == n
}

/// Whether `n` occurs in `h`.
/// Calls `str::contains` with a `&str` pattern; claims, as std documents, that
/// the result says whether `n` is a substring of `h`.
#[verifier::external_body]
fn text_contains(h: &str, n: &str) -> (r: bool)
    ensures
        r == has_substring(h@, n@),
{
    h.contains(n)
}

/// The chosen values of a filter, as texts.
pub open spec fn included_of(f: ColumnFilter) -> Option<Seq<Seq<char>>> {
    match f.included {
        Some(v) => Some(texts(v@)),
        None => None,
    }
}

/// Whether a value passes one filter, given the filter's text in small
/// letters.
pub open spec fn value_passes(value: Seq<char>, needle: Seq<char>, included: Option<
    Seq<Seq<char>>,
>) -> bool {
    &&& needle.len() == 0 || has_substring(lower_text(value), needle)
    &&& match included {
        Some(set) => set.contains(value),
        None => true,
    }
}

/// Whether `line` passes every filter.
pub open spec fn line_passes(line: Seq<char>, filters: Seq<(usize, ColumnFilter)>, delim: u8) -> bool {
    forall|k: int|
        0 <= k < filters.len() ==> value_passes(
            #[trigger] line_value(line, delim, filters[k].0 as int),
            lower_text(filters[k].1.contains@),
            included_of(filters[k].1),
        )
}

/// The lines `start..end` of `lines` that pass every filter, in order.
pub open spec fn passing_lines(
    lines: Seq<String>,
    filters: Seq<(usize, ColumnFilter)>,
    delim: u8,
    start: int,
    end: int,
) -> Seq<usize>
    decreases end - start,
{
    if end <= start {
        Seq::empty()
    } else {
        passing_lines(lines, filters, delim, start, end - 1) + if line_passes(
            lines[end - 1]@,
            filters,
            delim,
        ) {
            seq![(end - 1) as usize]
        } else {
            Seq::empty()
        }
    }
}

/// The small-letter text of each filter.
fn compile(filters: &[(usize, ColumnFilter)]) -> (r: Vec<String>)
    ensures
        r@.len() == filters@.len(),
        forall|k: int| 0 <= k < filters@.len() ==> r@[k]@ == lower_text(filters@[k].1.contains@),
{
    let mut r: Vec<String> = Vec::new();
    let mut k: usize = 0;
    while k < filters.len()
        invariant
            k <= filters@.len(),
            r@.len() == k,
            forall|j: int| 0 <= j < k ==> r@[j]@ == lower_text(filters@[j].1.contains@),
        decreases filters@.len() - k,
    {
        r.push(lowercase(filters[k].1.contains.as_str()));
        k += 1;
    }
    r
}

/// Whether `value` is one of `set`.
fn chosen(set: &Vec<String>, value: &String) -> (r: bool)
    ensures
        r == texts(set@).contains(value@),
{
    let mut i: usize = 0;
    while i < set.len()
        invariant
            i <= set@.len(),
            forall|j: int| 0 <= j < i ==> set@[j]@ != value@,
        decreases set@.len() - i,
    {
        if set[i].eq(value) {
            assert(texts(set@)[i as int] == value@);
            return true;
        }
        i += 1;
    }
    assert forall|j: int| 0 <= j < texts(set@).len() implies texts(set@)[j] != value@ by {
        assert(texts(set@)[j] == set@[j]@);
    }
    false
}

/// Whether line `l` passes every filter; `needles` holds the filters' texts
/// in small letters.
fn row_passes(
    lines: &[String],
    filters: &[(usize, ColumnFilter)],
    needles: &[String],
    delim: u8,
    l: usize,
) -> (r: bool)
    requires
        l < lines@.len(),
        needles@.len() == filters@.len(),
        forall|k: int|
            0 <= k < filters@.len() ==> needles@[k]@ == lower_text(filters@[k].1.contains@),
    ensures
        r == line_passes(lines@[l as int]@, filters@, delim),
{
    let line = lines[l].as_str();
    let mut k: usize = 0;
    while k < filters.len()
        invariant
            k <= filters@.len() == needles@.len(),
            l < lines@.len(),
            line@ == lines@[l as int]@,
            forall|j: int|
                0 <= j < filters@.len() ==> needles@[j]@ == lower_text(filters@[j].1.contains@),
            forall|j: int|
                0 <= j < k ==> value_passes(
                    #[trigger] line_value(line@, delim, filters@[j].0 as int),
                    lower_text(filters@[j].1.contains@),
                    included_of(filters@[j].1),
                ),
        decreases filters@.len() - k,
    {
        let col = filters[k].0;
        let value = line_field_value(line, delim, col);
        let needle = needles[k].as_str();
        if !needle.is_empty() {
            let lower = lowercase(value.as_str());
            if !text_contains(lower.as_str(), needle) {
                return false;
            }
        }
        match &filters[k].1.included {
            Some(set) => {
                if !chosen(set, &value) {
                    return false;
                }
            },
            None => {},
        }
        k += 1;
    }
    true
}

/// The lines `start..lines.len()` that pass every filter, in order.
/// Filters with rayon's `into_par_iter().filter(..).collect()`, the filter
/// calling `row_passes`; claims, as rayon's collection into a `Vec` keeps the
/// order of the range, the passing lines in ascending order.
#[verifier::external_body]
fn par_passing_lines(
    lines: &[String],
    filters: &[(usize, ColumnFilter)],
    needles: &[String],
    delim: u8,
    start: usize,
) -> (r: Vec<usize>)
    requires
        needles@.len() == filters@.len(),
        forall|k: int|
            0 <= k < filters@.len() ==> needles@[k]@ == lower_text(filters@[k].1.contains@),
    ensures
        r@ == passing_lines(lines@, filters@, delim, start as int, lines@.len() as int),
{
    (start..lines.len()).into_par_iter().filter(|&l| row_passes(lines, filters, needles, delim, l)).collect()
}

/// With no filter, every line passes: the passing lines are all the lines, in
/// order.
pub proof fn lemma_no_filter_passes_all(
    lines: Seq<String>,
    filters: Seq<(usize, ColumnFilter)>,
    delim: u8,
    start: int,
    end: int,
)
    requires
        filters.len() == 0,
        0 <= start <= end,
    ensures
        passing_lines(lines, filters, delim, start, end) == Seq::new(
            (end - start) as nat,
            |i: int| (start + i) as usize,
        ),
    decreases end - start,
{
    if end > start {
        lemma_no_filter_passes_all(lines, filters, delim, start, end - 1);
        assert(line_passes(lines[end - 1]@, filters, delim));
        assert(passing_lines(lines, filters, delim, start, end) =~= Seq::new(
            (end - start) as nat,
            |i: int| (start + i) as usize,
        ));
    } else {
        assert(passing_lines(lines, filters, delim, start, end) =~= Seq::<usize>::empty());
    }
}

/// Every data line, when there is no filter.
fn all_lines(
    lines: &[String],
    filters: &[(usize, ColumnFilter)],
    delim: u8,
    data_start: usize,
) -> (r: Vec<u32>)
    requires
        filters@.len() == 0,
        data_start < lines@.len(),
    ensures
        r@ == passing_lines(
            lines@,
            filters@,
            delim,
            data_start as int,
            lines@.len() as int,
        ).map_values(|l: usize| l as u32),
{
    proof {
        lemma_no_filter_passes_all(lines@, filters@, delim, data_start as int, lines@.len() as int);
    }
    let mut r: Vec<u32> = Vec::new();
    let mut l = data_start;
    while l < lines.len()
        invariant
            data_start <= l <= lines@.len(),
            r@ == Seq::new((l - data_start) as nat, |i: int| (data_start + i) as usize).map_values(
                |x: usize| x as u32,
            ),
        decreases lines@.len() - l,
    {
        r.push(#[verifier::truncate] (l as u32));
        assert(r@ =~= Seq::new((l + 1 - data_start) as nat, |i: int| (data_start + i) as usize).map_values(
            |x: usize| x as u32,
        ));
        l += 1;
    }
    r
}


/// The data lines (`data_start..`) that pass every filter, ascending, as
/// `u32` indices. With no filter every data line passes.
pub fn apply_filters_lines(
    lines: &[String],
    filters: &[(usize, ColumnFilter)],
    delim: u8,
    data_start: usize,
) -> (r: Vec<u32>)
    ensures
        lines@.len() <= data_start ==> r@.len() == 0,
        lines@.len() > data_start ==> r@ == passing_lines(
            lines@,
            filters@,
            delim,
            data_start as int,
            lines@.len() as int,
        ).map_values(|l: usize| l as u32),
{
    if lines.len() <= data_start {
        return Vec::new();
    }
    if filters.len() == 0 {
        return all_lines(lines, filters, delim, data_start);
    }
    let needles = compile(filters);
    let passing = par_passing_lines(lines, filters, &needles, delim, data_start);
    let mut r: Vec<u32> = Vec::new();
    let mut i: usize = 0;
    while i < passing.len()
        invariant
            i <= passing@.len(),
            r@ == passing@.take(i as int).map_values(|l: usize| l as u32),
        decreases passing@.len() - i,
    {
        r.push(#[verifier::truncate] (passing[i] as u32));
        assert(r@ =~= passing@.take(i + 1).map_values(|l: usize| l as u32));
        i += 1;
    }
    assert(passing@.take(passing@.len() as int) =~= passing@);
    r
}

/// The lines that pass the filters, as `apply_filters_lines` gives them.
pub open spec fn matched_lines(
    lines: Seq<String>,
    filters: Seq<(usize, ColumnFilter)>,
    delim: u8,
    data_start: int,
) -> Seq<u32> {
    if lines.len() <= data_start {
        Seq::empty()
    } else {
        passing_lines(lines, filters, delim, data_start, lines.len() as int).map_values(
            |l: usize| l as u32,
        )
    }
}

/// Filters the data lines (`data_start..`) and, when sort criteria are given,
/// sorts the lines that pass, as `sort_lines_subset` does; without criteria
/// the passing lines stay in ascending order. `numbers[i][k]` is the number
/// key of criterion `k` for data line `i`.
pub fn filter_and_sort(
    lines: &[String],
    filters: &[(usize, ColumnFilter)],
    specs: &[SortSpec],
    delim: u8,
    data_start: usize,
    numbers: &[[u64; 4]],
) -> (r: Vec<u32>)
    ensures
        ({
            let m = matched_lines(lines@, filters@, delim, data_start as int);
            &&& specs@.len() == 0 ==> r@ == m
            &&& specs@.len() > 0 && m.len() == 0 ==> r@.len() == 0
            &&& specs@.len() > 0 && m.len() > 0 ==> sorted_lines_of(
                r@,
                Seq::new(
                    m.len(),
                    |i: int|
                        keyed_of(
                            lines@,
                            specs@,
                            delim,
                            numbers@,
                            m[i] as int - data_start,
                            m[i] as int,
                        ),
                ),
            )
        }),
{
    let matched = apply_filters_lines(lines, filters, delim, data_start);
    if specs.len() == 0 {
        return matched;
    }
    let mut picked: Vec<[u64; 4]> = Vec::new();
    let mut i: usize = 0;
    while i < matched.len()
        invariant
            i <= matched@.len(),
            picked@.len() == i,
            forall|j: int, k: int|
                0 <= j < i && 0 <= k < 4 ==> number_at(picked@, j, k) == number_at(
                    numbers@,
                    matched@[j] as int - data_start,
                    k,
                ),
        decreases matched@.len() - i,
    {
        let l = matched[i] as usize;
        let row: [u64; 4] = if l >= data_start && l - data_start < numbers.len() {
            numbers[l - data_start]
        } else {
            [NUM_INVALID, NUM_INVALID, NUM_INVALID, NUM_INVALID]
        };
        let ghost before = picked@;
        picked.push(row);
        proof {
            assert(l as int == matched@[i as int] as int);
            assert forall|j: int, k: int|
                0 <= j < i + 1 && 0 <= k < 4 implies number_at(picked@, j, k) == number_at(
                numbers@,
                matched@[j] as int - data_start,
                k,
            ) by {
                if j < i {
                    assert(picked@[j] == before[j]);
                    assert(number_at(before, j, k) == number_at(
                        numbers@,
                        matched@[j] as int - data_start,
                        k,
                    ));
                    assert(number_at(picked@, j, k) == number_at(before, j, k));
                } else {
                    assert(j == i);
                    assert(picked@[j] == row);
                    assert(number_at(picked@, j, k) == row[k]);
                    let x = matched@[j] as int - data_start;
                    if l >= data_start && l - data_start < numbers@.len() {
                        assert(row == numbers@[l - data_start]);
                        assert(x == l - data_start);
                        assert(number_at(numbers@, x, k) == numbers@[x][k]);
                    } else {
                        assert(row[k] == NUM_INVALID);
                        assert(!(0 <= x < numbers@.len()));
                        assert(number_at(numbers@, x, k) == NUM_INVALID);
                    }
                }
            }
        }
        i += 1;
    }
    let r = sort_lines_subset(lines, specs, delim, &matched, &picked);
    proof {
        let m = matched@;
        let a = Seq::new(m.len(), |i: int| keyed_of(lines@, specs@, delim, picked@, i, m[i] as int));
        let b = Seq::new(
            m.len(),
            |i: int| keyed_of(lines@, specs@, delim, numbers@, m[i] as int - data_start, m[i] as int),
        );
        assert forall|j: int| 0 <= j < m.len() implies a[j] == b[j] by {
            assert(number_at(picked@, j, 0) == number_at(numbers@, m[j] as int - data_start, 0));
            assert(number_at(picked@, j, 1) == number_at(numbers@, m[j] as int - data_start, 1));
            assert(number_at(picked@, j, 2) == number_at(numbers@, m[j] as int - data_start, 2));
            assert(number_at(picked@, j, 3) == number_at(numbers@, m[j] as int - data_start, 3));
        }
        assert(a =~= b);
    }
    r
}


/// With no filter, filtering then sorting is the full sort: the orders that
/// `filter_and_sort` and `sort_lines` may return for the same lines, criteria
/// and number table are the same order (line numbers being `u32`, for files
/// of at most `u32::MAX` lines).
pub proof fn lemma_unfiltered_sort_is_full_sort(
    lines: Seq<String>,
    filters: Seq<(usize, ColumnFilter)>,
    specs: Seq<SortSpec>,
    delim: u8,
    data_start: int,
    numbers: Seq<[u64; 4]>,
    r_filtered: Seq<u32>,
    r_full: Seq<u32>,
)
    requires
        filters.len() == 0,
        specs.len() > 0,
        0 <= data_start < lines.len(),
        lines.len() <= u32::MAX,
        sorted_lines_of(
            r_filtered,
            Seq::new(
                matched_lines(lines, filters, delim, data_start).len(),
                |i: int|
                    keyed_of(
                        lines,
                        specs,
                        delim,
                        numbers,
                        matched_lines(lines, filters, delim, data_start)[i] as int - data_start,
                        matched_lines(lines, filters, delim, data_start)[i] as int,
                    ),
            ),
        ),
        sorted_lines_of(
            r_full,
            Seq::new(
                (lines.len() - data_start) as nat,
                |i: int| keyed_of(lines, specs, delim, numbers, i, data_start + i),
            ),
        ),
    ensures
        r_filtered == r_full,
{
    let m = matched_lines(lines, filters, delim, data_start);
    lemma_no_filter_passes_all(lines, filters, delim, data_start, lines.len() as int);
    assert forall|i: int| 0 <= i < m.len() implies m[i] as int == data_start + i by {
        assert(m[i] == ((data_start + i) as usize) as u32);
    }
    let a = Seq::new(
        m.len(),
        |i: int| keyed_of(lines, specs, delim, numbers, m[i] as int - data_start, m[i] as int),
    );
    let b = Seq::new(
        (lines.len() - data_start) as nat,
        |i: int| keyed_of(lines, specs, delim, numbers, i, data_start + i),
    );
    assert(a =~= b);
    lemma_sorted_lines_unique(r_filtered, r_full, b);
}

/// Undoubling the quotes of an escaped value gives the value back.
pub proof fn lemma_undouble_escape(v: Seq<char>)
    ensures
        undouble(escape(v)) == v,
    decreases v.len(),
{
    if v.len() > 0 {
        lemma_escape_front(v);
        lemma_undouble_escape(v.drop_first());
        let rest = escape(v.drop_first());
        let e = escape(v);
        if v[0] == '"' {
            assert(e =~= seq!['"', '"'] + rest);
            assert(e.skip(2) =~= rest);
        } else {
            assert(e =~= seq![v[0]] + rest);
            assert(e.skip(1) =~= rest);
        }
        assert(v =~= seq![v[0]] + v.drop_first());
    } else {
        assert(escape(v) =~= Seq::<char>::empty());
    }
}

/// A value written as a field shows as itself: whether `quote_field` wraps
/// it in quotes (doubling every quote inside) or leaves it bare, the shown
/// value of the field is the value, with no doubled quote left.
pub proof fn lemma_shown_value_of_written_field(v: Seq<char>, d: char)
    ensures
        display_of(quote_field(v, d)) == v,
{
    if needs_quote(v, d) {
        let e = escape(v);
        let f = seq!['"'] + e + seq!['"'];
        assert(f.subrange(1, f.len() - 1) =~= e);
        lemma_undouble_escape(v);
    } else {
        if v.len() >= 2 && v[0] == '"' {
            assert(needs_quote(v, d));
        }
    }
}

/// Filters see the values that were written: in a line that joins the values
/// `fs`, cell `col` shows `fs[col]`, quotes and all.
pub proof fn lemma_line_value_of_joined(fs: Seq<Seq<char>>, delim: u8, col: int)
    requires
        delim_char(delim) != '"',
        fs.len() >= 1,
        0 <= col < fs.len(),
    ensures
        line_value(join(fs, delim_char(delim)), delim, col) == fs[col],
{
    let d = delim_char(delim);
    let s = join(fs, d);
    assert(s.skip(0) =~= s);
    lemma_raw_fields_of_join(s, 0, fs, d);
    lemma_shown_value_of_written_field(fs[col], d);
}
} // verus!
