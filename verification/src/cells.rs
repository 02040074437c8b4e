//! Grid operations on the lines of a delimited document: a line is a row and
//! its fields (see `csv`) are the cells.
use vstd::prelude::*;
use crate::chars::{chars_of, string_from, texts};
use crate::csv::{
    delim_char, delim_to_char, field_ranges, fields, join, join_fields, lemma_split_join,
    push_unquoted, raw_fields, split_fields, unquote, ranges_match,
};
use crate::edit::{split_chars, split_on, views};
use vstd::slice::SliceAdditionalExecFns;

verus! {

/// `c` with line breaks turned into spaces.
pub open spec fn sanitize_char(c: char) -> char {
    if c == '\n' || c == '\r' {
        ' '
    } else {
        c
    }
}

/// A cell value with every `\n` and `\r` replaced by a space.
pub open spec fn sanitize(s: Seq<char>) -> Seq<char> {
    s.map_values(|c: char| sanitize_char(c))
}

/// A cell value cannot hold a line break: each `\n` and `\r` becomes a space.
pub fn sanitize_cell_value(value: &str) -> (r: String)
    ensures
        r@ == sanitize(value@),
{
    let cs = chars_of(value);
    let mut out: Vec<char> = Vec::new();
    let mut i: usize = 0;
    while i < cs.len()
        invariant
            i <= cs@.len(),
            out@ == sanitize(cs@.take(i as int)),
        decreases cs@.len() - i,
    {
        let c = cs[i];
        out.push(if c == '\n' || c == '\r' {
            ' '
        } else {
            c
        });
        assert(out@ =~= sanitize(cs@.take(i + 1)));
        i += 1;
    }
    assert(cs@.take(cs@.len() as int) =~= cs@);
    string_from(&out)
}

/// `fs` padded with empty values up to `n` entries.
pub open spec fn padded(fs: Seq<Seq<char>>, n: int) -> Seq<Seq<char>> {
    if fs.len() >= n {
        fs
    } else {
        fs + Seq::new((n - fs.len()) as nat, |i: int| Seq::<char>::empty())
    }
}

/// The line after cell `col` of `l` is set to `value`.
pub open spec fn with_cell(l: Seq<char>, col: int, value: Seq<char>, d: char) -> Seq<char> {
    join(padded(fields(l, d), col + 1).update(col, sanitize(value)), d)
}

/// Pads `fs` with empty strings up to `n` entries.
fn pad_strings(fs: &mut Vec<String>, n: usize)
    ensures
        texts(final(fs)@) == padded(texts(old(fs)@), n as int),
        final(fs)@.len() == if old(fs)@.len() >= n {
            old(fs)@.len()
        } else {
            n as nat
        },
{
    if fs.len() >= n {
        return;
    }
    let ghost start = texts(fs@);
    while fs.len() < n
        invariant
            start.len() < n,
            start.len() <= fs@.len() <= n,
            texts(fs@) == padded(start, fs@.len() as int),
        decreases n - fs@.len(),
    {
        let e = String::new();
        let ghost before = fs@;
        fs.push(e);
        assert(fs@ == before.push(e));
        assert forall|i: int| 0 <= i < fs@.len() implies #[trigger] texts(fs@)[i] == padded(start, fs@.len() as int)[i] by {
            if i < before.len() {
                assert(texts(before)[i] == before[i]@);
                assert(padded(start, before.len() as int)[i] == padded(start, fs@.len() as int)[i]);
            }
        }
        assert(texts(fs@) =~= padded(start, fs@.len() as int));
    }
}

/// Sets cell `col` of line `logical` to `value` (line breaks turned into
/// spaces), padding the line with empty cells when it has fewer.
pub fn set_cell(lines: &mut [String], logical: usize, col: usize, value: &str, delim: u8)
    requires
        logical < old(lines)@.len(),
        col < usize::MAX,
    ensures
        texts(final(lines)@) == texts(old(lines)@).update(
            logical as int,
            with_cell(texts(old(lines)@)[logical as int], col as int, value@, delim_char(delim)),
        ),
{
    let v = sanitize_cell_value(value);
    let mut fs = split_fields(lines[logical].as_str(), delim);
    pad_strings(&mut fs, col + 1);
    fs.set(col, v);
    let joined = join_fields(&fs, delim);
    proof {
        assert(texts(fs@) =~= padded(fields(texts(old(lines)@)[logical as int], delim_char(delim)), col + 1).update(col as int, sanitize(value@)));
    }
    lines.set(logical, joined);
    assert(texts(lines@) =~= texts(old(lines)@).update(
        logical as int,
        with_cell(texts(old(lines)@)[logical as int], col as int, value@, delim_char(delim)),
    ));
}

/// Copying one cell gives the value that splitting its line gives for it, or
/// nothing when the line has no such cell.
pub proof fn lemma_copy_cell_is_split_value(t: Seq<Seq<char>>, r: int, c: int, d: char)
    requires
        0 <= r < t.len(),
        0 <= c,
    ensures
        grid_tsv(t, r, r + 1, c, c, d) == if c < fields(t[r], d).len() {
            fields(t[r], d)[c]
        } else {
            Seq::<char>::empty()
        },
{
}

/// A written cell reads back: after cell `col` of a line is set to `value`,
/// splitting the line gives `value` with its line breaks turned into spaces at
/// `col`, the old values elsewhere, and empty values for the cells that had to
/// be added. This holds for every delimiter but `"`.
pub proof fn lemma_set_cell_reads_back(l: Seq<char>, col: int, value: Seq<char>, d: char)
    requires
        d != '"',
        0 <= col,
    ensures
        fields(with_cell(l, col, value, d), d) == padded(fields(l, d), col + 1).update(
            col,
            sanitize(value),
        ),
        grid_tsv(seq![with_cell(l, col, value, d)], 0, 1, col, col, d) == sanitize(value),
{
    let x = padded(fields(l, d), col + 1).update(col, sanitize(value));
    assert(x.len() >= col + 1);
    lemma_split_join(x, d);
    lemma_copy_cell_is_split_value(seq![with_cell(l, col, value, d)], 0, col, d);
}

/// A cleared block reads back empty: after cells `c0..=c1` of a line are
/// cleared, splitting the line gives empty values there and the old values
/// elsewhere (for every delimiter but `"`).
pub proof fn lemma_clear_reads_back(l: Seq<char>, c0: int, c1: int, d: char, c: int)
    requires
        d != '"',
        0 <= c0 <= c1,
        0 <= c,
    ensures
        c0 <= c <= c1 ==> cell_value(cleared_line(l, c0, c1, d), c, d).len() == 0,
        !(c0 <= c <= c1) ==> cell_value(cleared_line(l, c0, c1, d), c, d) == cell_value(l, c, d),
{
    let fs = fields(l, d);
    if !cells_blank(l, c0, c1, d) {
        let e = emptied(fs, c0, c1);
        crate::csv::lemma_field_count(l, d);
        lemma_split_join(e, d);
        let x = cleared_line(l, c0, c1, d);
        assert(fields(x, d) == e);
        assert(raw_fields(x, d).len() == e.len());
        if c < e.len() {
            assert(fields(x, d)[c] == unquote(raw_fields(x, d)[c]));
            assert(fs[c] == unquote(raw_fields(l, d)[c]));
        }
    } else if c0 <= c <= c1 && c < raw_fields(l, d).len() {
        assert(raw_fields(l, d)[c].len() == 0);
    }
}

/// Pasted cells read back: after pasting `tsv` at row `r0`, column `c0`,
/// cell `j` of pasted row `i` splits to that cell of the text (line breaks
/// turned into spaces), and the cells of the row outside the pasted columns
/// keep their values (for every delimiter but `"`).
pub proof fn lemma_paste_reads_back(
    t: Seq<Seq<char>>,
    r0: int,
    c0: int,
    tsv: Seq<char>,
    d: char,
    i: int,
    c: int,
)
    requires
        d != '"',
        0 <= r0,
        0 <= c0,
        0 <= i < split_on(tsv, '\n').len(),
        0 <= c,
    ensures
        ({
            let cells = split_on(split_on(tsv, '\n')[i], '\t');
            let got = fields(pasted_grid(t, r0, c0, tsv, d)[r0 + i], d);
            let before = fields(base_line(t, r0 + i), d);
            &&& c0 <= c < c0 + cells.len() ==> got[c] == sanitize(cells[c - c0])
            &&& !(c0 <= c < c0 + cells.len()) && c < before.len() ==> got[c] == before[c]
        }),
{
    let rows = split_on(tsv, '\n');
    let cells = split_on(rows[i], '\t');
    crate::edit::lemma_split_on_len(rows[i], '\t');
    let x = paste_into(fields(base_line(t, r0 + i), d), c0, cells);
    assert(x.len() >= 1);
    lemma_split_join(x, d);
}

/// Whether the raw cells `c0..=c1` of `l` are all empty or missing.
pub open spec fn cells_blank(l: Seq<char>, c0: int, c1: int, d: char) -> bool {
    forall|c: int|
        c0 <= c <= c1 && c < raw_fields(l, d).len() ==> #[trigger] raw_fields(l, d)[c].len() == 0
}

/// `fs` with the values at `c0..=c1` emptied.
pub open spec fn emptied(fs: Seq<Seq<char>>, c0: int, c1: int) -> Seq<Seq<char>> {
    Seq::new(
        fs.len(),
        |i: int|
            if c0 <= i <= c1 {
                Seq::<char>::empty()
            } else {
                fs[i]
            },
    )
}

/// Line `l` after its cells `c0..=c1` are cleared. A line whose cells there
/// are already empty is kept character for character.
pub open spec fn cleared_line(l: Seq<char>, c0: int, c1: int, d: char) -> Seq<char> {
    if cells_blank(l, c0, c1, d) {
        l
    } else {
        join(emptied(fields(l, d), c0, c1), d)
    }
}

pub open spec fn min(a: int, b: int) -> int {
    if a <= b {
        a
    } else {
        b
    }
}

pub open spec fn max(a: int, b: int) -> int {
    if a <= b {
        b
    } else {
        a
    }
}

/// Line `line` with its cells `lo..=hi` emptied, or `None` when they are all
/// empty already.
fn clear_row(line: &str, lo: usize, hi: usize, delim: u8) -> (r: Option<String>)
    requires
        lo <= hi,
    ensures
        r is None ==> cells_blank(line@, lo as int, hi as int, delim_char(delim)),
        r matches Some(x) ==> !cells_blank(line@, lo as int, hi as int, delim_char(delim)) && x@
            == join(emptied(fields(line@, delim_char(delim)), lo as int, hi as int), delim_char(delim)),
{
    let d = delim_to_char(delim);
    let cs = chars_of(line);
    let ranges = field_ranges(&cs, d);
    let mut c = lo;
    while c < ranges.len() && c <= hi
        invariant
            lo <= c,
            lo <= hi,
            cs@ == line@,
            d == delim_char(delim),
            ranges_match(ranges@, cs@, d),
            forall|j: int|
                lo <= j < c && j < raw_fields(cs@, d).len() ==> #[trigger] raw_fields(cs@, d)[j].len()
                    == 0,
        decreases ranges@.len() - c,
    {
        let (a, b) = ranges[c];
        if a != b {
            assert(raw_fields(cs@, d)[c as int].len() != 0);
            assert(!cells_blank(line@, lo as int, hi as int, delim_char(delim)));
            let mut fs = split_fields(line, delim);
            let ghost orig = texts(fs@);
            let mut k = lo;
            while k < fs.len() && k <= hi
                invariant
                    lo <= k <= hi + 1,
                    fs@.len() == orig.len(),
                    forall|j: int|
                        0 <= j < orig.len() ==> #[trigger] texts(fs@)[j] == if lo <= j < k {
                            Seq::<char>::empty()
                        } else {
                            orig[j]
                        },
                decreases orig.len() - k,
            {
                let e = String::new();
                let ghost before = fs@;
                fs.set(k, e);
                assert(fs@ == before.update(k as int, e));
                assert forall|j: int| 0 <= j < orig.len() implies #[trigger] texts(fs@)[j] == if lo
                    <= j < k + 1 {
                    Seq::<char>::empty()
                } else {
                    orig[j]
                } by {
                    assert(texts(before)[j] == before[j]@);
                }
                k += 1;
            }
            assert(texts(fs@) =~= emptied(orig, lo as int, hi as int));
            assert(orig == fields(line@, delim_char(delim)));
            let x = join_fields(&fs, delim);
            assert(x@ == join(emptied(fields(line@, delim_char(delim)), lo as int, hi as int), delim_char(delim)));
            return Some(x);
        }
        c += 1;
    }
    None
}

/// Clears every cell of the rectangle rows `r0..=r1` x columns `c0..=c1`
/// (either corner first).
pub fn clear_cells(lines: &mut [String], r0: usize, c0: usize, r1: usize, c1: usize, delim: u8)
    ensures
        final(lines)@.len() == old(lines)@.len(),
        forall|r: int|
            0 <= r < old(lines)@.len() ==> #[trigger] texts(final(lines)@)[r] == if min(
                r0 as int,
                r1 as int,
            ) <= r <= max(r0 as int, r1 as int) {
                cleared_line(
                    texts(old(lines)@)[r],
                    min(c0 as int, c1 as int),
                    max(c0 as int, c1 as int),
                    delim_char(delim),
                )
            } else {
                texts(old(lines)@)[r]
            },
{
    let (lo_r, hi_r) = if r0 <= r1 {
        (r0, r1)
    } else {
        (r1, r0)
    };
    let (lo_c, hi_c) = if c0 <= c1 {
        (c0, c1)
    } else {
        (c1, c0)
    };
    let d = delim_to_char(delim);
    let ghost t = texts(lines@);
    let n = lines.len();
    if lo_r >= n {
        return;
    }
    let last = if hi_r < n {
        hi_r
    } else {
        n - 1
    };
    let mut r = lo_r;
    loop
        invariant
            lo_r <= r <= last < n == lines@.len() == t.len(),
            lo_c <= hi_c,
            lo_r == min(r0 as int, r1 as int),
            hi_r == max(r0 as int, r1 as int),
            lo_c == min(c0 as int, c1 as int),
            hi_c == max(c0 as int, c1 as int),
            last == min(hi_r as int, n - 1),
            d == delim_char(delim),
            t == texts(old(lines)@),
            forall|k: int|
                0 <= k < n ==> #[trigger] texts(lines@)[k] == if lo_r <= k < r {
                    cleared_line(t[k], lo_c as int, hi_c as int, d)
                } else {
                    t[k]
                },
        decreases last - r,
    {
        assert(texts(lines@)[r as int] == lines@[r as int]@);
        let res = clear_row(lines[r].as_str(), lo_c, hi_c, delim);
        if let Some(joined) = res {
            let ghost before = lines@;
            lines.set(r, joined);
            assert(texts(lines@)[r as int] == joined@);
            assert forall|j: int| 0 <= j < n && j != r implies texts(lines@)[j] == texts(before)[j] by {
                assert(lines@[j] == before[j]);
            }
            assert forall|k: int| 0 <= k < n && k != r implies #[trigger] texts(lines@)[k] == if lo_r <= k < r {
                    cleared_line(t[k], lo_c as int, hi_c as int, d)
                } else {
                    t[k]
                } by {
                assert(texts(lines@)[k] == texts(before)[k]);
            }
        }
        assert(texts(lines@)[r as int] == cleared_line(t[r as int], lo_c as int, hi_c as int, d));
        if r == last {
            assert forall|k: int| 0 <= k < n implies #[trigger] texts(lines@)[k] == if min(
                r0 as int,
                r1 as int,
            ) <= k <= max(r0 as int, r1 as int) {
                cleared_line(t[k], min(c0 as int, c1 as int), max(c0 as int, c1 as int), d)
            } else {
                t[k]
            } by {
                if k == r {
                } else {
                    assert(texts(lines@)[k] == if lo_r <= k < r {
                        cleared_line(t[k], lo_c as int, hi_c as int, d)
                    } else {
                        t[k]
                    });
                }
            }
            return;
        }
        r += 1;
    }
}

/// The value of cell `c` of line `l`; empty when the line has no such cell.
pub open spec fn cell_value(l: Seq<char>, c: int, d: char) -> Seq<char> {
    if 0 <= c < raw_fields(l, d).len() {
        unquote(raw_fields(l, d)[c])
    } else {
        Seq::empty()
    }
}

/// The cells `c0..hi` of line `l`, separated by tabs.
pub open spec fn row_tsv(l: Seq<char>, c0: int, hi: int, d: char) -> Seq<char>
    decreases hi - c0,
{
    if hi <= c0 {
        Seq::empty()
    } else if hi == c0 + 1 {
        cell_value(l, c0, d)
    } else {
        row_tsv(l, c0, hi - 1, d) + seq!['\t'] + cell_value(l, hi - 1, d)
    }
}

/// Row `r` of the copied rectangle: empty past the last line.
pub open spec fn row_text(t: Seq<Seq<char>>, r: int, c0: int, c1: int, d: char) -> Seq<char> {
    if 0 <= r < t.len() {
        row_tsv(t[r], c0, c1 + 1, d)
    } else {
        Seq::empty()
    }
}

/// Rows `r0..hi` of the copied rectangle, separated by line breaks.
pub open spec fn grid_tsv(t: Seq<Seq<char>>, r0: int, hi: int, c0: int, c1: int, d: char) -> Seq<
    char,
>
    decreases hi - r0,
{
    if hi <= r0 {
        Seq::empty()
    } else if hi == r0 + 1 {
        row_text(t, r0, c0, c1, d)
    } else {
        grid_tsv(t, r0, hi - 1, c0, c1, d) + seq!['\n'] + row_text(t, hi - 1, c0, c1, d)
    }
}

/// The rectangle rows `r0..=r1` x columns `c0..=c1` (either corner first) as
/// tab-separated text: cells by `\t`, rows by `\n`, values unquoted.
pub fn cells_to_tsv(lines: &[String], r0: usize, c0: usize, r1: usize, c1: usize, delim: u8) -> (r:
    String)
    ensures
        r@ == grid_tsv(
            texts(lines@),
            min(r0 as int, r1 as int),
            max(r0 as int, r1 as int) + 1,
            min(c0 as int, c1 as int),
            max(c0 as int, c1 as int),
            delim_char(delim),
        ),
{
    let (lo_r, hi_r) = if r0 <= r1 {
        (r0, r1)
    } else {
        (r1, r0)
    };
    let (lo_c, hi_c) = if c0 <= c1 {
        (c0, c1)
    } else {
        (c1, c0)
    };
    let d = delim_to_char(delim);
    let ghost t = texts(lines@);
    let mut out: Vec<char> = Vec::new();
    let mut r = lo_r;
    loop
        invariant_except_break
            lo_r <= r <= hi_r,
            out@ == grid_tsv(t, lo_r as int, r as int, lo_c as int, hi_c as int, d),
        invariant
            lo_c <= hi_c,
            t == texts(lines@),
            d == delim_char(delim),
        ensures
            out@ == grid_tsv(t, lo_r as int, hi_r + 1, lo_c as int, hi_c as int, d),
        decreases hi_r - r,
    {
        if r > lo_r {
            out.push('\n');
        }
        let ghost pre = out@;
        if r < lines.len() {
            let line = chars_of(lines[r].as_str());
            assert(t[r as int] == lines@[r as int]@);
            let ranges = field_ranges(&line, d);
            let mut c = lo_c;
            loop
                invariant_except_break
                    lo_c <= c <= hi_c,
                    out@ == pre + row_tsv(line@, lo_c as int, c as int, d),
                invariant
                    line@ == t[r as int],
                    ranges_match(ranges@, line@, d),
                ensures
                    out@ == pre + row_tsv(line@, lo_c as int, hi_c + 1, d),
                decreases hi_c - c,
            {
                if c > lo_c {
                    out.push('\t');
                }
                if c < ranges.len() {
                    let (a, b) = ranges[c];
                    push_unquoted(&mut out, &line, a, b);
                }
                assert(out@ =~= pre + row_tsv(line@, lo_c as int, c + 1, d));
                if c == hi_c {
                    break;
                }
                c += 1;
            }
            assert(out@ =~= pre + row_text(t, r as int, lo_c as int, hi_c as int, d));
        } else {
            assert(out@ =~= pre + row_text(t, r as int, lo_c as int, hi_c as int, d));
        }
        assert(out@ =~= grid_tsv(t, lo_r as int, r + 1, lo_c as int, hi_c as int, d));
        if r == hi_r {
            break;
        }
        r += 1;
    }
    string_from(&out)
}


/// `fs` with the values `cells` (line breaks turned into spaces) written from
/// index `c0` on, padded with empty values where needed.
pub open spec fn paste_into(fs: Seq<Seq<char>>, c0: int, cells: Seq<Seq<char>>) -> Seq<Seq<char>> {
    Seq::new(
        max(fs.len() as int, c0 + cells.len()) as nat,
        |i: int|
            if c0 <= i < c0 + cells.len() {
                sanitize(cells[i - c0])
            } else if i < fs.len() {
                fs[i]
            } else {
                Seq::<char>::empty()
            },
    )
}

/// Line `r` before the paste: empty for the lines that the paste adds.
pub open spec fn base_line(t: Seq<Seq<char>>, r: int) -> Seq<char> {
    if r < t.len() {
        t[r]
    } else {
        Seq::empty()
    }
}

/// The text after pasting the tab-separated `tsv` with its top-left cell at
/// row `r0`, column `c0`.
pub open spec fn pasted_grid(t: Seq<Seq<char>>, r0: int, c0: int, tsv: Seq<char>, d: char) -> Seq<
    Seq<char>,
> {
    let rows = split_on(tsv, '\n');
    Seq::new(
        max(t.len() as int, r0 + rows.len()) as nat,
        |r: int|
            if r0 <= r < r0 + rows.len() {
                join(paste_into(fields(base_line(t, r), d), c0, split_on(rows[r - r0], '\t')), d)
            } else {
                base_line(t, r)
            },
    )
}

/// Whether pasting `tsv` at row `r0`, column `c0` stays within `usize` indices.
pub open spec fn paste_fits(r0: int, c0: int, tsv: Seq<char>) -> bool {
    &&& r0 + split_on(tsv, '\n').len() <= usize::MAX + 1
    &&& forall|k: int|
        0 <= k < split_on(tsv, '\n').len() ==> c0 + #[trigger] split_on(split_on(tsv, '\n')[k], '\t').len()
            <= usize::MAX
}

/// The characters `v` with line breaks turned into spaces.
fn sanitized(v: &[char]) -> (r: String)
    ensures
        r@ == sanitize(v@),
{
    let mut out: Vec<char> = Vec::new();
    let mut i: usize = 0;
    while i < v.len()
        invariant
            i <= v@.len(),
            out@ == sanitize(v@.take(i as int)),
        decreases v@.len() - i,
    {
        let c = v[i];
        out.push(if c == '\n' || c == '\r' {
            ' '
        } else {
            c
        });
        assert(out@ =~= sanitize(v@.take(i + 1)));
        i += 1;
    }
    assert(v@.take(v@.len() as int) =~= v@);
    string_from(&out)
}

/// The line `line` with the values `cells` written from column `c0` on.
fn paste_row(line: &str, c0: usize, cells: &Vec<Vec<char>>, delim: u8) -> (r: String)
    requires
        cells@.len() >= 1,
        c0 + cells@.len() <= usize::MAX,
    ensures
        r@ == join(paste_into(fields(line@, delim_char(delim)), c0 as int, views(cells@)), delim_char(delim)),
{
    let mut fs = split_fields(line, delim);
    let ghost orig = texts(fs@);
    let mut dc: usize = 0;
    while dc < cells.len()
        invariant
            dc <= cells@.len(),
            c0 + cells@.len() <= usize::MAX,
            texts(fs@) == if dc == 0 {
                orig
            } else {
                paste_into(orig, c0 as int, views(cells@).take(dc as int))
            },
        decreases cells@.len() - dc,
    {
        let c = c0 + dc;
        let v = sanitized(&cells[dc]);
        let ghost before = texts(fs@);
        pad_strings(&mut fs, c + 1);
        let ghost mid = fs@;
        fs.set(c, v);
        assert(fs@ == mid.update(c as int, v));
        assert(texts(fs@) =~= texts(mid).update(c as int, v@));
        assert(views(cells@).take(dc + 1) =~= views(cells@).take(dc as int).push(cells@[dc as int]@));
        assert(texts(fs@) =~= paste_into(orig, c0 as int, views(cells@).take(dc + 1)));
        dc += 1;
    }
    assert(views(cells@).take(cells@.len() as int) =~= views(cells@));
    join_fields(&fs, delim)
}

/// Pastes tab-separated text with its top-left cell at row `r0`, column `c0`:
/// rows by `\n`, cells by `\t`. Rows and cells are added where the grid ends;
/// line breaks inside the pasted values become spaces.
pub fn paste_tsv(lines: &mut Vec<String>, r0: usize, c0: usize, tsv: &str, delim: u8)
    requires
        paste_fits(r0 as int, c0 as int, tsv@),
    ensures
        texts(final(lines)@) == pasted_grid(texts(old(lines)@), r0 as int, c0 as int, tsv@, delim_char(delim)),
{
    let ghost t = texts(lines@);
    let d = delim_to_char(delim);
    let tc = chars_of(tsv);
    let rows = split_chars(&tc, '\n');
    proof {
        crate::edit::lemma_split_on_len(tsv@, '\n');
    }
    let mut dr: usize = 0;
    while dr < rows.len()
        invariant
            dr <= rows@.len(),
            rows@.len() >= 1,
            t == texts(old(lines)@),
            d == delim_char(delim),
            views(rows@) == split_on(tsv@, '\n'),
            paste_fits(r0 as int, c0 as int, tsv@),
            lines@.len() == if dr == 0 {
                t.len() as int
            } else {
                max(t.len() as int, r0 + dr)
            },
            forall|r: int|
                0 <= r < lines@.len() ==> #[trigger] texts(lines@)[r] == if r0 <= r < r0 + dr {
                    pasted_grid(t, r0 as int, c0 as int, tsv@, d)[r]
                } else {
                    base_line(t, r)
                },
        decreases rows@.len() - dr,
    {
        let r = r0 + dr;
        let ghost start_len = lines@.len();
        while r >= lines.len()
            invariant
                r <= usize::MAX,
                start_len <= lines@.len(),
                lines@.len() <= start_len || lines@.len() <= r + 1,
                lines@.len() >= t.len(),
                dr > 0 ==> lines@.len() >= r0 + dr,
                forall|k: int|
                    0 <= k < lines@.len() ==> #[trigger] texts(lines@)[k] == if r0 <= k < r0 + dr {
                        pasted_grid(t, r0 as int, c0 as int, tsv@, d)[k]
                    } else {
                        base_line(t, k)
                    },
            decreases r + 1 - lines@.len(),
        {
            let e = String::new();
            let ghost before = lines@;
            lines.push(e);
            assert forall|k: int|
                0 <= k < lines@.len() implies #[trigger] texts(lines@)[k] == if r0 <= k < r0 + dr {
                    pasted_grid(t, r0 as int, c0 as int, tsv@, d)[k]
                } else {
                    base_line(t, k)
                } by {
                if k < before.len() {
                    assert(lines@[k] == before[k]);
                    assert(texts(before)[k] == before[k]@);
                } else {
                    assert(lines@[k] == e);
                }
            }
        }
        let cells = split_chars(&rows[dr], '\t');
        proof {
            crate::edit::lemma_split_on_len(rows@[dr as int]@, '\t');
            assert(views(rows@)[dr as int] == rows@[dr as int]@);
        }
        let ghost old_line = texts(lines@)[r as int];
        assert(old_line == base_line(t, r as int));
        let newl = paste_row(lines[r].as_str(), c0, &cells, delim);
        let ghost before = lines@;
        lines.set(r, newl);
        assert forall|k: int|
            0 <= k < lines@.len() implies #[trigger] texts(lines@)[k] == if r0 <= k < r0 + dr + 1 {
                pasted_grid(t, r0 as int, c0 as int, tsv@, d)[k]
            } else {
                base_line(t, k)
            } by {
            if k != r {
                assert(lines@[k] == before[k]);
                assert(texts(before)[k] == before[k]@);
            }
        }
        dr += 1;
    }
    assert(texts(lines@) =~= pasted_grid(t, r0 as int, c0 as int, tsv@, d));
}

} // verus!
