//! One delimited record (a line without its terminator), split into fields and
//! joined back.
//!
//! The dialect: a field that starts with `"` is quoted. Inside the quotes `""`
//! stands for one `"`, a lone `"` closes the quotes, and whatever follows the
//! closing quote up to the next delimiter is taken literally. A field that does
//! not start with `"` is taken literally, inner quotes included. A line always
//! has at least one field.
use vstd::prelude::*;
use crate::chars::{chars_of, extend_chars, string_from, sub_chars, texts};

verus! {

/// End (exclusive) of the field being scanned at `i`; `q` says whether the scan
/// is inside quotes.
pub open spec fn scan_end(s: Seq<char>, i: int, q: bool, d: char) -> int
    decreases s.len() - i,
{
    if i >= s.len() {
        s.len() as int
    } else if q {
        if s[i] == '"' {
            if i + 1 < s.len() && s[i + 1] == '"' {
                scan_end(s, i + 2, true, d)
            } else {
                scan_end(s, i + 1, false, d)
            }
        } else {
            scan_end(s, i + 1, true, d)
        }
    } else if s[i] == d {
        i
    } else {
        scan_end(s, i + 1, false, d)
    }
}

/// End (exclusive) of the raw field that starts at `start`.
pub open spec fn field_end(s: Seq<char>, start: int, d: char) -> int {
    if start < s.len() && s[start] == '"' {
        scan_end(s, start + 1, true, d)
    } else {
        scan_end(s, start, false, d)
    }
}

pub proof fn lemma_scan_end_bounds(s: Seq<char>, i: int, q: bool, d: char)
    requires
        0 <= i <= s.len(),
    ensures
        i <= scan_end(s, i, q, d) <= s.len(),
        scan_end(s, i, q, d) < s.len() ==> s[scan_end(s, i, q, d)] == d,
    decreases s.len() - i,
{
    if i < s.len() {
        if q {
            if s[i] == '"' {
                if i + 1 < s.len() && s[i + 1] == '"' {
                    lemma_scan_end_bounds(s, i + 2, true, d);
                } else {
                    lemma_scan_end_bounds(s, i + 1, false, d);
                }
            } else {
                lemma_scan_end_bounds(s, i + 1, true, d);
            }
        } else if s[i] != d {
            lemma_scan_end_bounds(s, i + 1, false, d);
        }
    }
}

pub proof fn lemma_field_end_bounds(s: Seq<char>, start: int, d: char)
    requires
        0 <= start <= s.len(),
    ensures
        start <= field_end(s, start, d) <= s.len(),
        field_end(s, start, d) < s.len() ==> s[field_end(s, start, d)] == d,
{
    if start < s.len() && s[start] == '"' {
        lemma_scan_end_bounds(s, start + 1, true, d);
    } else {
        lemma_scan_end_bounds(s, start, false, d);
    }
}

/// The raw fields (quotes left in) from position `start` on.
pub open spec fn raw_fields_from(s: Seq<char>, start: int, d: char) -> Seq<Seq<char>>
    decreases s.len() - start,
{
    if start < 0 || start > s.len() {
        Seq::empty()
    } else {
        let e = field_end(s, start, d);
        if e >= s.len() {
            seq![s.subrange(start, s.len() as int)]
        } else {
            proof {
                lemma_field_end_bounds(s, start, d);
            }
            seq![s.subrange(start, e)] + raw_fields_from(s, e + 1, d)
        }
    }
}

/// The raw fields of a line, quotes left in, in order.
pub open spec fn raw_fields(s: Seq<char>, d: char) -> Seq<Seq<char>> {
    raw_fields_from(s, 0, d)
}

/// Unquoting from position `i` of a raw field; `q` says whether inside quotes.
pub open spec fn unq(f: Seq<char>, i: int, q: bool) -> Seq<char>
    decreases f.len() - i,
{
    if i >= f.len() {
        Seq::empty()
    } else if q && f[i] == '"' {
        if i + 1 < f.len() && f[i + 1] == '"' {
            seq!['"'] + unq(f, i + 2, true)
        } else {
            unq(f, i + 1, false)
        }
    } else {
        seq![f[i]] + unq(f, i + 1, q)
    }
}

/// The value that a raw field stands for.
pub open spec fn unquote(f: Seq<char>) -> Seq<char> {
    if f.len() > 0 && f[0] == '"' {
        unq(f, 1, true)
    } else {
        f
    }
}

/// The field values of a line.
pub open spec fn fields(s: Seq<char>, d: char) -> Seq<Seq<char>> {
    raw_fields(s, d).map_values(|f: Seq<char>| unquote(f))
}

/// Whether a value must be quoted to survive a split.
pub open spec fn needs_quote(f: Seq<char>, d: char) -> bool {
    exists|i: int| 0 <= i < f.len() && (f[i] == d || f[i] == '"' || f[i] == '\r' || f[i] == '\n')
}

/// `f` with every `"` doubled.
pub open spec fn escape(f: Seq<char>) -> Seq<char>
    decreases f.len(),
{
    if f.len() == 0 {
        Seq::empty()
    } else {
        escape(f.drop_last()) + if f.last() == '"' {
            seq!['"', '"']
        } else {
            seq![f.last()]
        }
    }
}

/// The text that stands for the value `f` in a line.
pub open spec fn quote_field(f: Seq<char>, d: char) -> Seq<char> {
    if needs_quote(f, d) {
        seq!['"'] + escape(f) + seq!['"']
    } else {
        f
    }
}

/// The line that holds the values `fs`.
pub open spec fn join(fs: Seq<Seq<char>>, d: char) -> Seq<char>
    decreases fs.len(),
{
    if fs.len() == 0 {
        Seq::empty()
    } else if fs.len() == 1 {
        quote_field(fs[0], d)
    } else {
        join(fs.drop_last(), d) + seq![d] + quote_field(fs.last(), d)
    }
}

/// The delimiter byte as the character that it stands for in a line.
pub open spec fn delim_char(delim: u8) -> char {
    delim as char
}

pub fn delim_to_char(delim: u8) -> (c: char)
    ensures
        c == delim_char(delim),
{
    delim as char
}

/// End (exclusive) of the raw field of `s` that starts at `start`.
pub fn field_end_at(s: &[char], start: usize, d: char) -> (e: usize)
    requires
        start <= s@.len(),
    ensures
        e == field_end(s@, start as int, d),
        start <= e <= s@.len(),
        e < s@.len() ==> s@[e as int] == d,
{
    proof {
        lemma_field_end_bounds(s@, start as int, d);
    }
    let n = s.len();
    let mut i = start;
    let mut q = false;
    if start < n && s[start] == '"' {
        i = start + 1;
        q = true;
    }
    while i < n
        invariant
            start <= i <= n == s@.len(),
            scan_end(s@, i as int, q, d) == field_end(s@, start as int, d),
        decreases n - i,
    {
        if q {
            if s[i] == '"' {
                if i + 1 < n && s[i + 1] == '"' {
                    i = i + 2;
                } else {
                    i = i + 1;
                    q = false;
                }
            } else {
                i = i + 1;
            }
        } else if s[i] == d {
            return i;
        } else {
            i = i + 1;
        }
    }
    n
}

/// `r` holds, in order, the character ranges of the raw fields of `s`.
pub open spec fn ranges_match(r: Seq<(usize, usize)>, s: Seq<char>, d: char) -> bool {
    &&& r.len() == raw_fields(s, d).len()
    &&& forall|k: int|
        0 <= k < r.len() ==> #[trigger] r[k].0 <= r[k].1 <= s.len() && s.subrange(
            r[k].0 as int,
            r[k].1 as int,
        ) == raw_fields(s, d)[k]
}

/// The character ranges of the raw fields of `s`.
pub fn field_ranges(s: &[char], d: char) -> (r: Vec<(usize, usize)>)
    ensures
        ranges_match(r@, s@, d),
{
    let mut r: Vec<(usize, usize)> = Vec::new();
    let mut start: usize = 0;
    let n = s.len();
    loop
        invariant
            start <= n == s@.len(),
            forall|k: int|
                0 <= k < r@.len() ==> #[trigger] r@[k].0 <= r@[k].1 <= s@.len() && s@.subrange(
                    r@[k].0 as int,
                    r@[k].1 as int,
                ) == raw_fields(s@, d)[k],
            raw_fields(s@, d) == r@.map_values(
                |p: (usize, usize)| s@.subrange(p.0 as int, p.1 as int),
            ) + raw_fields_from(s@, start as int, d),
        decreases n - start,
    {
        let e = field_end_at(s, start, d);
        let ghost before = r@;
        r.push((start, e));
        assert(r@.map_values(|p: (usize, usize)| s@.subrange(p.0 as int, p.1 as int))
            =~= before.map_values(|p: (usize, usize)| s@.subrange(p.0 as int, p.1 as int)).push(
            s@.subrange(start as int, e as int),
        ));
        if e >= n {
            assert(raw_fields_from(s@, start as int, d) == seq![s@.subrange(start as int, n as int)]);
            assert(raw_fields(s@, d) =~= r@.map_values(
                |p: (usize, usize)| s@.subrange(p.0 as int, p.1 as int),
            ));
            assert forall|k: int| 0 <= k < r@.len() implies #[trigger] r@[k].0 <= r@[k].1 <= s@.len()
                && s@.subrange(r@[k].0 as int, r@[k].1 as int) == raw_fields(s@, d)[k] by {
                if k < before.len() {
                } else {
                    assert(r@.map_values(|p: (usize, usize)| s@.subrange(p.0 as int, p.1 as int))[k]
                        == s@.subrange(r@[k].0 as int, r@[k].1 as int));
                }
            }
            return r;
        }
        assert(raw_fields_from(s@, start as int, d) == seq![s@.subrange(start as int, e as int)]
            + raw_fields_from(s@, e + 1, d));
        assert(raw_fields(s@, d) =~= r@.map_values(
            |p: (usize, usize)| s@.subrange(p.0 as int, p.1 as int),
        ) + raw_fields_from(s@, e + 1, d));
        assert forall|k: int| 0 <= k < r@.len() implies #[trigger] r@[k].0 <= r@[k].1 <= s@.len()
            && s@.subrange(r@[k].0 as int, r@[k].1 as int) == raw_fields(s@, d)[k] by {
            if k < before.len() {
            } else {
                assert(r@.map_values(|p: (usize, usize)| s@.subrange(p.0 as int, p.1 as int))[k]
                    == s@.subrange(r@[k].0 as int, r@[k].1 as int));
            }
        }
        start = e + 1;
    }
}

/// The value of the raw field `f[lo..hi]`, appended to `out`.
pub fn push_unquoted(out: &mut Vec<char>, f: &[char], lo: usize, hi: usize)
    requires
        lo <= hi <= f@.len(),
    ensures
        final(out)@ == old(out)@ + unquote(f@.subrange(lo as int, hi as int)),
{
    let ghost g = f@.subrange(lo as int, hi as int);
    if lo == hi || f[lo] != '"' {
        let part = sub_chars(f, lo, hi);
        extend_chars(out, &part);
        return;
    }
    let mut i = lo + 1;
    let mut q = true;
    while i < hi
        invariant
            lo < i <= hi <= f@.len(),
            g == f@.subrange(lo as int, hi as int),
            old(out)@ + unquote(g) == out@ + unq(g, i - lo, q),
        decreases hi - i,
    {
        if q && f[i] == '"' {
            if i + 1 < hi && f[i + 1] == '"' {
                out.push('"');
                assert(old(out)@ + unquote(g) =~= out@ + unq(g, i + 2 - lo, true));
                i = i + 2;
            } else {
                q = false;
                i = i + 1;
            }
        } else {
            let c = f[i];
            out.push(c);
            assert(old(out)@ + unquote(g) =~= out@ + unq(g, i + 1 - lo, q));
            i = i + 1;
        }
    }
    assert(out@ + unq(g, i - lo, q) =~= out@);
}


/// The field values of `line`, in order.
pub fn split_fields(line: &str, delim: u8) -> (r: Vec<String>)
    ensures
        texts(r@) == fields(line@, delim_char(delim)),
{
    let d = delim_to_char(delim);
    let s = chars_of(line);
    let ranges = field_ranges(&s, d);
    let mut r: Vec<String> = Vec::new();
    let mut k: usize = 0;
    while k < ranges.len()
        invariant
            k <= ranges@.len(),
            s@ == line@,
            ranges_match(ranges@, s@, d),
            texts(r@) == fields(s@, d).take(k as int),
        decreases ranges@.len() - k,
    {
        let (lo, hi) = ranges[k];
        let mut v: Vec<char> = Vec::new();
        push_unquoted(&mut v, &s, lo, hi);
        let t = string_from(&v);
        let ghost before = r@;
        r.push(t);
        assert(fields(s@, d)[k as int] == unquote(raw_fields(s@, d)[k as int]));
        assert(texts(r@) =~= texts(before).push(t@));
        assert(texts(r@) =~= fields(s@, d).take(k + 1));
        k += 1;
    }
    assert(fields(s@, d).take(k as int) =~= fields(s@, d));
    r
}

/// The raw text of field `col` of `line`, quotes left in; `None` when the line
/// has fewer fields.
pub fn field_slice(line: &str, delim: u8, col: usize) -> (r: Option<String>)
    ensures
        r matches Some(f) ==> col < raw_fields(line@, delim_char(delim)).len() && f@ == raw_fields(
            line@,
            delim_char(delim),
        )[col as int],
        r is None ==> col >= raw_fields(line@, delim_char(delim)).len(),
{
    let d = delim_to_char(delim);
    let s = chars_of(line);
    let ranges = field_ranges(&s, d);
    if col < ranges.len() {
        let (lo, hi) = ranges[col];
        let v = sub_chars(&s, lo, hi);
        Some(string_from(&v))
    } else {
        None
    }
}

/// Whether the value `f` must be quoted.
fn must_quote(f: &[char], d: char) -> (b: bool)
    ensures
        b == needs_quote(f@, d),
{
    let mut i: usize = 0;
    while i < f.len()
        invariant
            i <= f@.len(),
            forall|j: int|
                0 <= j < i ==> !(f@[j] == d || f@[j] == '"' || f@[j] == '\r' || f@[j] == '\n'),
        decreases f@.len() - i,
    {
        let c = f[i];
        if c == d || c == '"' || c == '\r' || c == '\n' {
            return true;
        }
        i += 1;
    }
    false
}

/// Appends the text that stands for the value `f` to `out`.
fn push_quoted(out: &mut Vec<char>, f: &[char], d: char)
    ensures
        final(out)@ == old(out)@ + quote_field(f@, d),
{
    if !must_quote(f, d) {
        extend_chars(out, f);
        return;
    }
    out.push('"');
    let ghost start = out@;
    let mut i: usize = 0;
    while i < f.len()
        invariant
            i <= f@.len(),
            out@ == start + escape(f@.take(i as int)),
        decreases f@.len() - i,
    {
        let c = f[i];
        assert(f@.take(i + 1).drop_last() =~= f@.take(i as int));
        if c == '"' {
            out.push('"');
            out.push('"');
        } else {
            out.push(c);
        }
        assert(out@ =~= start + escape(f@.take(i + 1)));
        i += 1;
    }
    assert(f@.take(f@.len() as int) =~= f@);
    out.push('"');
    assert(out@ =~= old(out)@ + quote_field(f@, d));
}

/// The line that holds the values `fs`, joined by `delim`.
pub fn join_fields(fs: &[String], delim: u8) -> (r: String)
    ensures
        r@ == join(texts(fs@), delim_char(delim)),
{
    let d = delim_to_char(delim);
    let mut out: Vec<char> = Vec::new();
    let mut k: usize = 0;
    while k < fs.len()
        invariant
            k <= fs@.len(),
            out@ == join(texts(fs@).take(k as int), d),
        decreases fs@.len() - k,
    {
        let ghost before = out@;
        if k > 0 {
            out.push(d);
        }
        let cs = chars_of(fs[k].as_str());
        push_quoted(&mut out, &cs, d);
        assert(texts(fs@).take(k + 1).drop_last() =~= texts(fs@).take(k as int));
        assert(out@ =~= join(texts(fs@).take(k + 1), d));
        k += 1;
    }
    assert(texts(fs@).take(fs@.len() as int) =~= texts(fs@));
    string_from(&out)
}

/// The text that stands for one character of a quoted value.
pub open spec fn escape_char(c: char) -> Seq<char> {
    if c == '"' {
        seq!['"', '"']
    } else {
        seq![c]
    }
}

/// Escaping from the front: the first character escaped, then the rest.
pub proof fn lemma_escape_front(f: Seq<char>)
    requires
        f.len() > 0,
    ensures
        escape(f) == escape_char(f[0]) + escape(f.drop_first()),
    decreases f.len(),
{
    if f.len() == 1 {
        assert(f.drop_last() =~= Seq::<char>::empty());
        assert(f.drop_first() =~= Seq::<char>::empty());
        assert(escape(f) =~= escape_char(f[0]));
    } else {
        lemma_escape_front(f.drop_last());
        assert(f.drop_last().drop_first() =~= f.drop_first().drop_last());
        assert(f.drop_first().last() == f.last());
        assert(escape(f) =~= escape_char(f[0]) + escape(f.drop_first()));
    }
}

proof fn lemma_join_front(fs: Seq<Seq<char>>, d: char)
    requires
        fs.len() >= 2,
    ensures
        join(fs, d) == quote_field(fs[0], d) + seq![d] + join(fs.drop_first(), d),
    decreases fs.len(),
{
    if fs.len() == 2 {
        assert(fs.drop_last() =~= seq![fs[0]]);
        assert(fs.drop_first() =~= seq![fs[1]]);
        assert(join(seq![fs[0]], d) == quote_field(fs[0], d));
        assert(join(seq![fs[1]], d) == quote_field(fs[1], d));
        assert(fs.last() == fs[1]);
    } else {
        lemma_join_front(fs.drop_last(), d);
        assert(fs.drop_last().drop_first() =~= fs.drop_first().drop_last());
        assert(fs.drop_first().last() == fs.last());
        assert(join(fs, d) =~= quote_field(fs[0], d) + seq![d] + join(fs.drop_first(), d));
    }
}

/// Outside quotes, a scan runs over characters other than the delimiter.
proof fn lemma_scan_plain(s: Seq<char>, i: int, e: int, d: char)
    requires
        0 <= i <= e <= s.len(),
        forall|x: int| i <= x < e ==> s[x] != d,
    ensures
        scan_end(s, i, false, d) == scan_end(s, e, false, d),
    decreases e - i,
{
    if i < e {
        lemma_scan_plain(s, i + 1, e, d);
    }
}

/// Inside quotes, a scan runs over an escaped value and stops after the
/// closing quote, at the delimiter or the end of the line.
proof fn lemma_scan_quoted(s: Seq<char>, i: int, f: Seq<char>, d: char)
    requires
        d != '"',
        0 <= i,
        i + escape(f).len() + 1 <= s.len(),
        s.subrange(i, i + escape(f).len() + 1) == escape(f) + seq!['"'],
        i + escape(f).len() + 1 == s.len() || s[i + escape(f).len() + 1] == d,
    ensures
        scan_end(s, i, true, d) == i + escape(f).len() + 1,
    decreases f.len(),
{
    let j = i + escape(f).len();
    if f.len() == 0 {
        assert(escape(f) =~= Seq::<char>::empty());
        assert(s[i] == s.subrange(i, j + 1)[0]);
        assert(s[i] == '"');
        if i + 1 < s.len() {
            assert(s[i + 1] == d);
        }
        assert(scan_end(s, i + 1, false, d) == i + 1);
        assert(scan_end(s, i, true, d) == scan_end(s, i + 1, false, d));
    } else {
        lemma_escape_front(f);
        let g = f.drop_first();
        let w = escape_char(f[0]).len() as int;
        assert(s[i] == s.subrange(i, j + 1)[0]);
        assert((escape(f) + seq!['"'])[0] == escape_char(f[0])[0]);
        assert(escape(f).len() == w + escape(g).len());
        assert(s.subrange(i + w, i + w + escape(g).len() + 1) =~= escape(g) + seq!['"']) by {
            assert forall|x: int| 0 <= x < escape(g).len() + 1 implies s.subrange(
                i + w,
                i + w + escape(g).len() + 1,
            )[x] == (escape(g) + seq!['"'])[x] by {
                assert(s.subrange(i, j + 1)[x + w] == s[i + w + x]);
            }
        }
        if f[0] == '"' {
            assert(s[i + 1] == s.subrange(i, j + 1)[1]);
            assert((escape(f) + seq!['"'])[1] == escape_char(f[0])[1]);
        }
        lemma_scan_quoted(s, i + w, g, d);
        if f[0] == '"' {
            assert(scan_end(s, i, true, d) == scan_end(s, i + 2, true, d));
        } else {
            assert(s[i] != '"');
            assert(scan_end(s, i, true, d) == scan_end(s, i + 1, true, d));
        }
    }
}

/// Unquoting an escaped value that is followed by the closing quote gives the
/// value back.
proof fn lemma_unq_escaped(x: Seq<char>, i: int, f: Seq<char>)
    requires
        0 <= i <= x.len(),
        x.skip(i) == escape(f) + seq!['"'],
    ensures
        unq(x, i, true) == f,
    decreases f.len(),
{
    assert(x.skip(i).len() == x.len() - i);
    assert(x.len() == i + escape(f).len() + 1);
    if f.len() == 0 {
        assert(escape(f) =~= Seq::<char>::empty());
        assert(x[i] == x.skip(i)[0]);
        assert(unq(x, i + 1, false) =~= Seq::<char>::empty());
    } else {
        lemma_escape_front(f);
        let g = f.drop_first();
        let w = escape_char(f[0]).len() as int;
        assert(x[i] == x.skip(i)[0]);
        assert((escape(f) + seq!['"'])[0] == escape_char(f[0])[0]);
        assert(x.skip(i + w) =~= escape(g) + seq!['"']) by {
            assert forall|k: int| 0 <= k < escape(g).len() + 1 implies x.skip(i + w)[k] == (escape(g)
                + seq!['"'])[k] by {
                assert(x.skip(i)[k + w] == x[i + w + k]);
            }
        }
        if f[0] == '"' {
            assert(x[i + 1] == x.skip(i)[1]);
            assert((escape(f) + seq!['"'])[1] == escape_char(f[0])[1]);
        }
        lemma_unq_escaped(x, i + w, g);
        assert(unq(x, i, true) =~= f);
    }
}

/// A value written into a line reads back unchanged.
proof fn lemma_unquote_quoted(f: Seq<char>, d: char)
    ensures
        unquote(quote_field(f, d)) == f,
{
    if needs_quote(f, d) {
        let x = seq!['"'] + escape(f) + seq!['"'];
        assert(x.skip(1) =~= escape(f) + seq!['"']);
        lemma_unq_escaped(x, 1, f);
    } else if f.len() > 0 {
        assert(f[0] != '"');
    }
}

/// The written text of one value ends where the field scan of a line that
/// holds it at `k` ends.
proof fn lemma_field_end_quoted(s: Seq<char>, k: int, f: Seq<char>, d: char)
    requires
        d != '"',
        0 <= k,
        k + quote_field(f, d).len() <= s.len(),
        s.subrange(k, k + quote_field(f, d).len()) == quote_field(f, d),
        k + quote_field(f, d).len() == s.len() || s[k + quote_field(f, d).len()] == d,
    ensures
        field_end(s, k, d) == k + quote_field(f, d).len(),
{
    let e = k + quote_field(f, d).len();
    if needs_quote(f, d) {
        assert(s[k] == s.subrange(k, e)[0]);
        assert(s.subrange(k + 1, e) =~= escape(f) + seq!['"']) by {
            assert forall|x: int| 0 <= x < e - k - 1 implies s.subrange(k + 1, e)[x] == (escape(f)
                + seq!['"'])[x] by {
                assert(s.subrange(k, e)[x + 1] == s[k + 1 + x]);
            }
        }
        lemma_scan_quoted(s, k + 1, f, d);
    } else {
        assert forall|x: int| k <= x < e implies s[x] != d by {
            assert(s.subrange(k, e)[x - k] == s[x]);
            assert(f[x - k] != d);
        }
        if k < s.len() && s[k] == '"' {
            assert(f.len() > 0 && f[0] == s.subrange(k, e)[0]);
        }
        lemma_scan_plain(s, k, e, d);
    }
}

/// The raw fields of a line that ends with the written values `fs`, from the
/// start of the first one on, are those written texts.
pub proof fn lemma_raw_fields_of_join(s: Seq<char>, k: int, fs: Seq<Seq<char>>, d: char)
    requires
        d != '"',
        fs.len() >= 1,
        0 <= k <= s.len(),
        s.skip(k) == join(fs, d),
    ensures
        raw_fields_from(s, k, d) == fs.map_values(|f: Seq<char>| quote_field(f, d)),
    decreases fs.len(),
{
    let q = quote_field(fs[0], d);
    let e = k + q.len();
    if fs.len() == 1 {
        assert(join(fs, d) == q);
        assert(s.skip(k).len() == s.len() - k);
        assert(s.subrange(k, e) =~= q) by {
            assert forall|x: int| 0 <= x < q.len() implies s.subrange(k, e)[x] == q[x] by {
                assert(s.skip(k)[x] == s[k + x]);
            }
        }
        lemma_field_end_quoted(s, k, fs[0], d);
        assert(raw_fields_from(s, k, d) =~= fs.map_values(|f: Seq<char>| quote_field(f, d)));
    } else {
        lemma_join_front(fs, d);
        let rest = join(fs.drop_first(), d);
        let j = join(fs, d);
        assert(j.len() == q.len() + 1 + rest.len());
        assert(s.skip(k).len() == s.len() - k);
        assert(forall|x: int| 0 <= x < j.len() ==> s.skip(k)[x] == s[k + x]);
        assert(forall|x: int| 0 <= x < q.len() ==> j[x] == q[x]);
        assert(j[q.len() as int] == d);
        assert(forall|x: int| 0 <= x < rest.len() ==> j[q.len() + 1 + x] == rest[x]);
        assert(s.subrange(k, e) =~= q) by {
            assert forall|x: int| 0 <= x < q.len() implies s.subrange(k, e)[x] == q[x] by {
                assert(s.skip(k)[x] == s[k + x]);
            }
        }
        assert(s[e] == d) by {
            assert(s.skip(k)[q.len() as int] == s[e]);
        }
        lemma_field_end_quoted(s, k, fs[0], d);
        assert(s.skip(e + 1) =~= rest) by {
            assert forall|x: int| 0 <= x < rest.len() implies s.skip(e + 1)[x] == rest[x] by {
                assert(s.skip(k)[q.len() + 1 + x] == s[e + 1 + x]);
            }
        }
        lemma_raw_fields_of_join(s, e + 1, fs.drop_first(), d);
        assert(raw_fields_from(s, k, d) =~= fs.map_values(|f: Seq<char>| quote_field(f, d)));
    }
}

/// Splitting a joined line gives back the values: `fields(join(fs))` is `fs`
/// for every non-empty list of values, as long as the delimiter is not `"`.
pub proof fn lemma_split_join(fs: Seq<Seq<char>>, d: char)
    requires
        d != '"',
        fs.len() >= 1,
    ensures
        fields(join(fs, d), d) == fs,
{
    let s = join(fs, d);
    assert(s.skip(0) =~= s);
    lemma_raw_fields_of_join(s, 0, fs, d);
    assert forall|i: int| 0 <= i < fs.len() implies fields(s, d)[i] == fs[i] by {
        lemma_unquote_quoted(fs[i], d);
    }
    assert(fields(s, d) =~= fs);
}

/// A line has as many field values as raw fields.
pub proof fn lemma_field_count(s: Seq<char>, d: char)
    ensures
        fields(s, d).len() == raw_fields(s, d).len(),
        forall|i: int|
            0 <= i < raw_fields(s, d).len() ==> #[trigger] fields(s, d)[i] == unquote(
                raw_fields(s, d)[i],
            ),
{
}

} // verus!
