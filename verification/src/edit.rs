//! The in-memory document of edit mode: one `String` per line, without the
//! line terminator, and the text operations on it. Positions are character
//! indices, not byte offsets.
use vstd::prelude::*;
use crate::chars::{chars_of, extend_chars, string_from, sub_chars, texts};

verus! {

/// The line terminator of the file as loaded, reproduced on save.
#[derive(Debug, Clone, Copy, PartialEq, Eq, Structural)]
pub enum Newline {
    Lf,
    CrLf,
}

/// A cursor position: line index and character index within the line.
#[derive(Debug, Clone, Copy, PartialEq, Eq, Structural)]
pub struct TextPos {
    pub line: usize,
    pub col: usize,
}

/// Whether `a` comes before `b` or equals it.
pub open spec fn pos_le(a: TextPos, b: TextPos) -> bool {
    a.line < b.line || (a.line == b.line && a.col <= b.col)
}

pub open spec fn ordered(a: TextPos, b: TextPos) -> (TextPos, TextPos) {
    if pos_le(a, b) {
        (a, b)
    } else {
        (b, a)
    }
}

/// `col` limited to a line of `n` characters.
pub open spec fn clamp(col: usize, n: nat) -> int {
    if col <= n {
        col as int
    } else {
        n as int
    }
}

/// The views of a list of character vectors.
pub open spec fn views(v: Seq<Vec<char>>) -> Seq<Seq<char>> {
    v.map_values(|x: Vec<char>| x@)
}

/// `s` cut at every `c`: always at least one part.
pub open spec fn split_on(s: Seq<char>, c: char) -> Seq<Seq<char>>
    decreases s.len(),
{
    if s.len() == 0 {
        seq![Seq::empty()]
    } else {
        let r = split_on(s.drop_last(), c);
        if s.last() == c {
            r.push(Seq::empty())
        } else {
            r.update(r.len() - 1, r.last().push(s.last()))
        }
    }
}

pub proof fn lemma_split_on_len(s: Seq<char>, c: char)
    ensures
        split_on(s, c).len() >= 1,
        !s.contains(c) ==> split_on(s, c) == seq![s],
    decreases s.len(),
{
    if s.len() > 0 {
        lemma_split_on_len(s.drop_last(), c);
        if !s.contains(c) {
            assert(!s.drop_last().contains(c)) by {
                if s.drop_last().contains(c) {
                    let k = choose|k: int| 0 <= k < s.drop_last().len() && s.drop_last()[k] == c;
                    assert(s[k] == c);
                }
            }
            assert(s.last() != c) by {
                assert(s[s.len() - 1] == s.last());
            }
            assert(s.drop_last().push(s.last()) =~= s);
        }
    } else {
        assert(s =~= Seq::<char>::empty());
    }
}

/// Orders two positions.
pub fn normalize(a: TextPos, b: TextPos) -> (r: (TextPos, TextPos))
    ensures
        r == ordered(a, b),
{
    if a.line < b.line || (a.line == b.line && a.col <= b.col) {
        (a, b)
    } else {
        (b, a)
    }
}

/// The characters of line `i`.
fn line_chars(lines: &Vec<String>, i: usize) -> (v: Vec<char>)
    requires
        i < lines@.len(),
    ensures
        v@ == texts(lines@)[i as int],
{
    chars_of(lines[i].as_str())
}

/// Replaces line `i` by the characters `v`.
fn set_line(lines: &mut Vec<String>, i: usize, v: &[char])
    requires
        i < old(lines)@.len(),
    ensures
        texts(final(lines)@) == texts(old(lines)@).update(i as int, v@),
        final(lines)@.len() == old(lines)@.len(),
{
    let s = string_from(v);
    lines.set(i, s);
    assert(texts(lines@) =~= texts(old(lines)@).update(i as int, v@));
}

/// Inserts the characters `v` as a new line at index `i`.
fn insert_line(lines: &mut Vec<String>, i: usize, v: &[char])
    requires
        i <= old(lines)@.len(),
    ensures
        texts(final(lines)@) == texts(old(lines)@).insert(i as int, v@),
        final(lines)@.len() == old(lines)@.len() + 1,
{
    let s = string_from(v);
    lines.insert(i, s);
    assert(texts(lines@) =~= texts(old(lines)@).insert(i as int, v@));
}

/// `l` with `s` put in at character `col` (the end when `col` is past it).
pub open spec fn put_in(l: Seq<char>, col: usize, s: Seq<char>) -> Seq<char> {
    l.take(clamp(col, l.len())) + s + l.skip(clamp(col, l.len()))
}

/// Types `ch` at `pos`; the cursor moves one character on.
pub fn insert_char(lines: &mut Vec<String>, pos: TextPos, ch: char) -> (r: TextPos)
    requires
        pos.line < old(lines)@.len(),
        pos.col < usize::MAX,
    ensures
        r == (TextPos { line: pos.line, col: (pos.col + 1) as usize }),
        texts(final(lines)@) == texts(old(lines)@).update(
            pos.line as int,
            put_in(texts(old(lines)@)[pos.line as int], pos.col, seq![ch]),
        ),
{
    let l = line_chars(lines, pos.line);
    let n = l.len();
    let c = if pos.col <= n {
        pos.col
    } else {
        n
    };
    let mut v = sub_chars(&l, 0, c);
    v.push(ch);
    let tail = sub_chars(&l, c, n);
    extend_chars(&mut v, &tail);
    assert(v@ =~= put_in(l@, pos.col, seq![ch]));
    set_line(lines, pos.line, &v);
    TextPos { line: pos.line, col: pos.col + 1 }
}

/// Enter: cuts line `pos.line` at `pos.col`; the rest becomes the next line.
pub fn split_line(lines: &mut Vec<String>, pos: TextPos) -> (r: TextPos)
    requires
        pos.line < old(lines)@.len(),
    ensures
        r == (TextPos { line: (pos.line + 1) as usize, col: 0 }),
        texts(final(lines)@) == ({
            let t = texts(old(lines)@);
            let l = t[pos.line as int];
            let c = clamp(pos.col, l.len());
            t.update(pos.line as int, l.take(c)).insert(pos.line + 1, l.skip(c))
        }),
{
    let l = line_chars(lines, pos.line);
    let n = l.len();
    let c = if pos.col <= n {
        pos.col
    } else {
        n
    };
    let head = sub_chars(&l, 0, c);
    let tail = sub_chars(&l, c, n);
    assert(l@.subrange(c as int, n as int) =~= l@.skip(c as int));
    let _len = lines.len();
    set_line(lines, pos.line, &head);
    insert_line(lines, pos.line + 1, &tail);
    TextPos { line: pos.line + 1, col: 0 }
}

/// `s` cut at every `c`, as vectors.
pub fn split_chars(s: &[char], c: char) -> (r: Vec<Vec<char>>)
    ensures
        views(r@) == split_on(s@, c),
{
    let mut r: Vec<Vec<char>> = Vec::new();
    r.push(Vec::new());
    let mut i: usize = 0;
    assert(views(r@) =~= split_on(s@.take(0), c));
    while i < s.len()
        invariant
            i <= s@.len(),
            r@.len() >= 1,
            views(r@) == split_on(s@.take(i as int), c),
        decreases s@.len() - i,
    {
        let x = s[i];
        assert(s@.take(i + 1).drop_last() =~= s@.take(i as int));
        assert(s@.take(i + 1).last() == x);
        if x == c {
            r.push(Vec::new());
            assert(views(r@) =~= split_on(s@.take(i + 1), c));
        } else {
            let k = r.len() - 1;
            let mut last: Vec<char> = Vec::new();
            r.set_and_swap(k, &mut last);
            last.push(x);
            let ghost mid = r@;
            r.set(k, last);
            assert(views(r@) =~= split_on(s@.take(i + 1), c));
        }
        i += 1;
    }
    assert(s@.take(s@.len() as int) =~= s@);
    r
}

/// The text after pasting `parts` (the pieces of a string cut at `\n`) into
/// line `line` at character `col`.
pub open spec fn pasted(t: Seq<Seq<char>>, line: int, col: usize, parts: Seq<Seq<char>>) -> Seq<
    Seq<char>,
> {
    let l = t[line];
    let c = clamp(col, l.len());
    if parts.len() == 1 {
        t.update(line, l.take(c) + parts[0] + l.skip(c))
    } else {
        t.take(line) + seq![l.take(c) + parts[0]] + parts.subrange(1, parts.len() - 1) + seq![
            parts.last() + l.skip(c),
        ] + t.skip(line + 1)
    }
}

/// Inserts `s` at `pos`; every `\n` in `s` starts a new line. Returns the
/// position just after the inserted text.
pub fn insert_str(lines: &mut Vec<String>, pos: TextPos, s: &str) -> (r: TextPos)
    requires
        pos.line < old(lines)@.len(),
        !s@.contains('\n') ==> pos.col + s@.len() <= usize::MAX,
    ensures
        texts(final(lines)@) == pasted(texts(old(lines)@), pos.line as int, pos.col, split_on(s@, '\n')),
        split_on(s@, '\n').len() == 1 ==> r == (TextPos {
            line: pos.line,
            col: (pos.col + s@.len()) as usize,
        }),
        split_on(s@, '\n').len() > 1 ==> r == (TextPos {
            line: (pos.line + split_on(s@, '\n').len() - 1) as usize,
            col: split_on(s@, '\n').last().len() as usize,
        }),
{
    let sc = chars_of(s);
    let parts = split_chars(&sc, '\n');
    proof {
        lemma_split_on_len(s@, '\n');
    }
    let ghost t = texts(lines@);
    let l = line_chars(lines, pos.line);
    let n = l.len();
    let c = if pos.col <= n {
        pos.col
    } else {
        n
    };
    let mut head = sub_chars(&l, 0, c);
    let tail = sub_chars(&l, c, n);
    assert(l@.subrange(c as int, n as int) =~= l@.skip(c as int));
    let np = parts.len();
    assert(views(parts@)[0] == parts@[0]@);
    if np == 1 {
        assert(!s@.contains('\n')) by {
            if s@.contains('\n') {
                let k = choose|k: int| 0 <= k < s@.len() && s@[k] == '\n';
                lemma_split_contains(s@, k);
            }
        }
        assert(parts@[0]@ == s@);
        extend_chars(&mut head, &parts[0]);
        extend_chars(&mut head, &tail);
        set_line(lines, pos.line, &head);
        assert(texts(lines@) =~= pasted(t, pos.line as int, pos.col, split_on(s@, '\n')));
        return TextPos { line: pos.line, col: pos.col + sc.len() };
    }
    extend_chars(&mut head, &parts[0]);
    set_line(lines, pos.line, &head);
    let mut k: usize = 1;
    while k + 1 < np
        invariant
            1 <= k < np == parts@.len(),
            lines@.len() == t.len() + k - 1,
            pos.line < t.len(),
            views(parts@) == split_on(s@, '\n'),
            texts(lines@) == t.take(pos.line as int) + seq![l@.take(c as int) + parts@[0]@]
                + views(parts@).subrange(1, k as int) + t.skip(pos.line + 1),
        decreases np - k,
    {
        let _len = lines.len();
        insert_line(lines, pos.line + k, &parts[k]);
        assert(texts(lines@) =~= t.take(pos.line as int) + seq![l@.take(c as int) + parts@[0]@]
            + views(parts@).subrange(1, k + 1) + t.skip(pos.line + 1));
        k += 1;
    }
    let mut last: Vec<char> = Vec::new();
    extend_chars(&mut last, &parts[np - 1]);
    let col = last.len();
    extend_chars(&mut last, &tail);
    let _len = lines.len();
    insert_line(lines, pos.line + (np - 1), &last);
    assert(views(parts@).last() == parts@[np - 1]@);
    assert(texts(lines@) =~= pasted(t, pos.line as int, pos.col, split_on(s@, '\n')));
    TextPos { line: pos.line + (np - 1), col }
}

pub proof fn lemma_split_contains(s: Seq<char>, k: int)
    requires
        0 <= k < s.len(),
        s[k] == '\n',
    ensures
        split_on(s, '\n').len() > 1,
    decreases s.len(),
{
    lemma_split_on_len(s.drop_last(), '\n');
    if k < s.len() - 1 {
        lemma_split_contains(s.drop_last(), k);
    }
}


/// The text after deleting the characters between `a0` and `b0`.
pub open spec fn deleted(t: Seq<Seq<char>>, a0: TextPos, b0: TextPos) -> Seq<Seq<char>> {
    let a = ordered(a0, b0).0;
    let b = ordered(a0, b0).1;
    if a == b {
        t
    } else if a.line == b.line {
        let l = t[a.line as int];
        t.update(a.line as int, l.take(clamp(a.col, l.len())) + l.skip(clamp(b.col, l.len())))
    } else {
        let la = t[a.line as int];
        let lb = t[b.line as int];
        t.take(a.line as int) + seq![la.take(clamp(a.col, la.len())) + lb.skip(clamp(b.col, lb.len()))]
            + t.skip(b.line + 1)
    }
}

/// Whether deleting between `a0` and `b0` touches only existing lines.
pub open spec fn lines_exist(len: nat, a0: TextPos, b0: TextPos) -> bool {
    ordered(a0, b0).0 != ordered(a0, b0).1 ==> ordered(a0, b0).1.line < len
}

/// Deletes the characters between `a` and `b` (in either order); the cursor
/// lands on the earlier of the two.
pub fn delete_range(lines: &mut Vec<String>, a: TextPos, b: TextPos) -> (r: TextPos)
    requires
        lines_exist(old(lines)@.len(), a, b),
    ensures
        r == ordered(a, b).0,
        texts(final(lines)@) == deleted(texts(old(lines)@), a, b),
{
    let (a, b) = normalize(a, b);
    if a == b {
        return a;
    }
    let ghost t = texts(lines@);
    if a.line == b.line {
        let l = line_chars(lines, a.line);
        let n = l.len();
        let ca = if a.col <= n {
            a.col
        } else {
            n
        };
        let cb = if b.col <= n {
            b.col
        } else {
            n
        };
        let mut v = sub_chars(&l, 0, ca);
        let tail = sub_chars(&l, cb, n);
        assert(l@.subrange(cb as int, n as int) =~= l@.skip(cb as int));
        extend_chars(&mut v, &tail);
        set_line(lines, a.line, &v);
        return a;
    }
    let la = line_chars(lines, a.line);
    let lb = line_chars(lines, b.line);
    let na = la.len();
    let nb = lb.len();
    let ca = if a.col <= na {
        a.col
    } else {
        na
    };
    let cb = if b.col <= nb {
        b.col
    } else {
        nb
    };
    let mut v = sub_chars(&la, 0, ca);
    let tail = sub_chars(&lb, cb, nb);
    assert(lb@.subrange(cb as int, nb as int) =~= lb@.skip(cb as int));
    extend_chars(&mut v, &tail);
    set_line(lines, a.line, &v);
    let ghost l1 = lines@;
    let _len = lines.len();
    let mut rest = lines.split_off(b.line + 1);
    lines.truncate(a.line + 1);
    lines.append(&mut rest);
    assert(lines@ =~= l1.take(a.line + 1) + l1.skip(b.line + 1));
    let ghost dl = deleted(t, a, b);
    assert(texts(lines@).len() == dl.len());
    assert forall|i: int| 0 <= i < dl.len() implies texts(lines@)[i] == dl[i] by {
        if i <= a.line {
            assert(lines@[i] == l1[i]);
            assert(texts(l1)[i] == l1[i]@);
        } else {
            let j = i + b.line - a.line;
            assert(lines@[i] == l1[j]);
            assert(texts(l1)[j] == l1[j]@);
        }
    }
    assert(texts(lines@) =~= dl);
    a
}

/// The lines `lo..hi` of `t`, each preceded by a line break.
pub open spec fn middle(t: Seq<Seq<char>>, lo: int, hi: int) -> Seq<char>
    decreases hi - lo,
{
    if hi <= lo {
        Seq::empty()
    } else {
        middle(t, lo, hi - 1) + seq!['\n'] + t[hi - 1]
    }
}

/// The text between `a0` and `b0`, lines joined by `\n`.
pub open spec fn selected(t: Seq<Seq<char>>, a0: TextPos, b0: TextPos) -> Seq<char> {
    let a = ordered(a0, b0).0;
    let b = ordered(a0, b0).1;
    if a == b || a.line >= t.len() {
        Seq::empty()
    } else if a.line == b.line {
        let l = t[a.line as int];
        l.subrange(clamp(a.col, l.len()), clamp(b.col, l.len()))
    } else {
        let last: int = if b.line < t.len() {
            b.line as int
        } else {
            t.len() - 1
        };
        let la = t[a.line as int];
        la.skip(clamp(a.col, la.len())) + middle(t, a.line + 1, last) + if last > a.line {
            seq!['\n'] + t[last].take(clamp(b.col, t[last].len()))
        } else {
            Seq::empty()
        }
    }
}

/// The text between `a` and `b` (in either order): the mirror of
/// `delete_range`.
pub fn selection_text(lines: &Vec<String>, a: TextPos, b: TextPos) -> (r: String)
    ensures
        r@ == selected(texts(lines@), a, b),
{
    let ghost t = texts(lines@);
    let (a, b) = normalize(a, b);
    if a == b || a.line >= lines.len() {
        return String::new();
    }
    if a.line == b.line {
        let l = line_chars(lines, a.line);
        let n = l.len();
        let ca = if a.col <= n {
            a.col
        } else {
            n
        };
        let cb = if b.col <= n {
            b.col
        } else {
            n
        };
        let v = sub_chars(&l, ca, cb);
        return string_from(&v);
    }
    let la = line_chars(lines, a.line);
    let na = la.len();
    let ca = if a.col <= na {
        a.col
    } else {
        na
    };
    let mut out = sub_chars(&la, ca, na);
    assert(la@.subrange(ca as int, na as int) =~= la@.skip(ca as int));
    let last = if b.line < lines.len() {
        b.line
    } else {
        lines.len() - 1
    };
    let mut l = a.line + 1;
    while l < last
        invariant
            a.line + 1 <= l,
            l <= last || l == a.line + 1,
            last < lines@.len(),
            t == texts(lines@),
            out@ == la@.skip(ca as int) + middle(t, a.line + 1, l as int),
        decreases last - l,
    {
        out.push('\n');
        let x = line_chars(lines, l);
        extend_chars(&mut out, &x);
        assert(out@ =~= la@.skip(ca as int) + middle(t, a.line + 1, l + 1));
        l += 1;
    }
    assert(out@ == la@.skip(ca as int) + middle(t, a.line + 1, last as int)) by {
        if l != last {
            assert(last <= a.line + 1);
            assert(middle(t, a.line + 1, last as int) =~= Seq::<char>::empty());
            assert(middle(t, a.line + 1, l as int) =~= Seq::<char>::empty());
        }
    }
    if last > a.line {
        out.push('\n');
        let x = line_chars(lines, last);
        let nx = x.len();
        let cb = if b.col <= nx {
            b.col
        } else {
            nx
        };
        let head = sub_chars(&x, 0, cb);
        extend_chars(&mut out, &head);
    }
    assert(out@ =~= selected(t, a, b));
    string_from(&out)
}

/// Backspace at `pos`: deletes the character before the cursor, or joins the
/// line with the one above at the start of a line; nothing at the very start.
pub fn backspace(lines: &mut Vec<String>, pos: TextPos) -> (r: TextPos)
    requires
        pos.col > 0 || pos.line > 0 ==> pos.line < old(lines)@.len(),
    ensures
        pos.col > 0 ==> r == (TextPos { line: pos.line, col: (pos.col - 1) as usize })
            && texts(final(lines)@) == deleted(texts(old(lines)@), r, pos),
        pos.col == 0 && pos.line == 0 ==> r == pos && final(lines)@ == old(lines)@,
        pos.col == 0 && pos.line > 0 ==> r == (TextPos {
            line: (pos.line - 1) as usize,
            col: texts(old(lines)@)[pos.line - 1].len() as usize,
        }) && texts(final(lines)@) == deleted(texts(old(lines)@), r, pos),
{
    if pos.col > 0 {
        let prev = TextPos { line: pos.line, col: pos.col - 1 };
        return delete_range(lines, prev, pos);
    }
    if pos.line == 0 {
        return pos;
    }
    let prev_len = line_chars(lines, pos.line - 1).len();
    let merge = TextPos { line: pos.line - 1, col: prev_len };
    delete_range(lines, merge, pos)
}


/// Unicode `White_Space`: the characters that `char::is_whitespace` accepts.
pub open spec fn spec_is_whitespace(c: char) -> bool {
    let u = c as u32;
    (0x09 <= u <= 0x0d) || u == 0x20 || u == 0x85 || u == 0xa0 || u == 0x1680 || (0x2000 <= u
        <= 0x200a) || u == 0x2028 || u == 0x2029 || u == 0x202f || u == 0x205f || u == 0x3000
}

/// Whether `c` is white space in the sense of Unicode `White_Space`.
pub fn is_whitespace(c: char) -> (b: bool)
    ensures
        b == spec_is_whitespace(c),
{
    let u = c as u32;
    (0x09 <= u && u <= 0x0d) || u == 0x20 || u == 0x85 || u == 0xa0 || u == 0x1680 || (0x2000 <= u
        && u <= 0x200a) || u == 0x2028 || u == 0x2029 || u == 0x202f || u == 0x205f || u == 0x3000
}

/// The run of characters around `at` that are all white space or all not.
pub open spec fn is_word_range(cs: Seq<char>, at: int, r: (usize, usize)) -> bool {
    let w = spec_is_whitespace(cs[at]);
    &&& r.0 <= at < r.1 <= cs.len()
    &&& forall|k: int| r.0 <= k < r.1 ==> spec_is_whitespace(#[trigger] cs[k]) == w
    &&& r.0 == 0 || spec_is_whitespace(cs[r.0 - 1]) != w
    &&& r.1 == cs.len() || spec_is_whitespace(cs[r.1 as int]) != w
}

/// Double-click selection: the character range `[start, end)` of the run of
/// non-space (or space) characters around `col`. Only white space separates
/// runs; at or past the end of the line the last character counts.
pub fn word_range_at(line: &str, col: usize) -> (r: (usize, usize))
    ensures
        line@.len() == 0 ==> r == (0usize, 0usize),
        line@.len() > 0 ==> is_word_range(
            line@,
            if col < line@.len() {
                col as int
            } else {
                line@.len() - 1
            },
            r,
        ),
{
    let chars = chars_of(line);
    let n = chars.len();
    if n == 0 {
        return (0, 0);
    }
    let at = if col < n - 1 {
        col
    } else {
        n - 1
    };
    let ws = is_whitespace(chars[at]);
    let mut start = at;
    while start > 0 && is_whitespace(chars[start - 1]) == ws
        invariant
            start <= at < n == chars@.len(),
            ws == spec_is_whitespace(chars@[at as int]),
            forall|k: int| start <= k <= at ==> spec_is_whitespace(#[trigger] chars@[k]) == ws,
        decreases start,
    {
        start -= 1;
    }
    let mut end = at + 1;
    while end < n && is_whitespace(chars[end]) == ws
        invariant
            at < end <= n == chars@.len(),
            ws == spec_is_whitespace(chars@[at as int]),
            forall|k: int| at <= k < end ==> spec_is_whitespace(#[trigger] chars@[k]) == ws,
        decreases n - end,
    {
        end += 1;
    }
    (start, end)
}


/// Inserts `text` as line `at`, or as the last line when `at` is past the end.
pub fn insert_row(lines: &mut Vec<String>, at: usize, text: String)
    ensures
        final(lines)@ == old(lines)@.insert(
            if at <= old(lines)@.len() {
                at as int
            } else {
                old(lines)@.len() as int
            },
            text,
        ),
{
    let n = lines.len();
    let at = if at <= n {
        at
    } else {
        n
    };
    lines.insert(at, text);
}

/// Removes line `at` when it exists; a document never ends up with no line.
pub fn remove_row(lines: &mut Vec<String>, at: usize)
    ensures
        ({
            let removed = if at < old(lines)@.len() {
                old(lines)@.remove(at as int)
            } else {
                old(lines)@
            };
            if removed.len() == 0 {
                texts(final(lines)@) == seq![Seq::<char>::empty()]
            } else {
                final(lines)@ == removed
            }
        }),
{
    if at < lines.len() {
        lines.remove(at);
    }
    if lines.len() == 0 {
        lines.push(String::new());
        assert(texts(lines@) =~= seq![Seq::<char>::empty()]);
    }
}

/// The lines `t[i]` for the entries `i` of `order` in range, in that order.
pub open spec fn picked(t: Seq<Seq<char>>, order: Seq<u32>) -> Seq<Seq<char>>
    decreases order.len(),
{
    if order.len() == 0 {
        Seq::empty()
    } else {
        picked(t, order.drop_last()) + if (order.last() as int) < t.len() {
            seq![t[order.last() as int]]
        } else {
            Seq::empty()
        }
    }
}

/// The text after reordering: the first `ds` lines stay, then the lines that
/// `order` names.
pub open spec fn permuted(t: Seq<Seq<char>>, order: Seq<u32>, ds: int) -> Seq<Seq<char>> {
    if ds > t.len() {
        t
    } else {
        t.take(ds) + picked(t, order)
    }
}

/// Reorders the data lines: the first `data_start` lines (the header) stay in
/// front, then come the lines that `order` names, in that order. Entries past
/// the end are skipped; an entry named twice is copied. Lines are moved, not
/// copied, where they can be.
pub fn apply_permutation(lines: &mut Vec<String>, order: &[u32], data_start: usize)
    ensures
        texts(final(lines)@) == permuted(texts(old(lines)@), order@, data_start as int),
{
    let n = lines.len();
    if data_start > n {
        return;
    }
    let ghost t = texts(lines@);
    let mut taken: Vec<usize> = Vec::new();
    let mut i: usize = 0;
    while i < n
        invariant
            i <= n,
            taken@.len() == i,
            forall|j: int| 0 <= j < i ==> taken@[j] == 0,
        decreases n - i,
    {
        taken.push(0);
        i += 1;
    }
    let mut out: Vec<String> = Vec::new();
    let mut i: usize = 0;
    while i < data_start
        invariant
            i <= data_start <= n == lines@.len() == taken@.len() == t.len(),
            out@.len() == i,
            texts(out@) == t.take(i as int),
            forall|j: int|
                0 <= j < n ==> (#[trigger] taken@[j] == 0 ==> j >= i && lines@[j]@ == t[j]) && (
                taken@[j] != 0 ==> j < i && taken@[j] == j + 1),
        decreases data_start - i,
    {
        let mut slot = String::new();
        let ghost before = lines@;
        assert(taken@[i as int] == 0);
        assert(before[i as int]@ == t[i as int]);
        lines.set_and_swap(i, &mut slot);
        taken.set(i, i + 1);
        let ghost before_out = out@;
        out.push(slot);
        assert(texts(before)[i as int] == before[i as int]@);
        assert(texts(out@) =~= t.take(i + 1)) by {
            assert(texts(out@) =~= texts(before_out).push(slot@));
        }
        assert forall|j: int| 0 <= j < n implies (#[trigger] taken@[j] == 0 ==> j >= i + 1
            && lines@[j]@ == t[j]) && (taken@[j] != 0 ==> j < i + 1 && taken@[j] == j + 1) by {
            if j != i {
                assert(lines@[j] == before[j]);
            }
        }
        i += 1;
    }
    assert forall|j: int| 0 <= j < n implies (#[trigger] taken@[j] == 0 ==> lines@[j]@ == t[j]) && (
    taken@[j] != 0 ==> 1 <= taken@[j] <= out@.len() && out@[taken@[j] - 1]@ == t[j]) by {
        if taken@[j] != 0 {
            assert(texts(out@)[j] == out@[j]@);
        }
    }
    let mut k: usize = 0;
    while k < order.len()
        invariant
            data_start <= n == lines@.len() == taken@.len() == t.len(),
            k <= order@.len(),
            texts(out@) == t.take(data_start as int) + picked(t, order@.take(k as int)),
            forall|j: int|
                0 <= j < n ==> (#[trigger] taken@[j] == 0 ==> lines@[j]@ == t[j]) && (taken@[j]
                    != 0 ==> 1 <= taken@[j] <= out@.len() && out@[taken@[j] - 1]@ == t[j]),
        decreases order@.len() - k,
    {
        let idx = order[k] as usize;
        let ghost before_out = out@;
        assert(order@.take(k + 1).drop_last() =~= order@.take(k as int));
        assert(order@.take(k + 1).last() == order@[k as int]);
        if idx < n {
            if taken[idx] == 0 {
                let mut slot = String::new();
                let ghost before = lines@;
                lines.set_and_swap(idx, &mut slot);
                out.push(slot);
                taken.set(idx, out.len());
                assert(texts(out@) =~= texts(before_out).push(slot@));
                assert forall|j: int| 0 <= j < n implies (#[trigger] taken@[j] == 0 ==> lines@[j]@
                    == t[j]) && (taken@[j] != 0 ==> 1 <= taken@[j] <= out@.len() && out@[taken@[j]
                    - 1]@ == t[j]) by {
                    if j != idx {
                        assert(lines@[j] == before[j]);
                    }
                }
            } else {
                let p = taken[idx] - 1;
                let copy = out[p].clone();
                out.push(copy);
                assert(texts(out@) =~= texts(before_out).push(copy@));
            }
        } else {
            assert(texts(out@) =~= texts(before_out));
        }
        assert(texts(out@) =~= t.take(data_start as int) + picked(t, order@.take(k + 1)));
        k += 1;
    }
    assert(order@.take(order@.len() as int) =~= order@);
    *lines = out;
}

/// `a - b`, or 0 when `b` is larger.
pub open spec fn sat_sub(a: int, b: int) -> int {
    if a >= b {
        a - b
    } else {
        0
    }
}

/// The inverse table after the first `k` entries of `order` are entered.
pub open spec fn inverse_upto(order: Seq<u32>, ds: int, k: int) -> Seq<u32>
    decreases k,
{
    if k <= 0 {
        Seq::new(order.len(), |j: int| 0u32)
    } else {
        let prev = inverse_upto(order, ds, k - 1);
        let slot = sat_sub(order[k - 1] as int, ds);
        if slot < order.len() {
            prev.update(slot, (ds + k - 1) as u32)
        } else {
            prev
        }
    }
}

pub proof fn lemma_inverse_upto_len(order: Seq<u32>, ds: int, k: int)
    ensures
        inverse_upto(order, ds, k).len() == order.len(),
    decreases k,
{
    if k > 0 {
        lemma_inverse_upto_len(order, ds, k - 1);
    }
}

/// The reordering that undoes `order`: entry `order[i] - data_start` holds
/// `data_start + i` (cut to `u32`); entries that nothing names stay 0.
pub fn inverse_of(order: &[u32], data_start: usize) -> (inv: Vec<u32>)
    requires
        order@.len() == 0 || data_start + order@.len() - 1 <= usize::MAX,
    ensures
        inv@ == inverse_upto(order@, data_start as int, order@.len() as int),
        is_data_permutation(order@, data_start as int) ==> is_data_permutation(
            inv@,
            data_start as int,
        ),
{
    let m = order.len();
    let mut inv: Vec<u32> = Vec::new();
    let mut j: usize = 0;
    while j < m
        invariant
            j <= m == order@.len(),
            inv@ == Seq::new(j as nat, |x: int| 0u32),
        decreases m - j,
    {
        inv.push(0);
        assert(inv@ =~= Seq::new((j + 1) as nat, |x: int| 0u32));
        j += 1;
    }
    assert(inv@ =~= inverse_upto(order@, data_start as int, 0));
    let mut i: usize = 0;
    while i < m
        invariant
            i <= m == order@.len() == inv@.len(),
            m == 0 || data_start + m - 1 <= usize::MAX,
            inv@ == inverse_upto(order@, data_start as int, i as int),
        decreases m - i,
    {
        let orig = order[i] as usize;
        let slot = if orig >= data_start {
            orig - data_start
        } else {
            0
        };
        if slot < m {
            let v = #[verifier::truncate] ((data_start + i) as u32);
            inv.set(slot, v);
        }
        proof {
            lemma_inverse_upto_len(order@, data_start as int, i + 1);
        }
        i += 1;
    }
    proof {
        if is_data_permutation(order@, data_start as int) {
            lemma_inverse_is_permutation(order@, data_start as int);
        }
    }
    inv
}


/// `order` names each of the `order.len()` data lines after the first `ds`
/// lines exactly once.
pub open spec fn is_data_permutation(order: Seq<u32>, ds: int) -> bool {
    &&& forall|i: int| 0 <= i < order.len() ==> ds <= #[trigger] order[i] < ds + order.len()
    &&& forall|i: int, j: int| 0 <= i < j < order.len() ==> order[i] != order[j]
}

/// With every entry of `order` in range, `picked` takes one line per entry.
proof fn lemma_picked_in_range(t: Seq<Seq<char>>, order: Seq<u32>)
    requires
        forall|i: int| 0 <= i < order.len() ==> (#[trigger] order[i] as int) < t.len(),
    ensures
        picked(t, order) == Seq::new(order.len(), |i: int| t[order[i] as int]),
    decreases order.len(),
{
    if order.len() > 0 {
        let o = order.drop_last();
        lemma_picked_in_range(t, o);
        assert(picked(t, order) =~= Seq::new(order.len(), |i: int| t[order[i] as int]));
    }
}

/// A data permutation reaches every data slot.
proof fn lemma_permutation_onto(order: Seq<u32>, ds: int, j: int)
    requires
        is_data_permutation(order, ds),
        0 <= j < order.len(),
    ensures
        exists|i: int| 0 <= i < order.len() && order[i] == ds + j,
{
    let m = order.len() as int;
    let s: Seq<int> = order.map_values(|x: u32| x as int - ds);
    assert(s.no_duplicates()) by {
        assert forall|a: int, b: int| 0 <= a < s.len() && 0 <= b < s.len() && a != b implies s[a]
            != s[b] by {
            if a < b {
                assert(order[a] != order[b]);
            } else {
                assert(order[b] != order[a]);
            }
        }
    }
    s.unique_seq_to_set();
    vstd::set_lib::lemma_int_range(0, m);
    let range = vstd::set_lib::set_int_range(0, m);
    assert(s.to_set().subset_of(range)) by {
        assert forall|x: int| s.to_set().contains(x) implies range.contains(x) by {
            let i = choose|i: int| 0 <= i < s.len() && s[i] == x;
            assert(ds <= order[i] < ds + m);
        }
    }
    vstd::set_lib::lemma_len_subset(s.to_set(), range);
    vstd::set_lib::lemma_subset_equality(s.to_set(), range);
    assert(range.contains(j));
    assert(s.to_set().contains(j));
    let i = choose|i: int| 0 <= i < s.len() && s[i] == j;
    assert(order[i] == ds + j);
}

/// After `k` entries, the inverse table sends the slot of each entry seen so
/// far back to that entry's position.
proof fn lemma_inverse_upto_hits(order: Seq<u32>, ds: int, k: int)
    requires
        0 <= ds,
        is_data_permutation(order, ds),
        0 <= k <= order.len(),
    ensures
        inverse_upto(order, ds, k).len() == order.len(),
        forall|i: int|
            0 <= i < k ==> inverse_upto(order, ds, k)[#[trigger] order[i] - ds] == (ds + i) as u32,
    decreases k,
{
    lemma_inverse_upto_len(order, ds, k);
    if k > 0 {
        lemma_inverse_upto_hits(order, ds, k - 1);
        let prev = inverse_upto(order, ds, k - 1);
        let slot = order[k - 1] - ds;
        assert(sat_sub(order[k - 1] as int, ds) == slot);
        assert(inverse_upto(order, ds, k) == prev.update(slot, (ds + k - 1) as u32));
        assert forall|i: int| 0 <= i < k implies inverse_upto(order, ds, k)[#[trigger] order[i]
            - ds] == (ds + i) as u32 by {
            if i < k - 1 {
                assert(order[i] != order[k - 1]);
            }
        }
    }
}

/// The inverse of a data permutation is a data permutation too.
pub proof fn lemma_inverse_is_permutation(order: Seq<u32>, ds: int)
    requires
        0 <= ds,
        is_data_permutation(order, ds),
    ensures
        is_data_permutation(inverse_upto(order, ds, order.len() as int), ds),
{
    let m = order.len() as int;
    let inv = inverse_upto(order, ds, m);
    lemma_inverse_upto_hits(order, ds, m);
    if m > 0 {
        lemma_permutation_onto(order, ds, m - 1);
    }
    assert forall|j: int| 0 <= j < m implies exists|i: int|
        0 <= i < m && order[i] == ds + j && #[trigger] inv[j] == ds + i by {
        lemma_permutation_onto(order, ds, j);
        let i = choose|i: int| 0 <= i < m && order[i] == ds + j;
        assert(inv[order[i] - ds] == (ds + i) as u32);
    }
    assert forall|j: int| 0 <= j < inv.len() implies ds <= #[trigger] inv[j] < ds + inv.len() by {
        let i = choose|i: int| 0 <= i < m && order[i] == ds + j && inv[j] == ds + i;
    }
    assert forall|a: int, b: int| 0 <= a < b < inv.len() implies inv[a] != inv[b] by {
        let ia = choose|i: int| 0 <= i < m && order[i] == ds + a && inv[a] == ds + i;
        let ib = choose|i: int| 0 <= i < m && order[i] == ds + b && inv[b] == ds + i;
    }
}

/// Reordering by `order` and then by its inverse gives back the text: when
/// `order` names each data line exactly once, `inverse_of(order, ds)` undoes
/// `apply_permutation(order, ds)`.
pub proof fn lemma_inverse_roundtrip(t: Seq<Seq<char>>, order: Seq<u32>, ds: int)
    requires
        0 <= ds,
        t.len() == ds + order.len(),
        is_data_permutation(order, ds),
    ensures
        permuted(permuted(t, order, ds), inverse_upto(order, ds, order.len() as int), ds) == t,
{
    let m = order.len() as int;
    lemma_picked_in_range(t, order);
    let s = permuted(t, order, ds);
    assert(s.len() == ds + m);
    let inv = inverse_upto(order, ds, m);
    lemma_inverse_upto_hits(order, ds, m);
    if m > 0 {
        // The last data line is named too, and names are `u32`s.
        lemma_permutation_onto(order, ds, m - 1);
    }
    assert forall|j: int| 0 <= j < m implies (#[trigger] inv[j] as int) < s.len() && exists|
        i: int,
    | 0 <= i < m && order[i] == ds + j && inv[j] == ds + i by {
        lemma_permutation_onto(order, ds, j);
        let i = choose|i: int| 0 <= i < m && order[i] == ds + j;
        assert(inv[order[i] - ds] == (ds + i) as u32);
    }
    lemma_picked_in_range(s, inv);
    assert(permuted(s, inv, ds) =~= t) by {
        assert forall|x: int| 0 <= x < t.len() implies permuted(s, inv, ds)[x] == t[x] by {
            if x >= ds {
                let j = x - ds;
                let i = choose|i: int| 0 <= i < m && order[i] == ds + j && inv[j] == ds + i;
                assert(inv[j] as int == ds + i);
                assert(s[ds + i] == t[order[i] as int]);
            }
        }
    }
}

pub proof fn lemma_split_on_concat(x: Seq<char>, y: Seq<char>, c: char)
    ensures
        split_on(x + seq![c] + y, c) == split_on(x, c) + split_on(y, c),
    decreases y.len(),
{
    if y.len() == 0 {
        assert(x + seq![c] + y =~= (x + seq![c]));
        assert((x + seq![c]).drop_last() =~= x);
        assert(split_on(y, c) == seq![Seq::<char>::empty()]);
    } else {
        lemma_split_on_concat(x, y.drop_last(), c);
        assert((x + seq![c] + y).drop_last() =~= x + seq![c] + y.drop_last());
        lemma_split_on_len(y.drop_last(), c);
        lemma_split_on_len(x, c);
        let a = split_on(x, c);
        let b = split_on(y.drop_last(), c);
        if y.last() != c {
            assert((a + b).update((a + b).len() - 1, (a + b).last().push(y.last())) =~= a + b.update(
                b.len() - 1,
                b.last().push(y.last()),
            ));
        } else {
            assert((a + b).push(Seq::<char>::empty()) =~= a + b.push(Seq::<char>::empty()));
        }
    }
}

/// No line holds a line break.
pub open spec fn no_breaks(t: Seq<Seq<char>>) -> bool {
    forall|i: int| 0 <= i < t.len() ==> !(#[trigger] t[i]).contains('\n')
}

pub proof fn lemma_split_middle(p: Seq<char>, t: Seq<Seq<char>>, lo: int, hi: int)
    requires
        !p.contains('\n'),
        no_breaks(t),
        0 <= lo <= hi <= t.len(),
    ensures
        split_on(p + middle(t, lo, hi), '\n') == seq![p] + t.subrange(lo, hi),
    decreases hi - lo,
{
    if hi <= lo {
        assert(p + middle(t, lo, hi) =~= p);
        lemma_split_on_len(p, '\n');
        assert(seq![p] + t.subrange(lo, hi) =~= seq![p]);
    } else {
        lemma_split_middle(p, t, lo, hi - 1);
        assert(p + middle(t, lo, hi) =~= (p + middle(t, lo, hi - 1)) + seq!['\n'] + t[hi - 1]);
        lemma_split_on_concat(p + middle(t, lo, hi - 1), t[hi - 1], '\n');
        lemma_split_on_len(t[hi - 1], '\n');
        assert(seq![p] + t.subrange(lo, hi - 1) + seq![t[hi - 1]] =~= seq![p] + t.subrange(lo, hi));
    }
}

pub proof fn lemma_no_break_sub(l: Seq<char>, a: int, b: int)
    requires
        !l.contains('\n'),
        0 <= a <= b <= l.len(),
    ensures
        !l.subrange(a, b).contains('\n'),
{
    if l.subrange(a, b).contains('\n') {
        let k = choose|k: int| 0 <= k < b - a && l.subrange(a, b)[k] == '\n';
        assert(l[a + k] == '\n');
    }
}

/// A position that names an existing line and a character boundary in it.
pub open spec fn valid_pos(t: Seq<Seq<char>>, p: TextPos) -> bool {
    p.line < t.len() && p.col <= t[p.line as int].len()
}

proof fn lemma_cut_paste_same_line(t: Seq<Seq<char>>, p: TextPos, q: TextPos)
    requires
        no_breaks(t),
        valid_pos(t, p),
        valid_pos(t, q),
        p.line == q.line,
        p.col < q.col,
    ensures
        ({
            let l = t[p.line as int];
            let sel = l.subrange(p.col as int, q.col as int);
            let d = t.update(p.line as int, l.take(p.col as int) + l.skip(q.col as int));
            &&& split_on(sel, '\n') == seq![sel]
            &&& pasted(d, p.line as int, p.col, seq![sel]) == t
        }),
{
    let l = t[p.line as int];
    let sel = l.subrange(p.col as int, q.col as int);
    assert(!l.contains('\n'));
    lemma_no_break_sub(l, p.col as int, q.col as int);
    lemma_split_on_len(sel, '\n');
    let d = t.update(p.line as int, l.take(p.col as int) + l.skip(q.col as int));
    let l2 = d[p.line as int];
    assert(l2.take(p.col as int) =~= l.take(p.col as int));
    assert(l2.skip(p.col as int) =~= l.skip(q.col as int));
    assert(l.take(p.col as int) + sel + l.skip(q.col as int) =~= l);
    assert(pasted(d, p.line as int, p.col, seq![sel]) =~= t);
}

proof fn lemma_cut_paste_lines(t: Seq<Seq<char>>, p: TextPos, q: TextPos)
    requires
        no_breaks(t),
        valid_pos(t, p),
        valid_pos(t, q),
        p.line < q.line,
    ensures
        ({
            let la = t[p.line as int];
            let lb = t[q.line as int];
            let sel = la.skip(p.col as int) + middle(t, p.line + 1, q.line as int) + seq!['\n']
                + lb.take(q.col as int);
            let d = t.take(p.line as int) + seq![la.take(p.col as int) + lb.skip(q.col as int)]
                + t.skip(q.line + 1);
            let parts = split_on(sel, '\n');
            &&& parts == seq![la.skip(p.col as int)] + t.subrange(p.line + 1, q.line as int) + seq![
                lb.take(q.col as int),
            ]
            &&& pasted(d, p.line as int, p.col, parts) == t
        }),
{
    let la = t[p.line as int];
    let lb = t[q.line as int];
    let head = la.skip(p.col as int);
    let tail = lb.take(q.col as int);
    assert(!la.contains('\n'));
    assert(!lb.contains('\n'));
    lemma_no_break_sub(la, p.col as int, la.len() as int);
    assert(la.subrange(p.col as int, la.len() as int) =~= head);
    lemma_no_break_sub(lb, 0, q.col as int);
    assert(lb.subrange(0, q.col as int) =~= tail);
    let sel = head + middle(t, p.line + 1, q.line as int) + seq!['\n'] + tail;
    lemma_split_on_concat(head + middle(t, p.line + 1, q.line as int), tail, '\n');
    lemma_split_middle(head, t, p.line + 1, q.line as int);
    lemma_split_on_len(tail, '\n');
    let parts = split_on(sel, '\n');
    assert(parts =~= seq![head] + t.subrange(p.line + 1, q.line as int) + seq![tail]);
    let d = t.take(p.line as int) + seq![la.take(p.col as int) + lb.skip(q.col as int)] + t.skip(
        q.line + 1,
    );
    let l2 = d[p.line as int];
    assert(l2 =~= la.take(p.col as int) + lb.skip(q.col as int));
    assert(l2.take(p.col as int) =~= la.take(p.col as int));
    assert(l2.skip(p.col as int) =~= lb.skip(q.col as int));
    assert(la.take(p.col as int) + head =~= la);
    assert(tail + lb.skip(q.col as int) =~= lb);
    assert(parts.subrange(1, parts.len() - 1) =~= t.subrange(p.line + 1, q.line as int));
    assert(d.take(p.line as int) =~= t.take(p.line as int));
    assert(d.skip(p.line + 1) =~= t.skip(q.line + 1));
    assert(pasted(d, p.line as int, p.col, parts) =~= t);
}

/// Cut and paste give back the text: deleting the selection between `a` and
/// `b` and inserting the selected text where the cursor lands restores every
/// line, and the cursor ends where the selection ended.
pub proof fn lemma_cut_paste_roundtrip(t: Seq<Seq<char>>, a: TextPos, b: TextPos)
    requires
        no_breaks(t),
        valid_pos(t, a),
        valid_pos(t, b),
    ensures
        pasted(
            deleted(t, a, b),
            ordered(a, b).0.line as int,
            ordered(a, b).0.col,
            split_on(selected(t, a, b), '\n'),
        ) == t,
        split_on(selected(t, a, b), '\n').len() == 1 ==> ordered(a, b).1 == (TextPos {
            line: ordered(a, b).0.line,
            col: (ordered(a, b).0.col + selected(t, a, b).len()) as usize,
        }),
        split_on(selected(t, a, b), '\n').len() > 1 ==> ordered(a, b).1 == (TextPos {
            line: (ordered(a, b).0.line + split_on(selected(t, a, b), '\n').len() - 1) as usize,
            col: split_on(selected(t, a, b), '\n').last().len() as usize,
        }),
{
    let p = ordered(a, b).0;
    let q = ordered(a, b).1;
    let sel = selected(t, a, b);
    let d = deleted(t, a, b);
    if p == q {
        assert(sel =~= Seq::<char>::empty());
        assert(split_on(sel, '\n') =~= seq![Seq::<char>::empty()]);
        let l = t[p.line as int];
        assert(l.take(p.col as int) + Seq::<char>::empty() + l.skip(p.col as int) =~= l);
        assert(pasted(d, p.line as int, p.col, split_on(sel, '\n')) =~= t);
    } else if p.line == q.line {
        let l = t[p.line as int];
        assert(sel =~= l.subrange(p.col as int, q.col as int));
        assert(d =~= t.update(p.line as int, l.take(p.col as int) + l.skip(q.col as int)));
        lemma_cut_paste_same_line(t, p, q);
        assert(sel.len() == q.col - p.col);
    } else {
        let la = t[p.line as int];
        let lb = t[q.line as int];
        assert(sel =~= la.skip(p.col as int) + middle(t, p.line + 1, q.line as int) + seq!['\n']
            + lb.take(q.col as int));
        assert(d =~= t.take(p.line as int) + seq![la.take(p.col as int) + lb.skip(q.col as int)]
            + t.skip(q.line + 1));
        lemma_cut_paste_lines(t, p, q);
        let parts = split_on(sel, '\n');
        assert(parts.len() == q.line - p.line + 1);
        assert(parts.last() == lb.take(q.col as int));
    }
}

} // verus!
