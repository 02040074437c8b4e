//! The document of edit mode as it is loaded from the bytes of a file.
use vstd::prelude::*;
use crate::chars::texts;
use crate::edit::Newline;
use crate::undo::{UndoStack, UNDO_BYTE_BUDGET, UNDO_LIMIT};

verus! {

/// The in-memory document of edit mode: the whole file, one entry per line,
/// without line terminators.
pub struct EditBuffer {
    pub lines: Vec<String>,
    pub dirty: bool,
    pub newline: Newline,
    /// The undo steps (the last `UNDO_LIMIT` of them).
    pub undo: UndoStack,
}

/// Index of the first `\n` of `b` at or after `i`, or the length of `b`.
pub open spec fn next_newline(b: Seq<u8>, i: int) -> int
    decreases b.len() - i,
{
    if i >= b.len() || b[i] == 10 {
        i
    } else {
        next_newline(b, i + 1)
    }
}

pub proof fn lemma_next_newline(b: Seq<u8>, i: int)
    requires
        0 <= i <= b.len(),
    ensures
        i <= next_newline(b, i) <= b.len(),
        next_newline(b, i) < b.len() ==> b[next_newline(b, i)] == 10,
        forall|j: int| i <= j < next_newline(b, i) ==> b[j] != 10,
    decreases b.len() - i,
{
    if i < b.len() && b[i] != 10 {
        lemma_next_newline(b, i + 1);
    }
}

/// The raw lines of `b` from `start` on: cut at every `\n`, where a `\n` at
/// the very end closes the last line instead of opening an empty one.
pub open spec fn lines_from(b: Seq<u8>, start: int) -> Seq<Seq<u8>>
    decreases b.len() - start,
{
    if start < 0 || start >= b.len() {
        Seq::empty()
    } else {
        let e = next_newline(b, start);
        if e >= b.len() {
            seq![b.subrange(start, b.len() as int)]
        } else {
            proof {
                lemma_next_newline(b, start);
            }
            seq![b.subrange(start, e)] + lines_from(b, e + 1)
        }
    }
}

/// The raw lines of a file; an empty file has one empty line.
pub open spec fn raw_lines(b: Seq<u8>) -> Seq<Seq<u8>> {
    if b.len() == 0 {
        seq![Seq::<u8>::empty()]
    } else {
        lines_from(b, 0)
    }
}

/// A raw line without its `\r`, if it ends with one.
pub open spec fn trim_cr(p: Seq<u8>) -> Seq<u8> {
    if p.len() > 0 && p.last() == 13 {
        p.drop_last()
    } else {
        p
    }
}

/// Whether a `\r\n` pair occurs somewhere in `b`.
pub open spec fn has_crlf(b: Seq<u8>) -> bool {
    exists|i: int| 0 <= i && i + 1 < b.len() && #[trigger] b[i] == 13 && b[i + 1] == 10
}

/// The text that UTF-8 decoding of `b` gives, with every invalid sequence
/// replaced by U+FFFD.
pub uninterp spec fn utf8_lossy(b: Seq<u8>) -> Seq<char>;

/// The lines of the document that `b` holds.
pub open spec fn loaded_lines(b: Seq<u8>) -> Seq<Seq<char>> {
    raw_lines(b).map_values(|p: Seq<u8>| utf8_lossy(trim_cr(p)))
}

/// Decodes UTF-8 bytes, replacing invalid sequences.
/// Calls `String::from_utf8_lossy`; claims the text is `utf8_lossy` of the
/// bytes, and, as std documents, that valid UTF-8 decodes to its characters
/// (so ASCII bytes come back as the same characters), and that the text holds
/// a `\n` only where the bytes hold one (byte 0x0A is never part of a longer
/// sequence, and an invalid one becomes U+FFFD).
#[verifier::external_body]
fn decode_utf8(b: &[u8]) -> (r: String)
    ensures
        r@ == utf8_lossy(b@),
        (forall|i: int| 0 <= i < b@.len() ==> b@[i] != 10) ==> !r@.contains('\n'),
        vstd::utf8::valid_utf8(b@) ==> r@ == vstd::utf8::decode_utf8(b@),
        (forall|i: int| 0 <= i < b@.len() ==> b@[i] < 128) ==> r@ == b@.map_values(
            |x: u8| x as char,
        ),
{
    String::from_utf8_lossy(b).into_owned()
}

/// Index of the first `needle` in `hay`.
/// Calls `memchr::memchr`; claims, as its documentation says, the index of the
/// first occurrence, or `None` when there is none.
#[verifier::external_body]
fn find_byte(needle: u8, hay: &[u8]) -> (r: Option<usize>)
    ensures
        r matches Some(p) ==> p < hay@.len() && hay@[p as int] == needle && forall|j: int|
            0 <= j < p ==> hay@[j] != needle,
        r is None ==> forall|j: int| 0 <= j < hay@.len() ==> hay@[j] != needle,
{
    memchr::memchr(needle, hay)
}

/// Cuts the bytes of a file into lines and decodes each as UTF-8: the file's
/// newline style is CRLF when a `\r\n` pair occurs somewhere, every line loses
/// its trailing `\r`, a final `\n` adds no empty line, and an empty file is one
/// empty line. A line that is valid UTF-8 reads back as exactly its
/// characters. The buffer starts clean with an empty undo stack.
pub fn load_edit_buffer(bytes: &[u8]) -> (r: EditBuffer)
    ensures
        texts(r.lines@) == loaded_lines(bytes@),
        bytes@.len() == 0 ==> texts(r.lines@) == seq![Seq::<char>::empty()],
        r.lines@.len() >= 1,
        forall|i: int| 0 <= i < r.lines@.len() ==> !(#[trigger] r.lines@[i])@.contains('\n'),
        forall|i: int|
            0 <= i < raw_lines(bytes@).len() && vstd::utf8::valid_utf8(
                trim_cr(#[trigger] raw_lines(bytes@)[i]),
            ) ==> texts(r.lines@)[i] == vstd::utf8::decode_utf8(trim_cr(raw_lines(bytes@)[i])),
        r.newline == (if has_crlf(bytes@) {
            Newline::CrLf
        } else {
            Newline::Lf
        }),
        !r.dirty,
        r.undo.wf(),
        r.undo.spec_ops().len() == 0,
        r.undo.spec_limit() == UNDO_LIMIT,
        r.undo.spec_budget() == UNDO_BYTE_BUDGET,
        r.undo.spec_revision() == 0,
{
    let n = bytes.len();
    if n == 0 {
        let empty = decode_utf8(bytes);
        let lines = vec![empty];
        proof {
            assert(bytes@ =~= Seq::<u8>::empty());
            assert(trim_cr(Seq::<u8>::empty()) =~= Seq::<u8>::empty());
            assert(texts(lines@) =~= loaded_lines(bytes@));
            assert(texts(lines@) =~= seq![Seq::<char>::empty()]);
            assert(raw_lines(bytes@)[0] == Seq::<u8>::empty());
        }
        return EditBuffer { lines, dirty: false, newline: Newline::Lf, undo: UndoStack::new(UNDO_LIMIT) };
    }
    let ghost b = bytes@;
    let ghost mut pieces: Seq<Seq<u8>> = Seq::empty();
    let mut newline = Newline::Lf;
    let mut lines: Vec<String> = Vec::new();
    let mut start: usize = 0;
    while start < n
        invariant
            start <= n == b.len(),
            b == bytes@,
            b.len() > 0,
            raw_lines(b) == pieces + lines_from(b, start as int),
            pieces.len() == lines@.len(),
            forall|k: int|
                0 <= k < lines@.len() ==> lines@[k]@ == utf8_lossy(trim_cr(#[trigger] pieces[k]))
                    && (vstd::utf8::valid_utf8(trim_cr(pieces[k])) ==> lines@[k]@
                    == vstd::utf8::decode_utf8(trim_cr(pieces[k]))),
            start == 0 || start == n || b[start - 1] == 10,
            start > 0 ==> lines@.len() >= 1,
            forall|k: int| 0 <= k < lines@.len() ==> !(#[trigger] lines@[k])@.contains('\n'),
            (newline == Newline::CrLf) == (exists|i: int|
                0 <= i && i + 1 < start && #[trigger] b[i] == 13 && b[i + 1] == 10),
        decreases n - start,
    {
        let rest = &bytes[start..n];
        proof {
            lemma_next_newline(b, start as int);
        }
        let ghost e = next_newline(b, start as int);
        let found = find_byte(10, rest);
        let end = match found {
            Some(p) => {
                assert(forall|j: int| 0 <= j < p ==> rest@[j] == b[start + j]);
                assert(rest@[p as int] == b[start + p]);
                assert(start + p == e) by {
                    if start + p < e {
                        assert(b[start + p] != 10);
                    } else if start + p > e {
                        assert(rest@[e - start] == b[e]);
                    }
                }
                start + p
            },
            None => {
                assert(e == n) by {
                    if e < n {
                        assert(rest@[e - start] == b[e]);
                    }
                }
                n
            },
        };
        let ghost piece = b.subrange(start as int, end as int);
        let ghost old_crlf = newline == Newline::CrLf;
        let mut stop = end;
        if stop > start && bytes[stop - 1] == 13 {
            stop = stop - 1;
            if end < n {
                newline = Newline::CrLf;
            }
        }
        proof {
            lemma_next_newline(b, start as int);
        }
        let part = &bytes[start..stop];
        assert(forall|x: int| 0 <= x < part@.len() ==> part@[x] == b[start + x] && part@[x] != 10);
        let text = decode_utf8(part);
        assert(bytes@.subrange(start as int, stop as int) == trim_cr(piece)) by {
            assert(bytes@.subrange(start as int, stop as int) =~= trim_cr(piece));
        }
        let ghost before = lines@;
        lines.push(text);
        proof {
            let tail = lines_from(b, start as int);
            if end < n {
                assert(tail == seq![piece] + lines_from(b, end + 1));
            } else {
                assert(tail == seq![piece]);
                assert(lines_from(b, (end + 1) as int) =~= Seq::<Seq<u8>>::empty());
                assert(tail =~= seq![piece] + lines_from(b, end + 1));
            }
            let ghost old_pieces = pieces;
            pieces = pieces.push(piece);
            assert(raw_lines(b) =~= pieces + lines_from(b, end + 1));
            assert(lines@[lines@.len() - 1] == text);
            if stop < end {
                assert(piece.last() == b[end - 1]);
            }
            let next: int = if end < n { end + 1 } else { n as int };
            // Pairs that end in the newline just passed are the only new ones.
            assert((old_crlf || (end < n && end > start && b[end - 1] == 13)) == (exists|i: int|
                0 <= i && i + 1 < next && #[trigger] b[i] == 13 && b[i + 1] == 10)) by {
                if exists|i: int| 0 <= i && i + 1 < next && #[trigger] b[i] == 13 && b[i + 1] == 10 {
                    let i = choose|i: int| 0 <= i && i + 1 < next && #[trigger] b[i] == 13 && b[i + 1] == 10;
                    if i + 1 >= start {
                        if i + 1 < end {
                            assert(b[i + 1] != 10);
                        } else {
                            assert(i + 1 == end);
                            if end == start {
                                assert(start > 0 && b[start - 1] == 10);
                            }
                        }
                    }
                }
                if end < n && end > start && b[end - 1] == 13 {
                    assert(b[end - 1] == 13 && b[end as int] == 10);
                }
            }
            if end == n {
                assert(lines_from(b, n as int) =~= Seq::<Seq<u8>>::empty());
            }
        }
        if end < n {
            start = end + 1;
        } else {
            start = n;
        }
    }
    proof {
        assert(start == n);
        assert(lines_from(b, start as int) =~= Seq::<Seq<u8>>::empty());
        assert(raw_lines(b) =~= pieces);
        assert(texts(lines@) =~= loaded_lines(b));
        assert forall|i: int|
            0 <= i < raw_lines(bytes@).len() && vstd::utf8::valid_utf8(
                trim_cr(#[trigger] raw_lines(bytes@)[i]),
            ) implies texts(lines@)[i] == vstd::utf8::decode_utf8(trim_cr(raw_lines(bytes@)[i])) by {
            assert(texts(lines@)[i] == lines@[i]@);
        }
    }
    EditBuffer { lines, dirty: false, newline, undo: UndoStack::new(UNDO_LIMIT) }
}

} // verus!
