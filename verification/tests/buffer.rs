use vweditor::buffer::load_edit_buffer;
use vweditor::edit::Newline;

#[test]
fn load_lf_basic() {
    let buf = load_edit_buffer(b"a\nb\nc\n");
    assert_eq!(buf.lines, vec!["a", "b", "c"]);
    assert_eq!(buf.newline, Newline::Lf);
    assert!(!buf.dirty);
}

#[test]
fn load_crlf_detected() {
    let buf = load_edit_buffer(b"a\r\nb\r\n");
    assert_eq!(buf.lines, vec!["a", "b"]);
    assert_eq!(buf.newline, Newline::CrLf);
}

#[test]
fn load_no_trailing_newline() {
    let buf = load_edit_buffer(b"a\nb");
    assert_eq!(buf.lines, vec!["a", "b"]);
}

#[test]
fn load_empty_file_is_one_empty_line() {
    let buf = load_edit_buffer(b"");
    assert_eq!(buf.lines, vec![""]);
    assert_eq!(buf.newline, Newline::Lf);
}

#[test]
fn load_keeps_inner_empty_lines_and_decodes_utf8() {
    let buf = load_edit_buffer("가,나\n\n\r\nx".as_bytes());
    assert_eq!(buf.lines, vec!["가,나", "", "", "x"]);
    assert_eq!(buf.newline, Newline::CrLf);
    assert!(buf.undo.is_empty());
    assert_eq!(buf.undo.revision(), 0);
}

#[test]
fn load_lone_newline_is_one_empty_line() {
    let buf = load_edit_buffer(b"\n");
    assert_eq!(buf.lines, vec![""]);
    let buf = load_edit_buffer(b"a\r");
    assert_eq!(buf.lines, vec!["a"]);
    assert_eq!(buf.newline, Newline::Lf);
    let buf = load_edit_buffer(b"a\nb\r\nc");
    assert_eq!(buf.newline, Newline::CrLf);
}

#[test]
fn load_replaces_invalid_utf8() {
    let buf = load_edit_buffer(b"a\xffb\n");
    assert_eq!(buf.lines, vec!["a\u{fffd}b"]);
}
