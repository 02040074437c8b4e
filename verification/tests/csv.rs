use vweditor::cells::{cells_to_tsv, set_cell};
use vweditor::csv::{field_slice, join_fields, split_fields};

fn v(strs: &[&str]) -> Vec<String> {
    strs.iter().map(|s| s.to_string()).collect()
}

#[test]
fn split_then_join_gives_the_values_back() {
    for fields in [
        v(&["a", "b", "c"]),
        v(&["x,y", "q\"uote", ""]),
        v(&[""]),
        v(&["\"", "line\nbreak", "cr\r"]),
        v(&["가나", "다,라"]),
    ] {
        for delim in [b',', b'\t', b'|', b';'] {
            let line = join_fields(&fields, delim);
            assert_eq!(split_fields(&line, delim), fields, "{line:?}");
        }
    }
}

#[test]
fn join_quotes_only_what_needs_it() {
    assert_eq!(join_fields(&v(&["a", "b"]), b','), "a,b");
    assert_eq!(join_fields(&v(&["x,y", "b"]), b','), "\"x,y\",b");
    assert_eq!(join_fields(&v(&["say \"hi\""]), b','), "\"say \"\"hi\"\"\"");
    assert_eq!(join_fields(&v(&["x,y"]), b'\t'), "x,y");
}

#[test]
fn split_reads_the_dialect() {
    assert_eq!(split_fields("", b','), v(&[""]));
    assert_eq!(split_fields("a,", b','), v(&["a", ""]));
    assert_eq!(split_fields("\"a\"b,c", b','), v(&["ab", "c"]));
    assert_eq!(split_fields("a\"b,c", b','), v(&["a\"b", "c"]));
    assert_eq!(split_fields("\"a,b", b','), v(&["a,b"]));
    assert_eq!(field_slice("\"a,b\",c", b',', 0), Some("\"a,b\"".to_string()));
    assert_eq!(field_slice("a,b", b',', 2), None);
}

#[test]
fn a_written_cell_reads_back() {
    for value in ["plain", "with,comma", "with \"quote\"", "", "multi\nline"] {
        let mut lines = v(&["a,b,c"]);
        set_cell(&mut lines, 0, 4, value, b',');
        let fields = split_fields(&lines[0], b',');
        let shown = value.replace(['\n', '\r'], " ");
        assert_eq!(fields, v(&["a", "b", "c", "", &shown]));
        assert_eq!(cells_to_tsv(&lines, 0, 4, 0, 4, b','), shown);
    }
}

#[test]
fn a_cleared_block_reads_back_empty() {
    let mut lines = v(&["\"a,1\",b,c", "d,e,f"]);
    vweditor::cells::clear_cells(&mut lines, 0, 1, 1, 0, b',');
    assert_eq!(split_fields(&lines[0], b','), v(&["", "", "c"]));
    assert_eq!(split_fields(&lines[1], b','), v(&["", "", "f"]));
}

#[test]
fn pasted_cells_read_back() {
    let mut lines = v(&["a,b,c"]);
    vweditor::cells::paste_tsv(&mut lines, 0, 1, "x,1\t\"y\"\nz", b',');
    assert_eq!(split_fields(&lines[0], b','), v(&["a", "x,1", "\"y\""]));
    assert_eq!(split_fields(&lines[1], b','), v(&["", "z"]));
}
