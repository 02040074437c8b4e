use std::io::Write;
use vweditor::archive::{extract_single_table, is_table_name, is_zip};

/// A deflate-compressed zip archive holding `entries`.
fn zip_bytes(entries: &[(&str, &[u8])]) -> Vec<u8> {
    let mut w = zip::ZipWriter::new(std::io::Cursor::new(Vec::new()));
    let opts: zip::write::FileOptions<()> =
        zip::write::FileOptions::default().compression_method(zip::CompressionMethod::Deflated);
    for (name, content) in entries {
        w.start_file(*name, opts).unwrap();
        w.write_all(content).unwrap();
    }
    w.finish().unwrap().into_inner()
}

#[test]
fn detects_zip_magic() {
    assert!(is_zip(b"PK\x03\x04rest"));
    assert!(!is_zip(b"a,b,c\n1,2,3\n"));
    assert!(!is_zip(b"PAR1garbage"));
}

#[test]
fn extracts_the_single_csv_entry() {
    let p = zip_bytes(&[("data.csv", b"a,b\n1,2\n")]);
    let entry = extract_single_table(p).unwrap();
    assert_eq!(entry.name, "data.csv");
    assert_eq!(entry.bytes, b"a,b\n1,2\n");
}

#[test]
fn ignores_non_table_entries() {
    let p = zip_bytes(&[("readme.md", b"note"), ("data.csv", b"a,b\n1,2\n")]);
    let entry = extract_single_table(p).unwrap();
    assert_eq!(entry.name, "data.csv");
}

#[test]
fn errs_when_no_table_entry_found() {
    let p = zip_bytes(&[("readme.md", b"hello")]);
    assert!(extract_single_table(p).is_err());
}

#[test]
fn errs_when_multiple_table_entries_found() {
    let p = zip_bytes(&[("a.csv", b"1"), ("b.csv", b"2")]);
    let err = extract_single_table(p).unwrap_err();
    assert!(err.contains('2'));
}

#[test]
fn empty_archive_magic_is_zip() {
    assert!(is_zip(b"PK\x05\x06"));
    assert!(!is_zip(b"PK\x03"));
    assert!(!is_zip(b""));
}

#[test]
fn table_names_by_extension_in_any_case() {
    assert!(is_table_name("data/sales.csv"));
    assert!(is_table_name("X.TSV"));
    assert!(is_table_name("a.Psv"));
    assert!(is_table_name("notes.txt"));
    assert!(!is_table_name("readme.md"));
    assert!(!is_table_name("csv"));
    assert!(!is_table_name(".csv"));
    assert!(!is_table_name("a.csvx"));
}

#[test]
fn errors_name_what_went_wrong() {
    let err = extract_single_table(b"not a zip".to_vec()).unwrap_err();
    assert!(err.starts_with("Invalid zip archive: "));
    let p = zip_bytes(&[("readme.md", b"hello")]);
    assert_eq!(
        extract_single_table(p).unwrap_err(),
        "No CSV/TSV file found inside the zip archive."
    );
    let p = zip_bytes(&[("a.csv", b"1"), ("b.tsv", b"2"), ("c.txt", b"3")]);
    assert_eq!(
        extract_single_table(p).unwrap_err(),
        "The zip archive contains 3 CSV/TSV files; only single-file archives are supported."
    );
}

#[test]
fn directories_are_not_candidates() {
    let mut w = zip::ZipWriter::new(std::io::Cursor::new(Vec::new()));
    let opts: zip::write::FileOptions<()> = zip::write::FileOptions::default();
    w.add_directory("dir.csv/", opts).unwrap();
    w.start_file("dir.csv/t.tsv", opts).unwrap();
    w.write_all(b"x\ty\n").unwrap();
    let bytes = w.finish().unwrap().into_inner();
    let entry = extract_single_table(bytes).unwrap();
    assert_eq!(entry.name, "dir.csv/t.tsv");
    assert_eq!(entry.bytes, b"x\ty\n");
}
