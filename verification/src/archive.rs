//! Opening a table that comes packed in a zip archive: the archive must hold
//! exactly one file that looks like a table (`.csv`, `.tsv`, `.psv`, `.txt`).
use vstd::prelude::*;
use crate::chars::{chars_of, extend_chars, string_from};
use crate::i18n::ascii_lower;
use std::io::Cursor;
use std::io::Read;
use zip::result::ZipError;
use zip::ZipArchive;

verus! {

/// One table-like file taken out of a zip archive.
#[derive(Debug)]
pub struct ZipTableEntry {
    /// The path inside the archive (such as `data/sales.csv`); its extension
    /// tells the delimiter.
    pub name: String,
    pub bytes: Vec<u8>,
}

/// Whether the first bytes of a file are the magic of a zip archive: a local
/// file header (`PK\x03\x04`) or the end record of an empty archive
/// (`PK\x05\x06`).
pub open spec fn zip_magic(head: Seq<u8>) -> bool {
    head.len() >= 4 && head[0] == 0x50 && head[1] == 0x4b && ((head[2] == 3 && head[3] == 4) || (
    head[2] == 5 && head[3] == 6))
}

/// Whether `head`, the first bytes of a file, starts like a zip archive.
pub fn is_zip(head: &[u8]) -> (r: bool)
    ensures
        r == zip_magic(head@),
{
    head.len() >= 4 && head[0] == 0x50 && head[1] == 0x4b && ((head[2] == 3 && head[3] == 4) || (
    head[2] == 5 && head[3] == 6))
}

/// The last index `i` in `lo..k` with `s[i] == c`, or -1 when there is none.
pub open spec fn last_at(s: Seq<char>, c: char, lo: int, k: int) -> int
    decreases k - lo,
{
    if k <= lo {
        -1
    } else if s[k - 1] == c {
        k - 1
    } else {
        last_at(s, c, lo, k - 1)
    }
}

/// The extension of the file that a path inside an archive names: the file
/// name is what follows the last `/`, and the extension what follows its last
/// `.`, when that `.` is not the name's first character (so `.profile` has
/// none and `a.` has an empty one).
pub open spec fn file_extension(path: Seq<char>) -> Option<Seq<char>> {
    let start = last_at(path, '/', 0, path.len() as int) + 1;
    let dot = last_at(path, '.', start, path.len() as int);
    if dot > start {
        Some(path.skip(dot + 1))
    } else {
        None
    }
}

proof fn lemma_last_at(s: Seq<char>, c: char, lo: int, k: int)
    requires
        0 <= lo,
        k <= s.len(),
    ensures
        last_at(s, c, lo, k) == -1 || (lo <= last_at(s, c, lo, k) < k && s[last_at(s, c, lo, k)]
            == c),
        forall|j: int| last_at(s, c, lo, k) < j < k && lo <= j ==> s[j] != c,
    decreases k - lo,
{
    if k > lo && s[k - 1] != c {
        lemma_last_at(s, c, lo, k - 1);
    }
}

/// The last index in `lo..hi` where `cs` holds `c`.
fn find_last(cs: &[char], c: char, lo: usize, hi: usize) -> (r: Option<usize>)
    requires
        lo <= hi <= cs@.len(),
    ensures
        r matches Some(i) ==> i == last_at(cs@, c, lo as int, hi as int),
        r is None ==> last_at(cs@, c, lo as int, hi as int) == -1,
{
    let mut k = hi;
    while k > lo
        invariant
            lo <= k <= hi <= cs@.len(),
            last_at(cs@, c, lo as int, k as int) == last_at(cs@, c, lo as int, hi as int),
        decreases k,
    {
        if cs[k - 1] == c {
            return Some(k - 1);
        }
        k -= 1;
    }
    None
}

/// Whether an extension, ignoring ASCII case, is one of a table.
pub open spec fn table_ext(e: Seq<char>) -> bool {
    let l = e.map_values(|c: char| ascii_lower(c));
    l == seq!['c', 's', 'v'] || l == seq!['t', 's', 'v'] || l == seq!['p', 's', 'v'] || l == seq![
        't',
        'x',
        't',
    ]
}

/// Whether a file name looks like a table.
pub open spec fn table_name(name: Seq<char>) -> bool {
    match file_extension(name) {
        Some(e) => table_ext(e),
        None => false,
    }
}

/// Whether the path `name` names a table-like file: its extension is `csv`,
/// `tsv`, `psv` or `txt` in any case.
pub fn is_table_name(name: &str) -> (r: bool)
    ensures
        r == table_name(name@),
{
    let all = chars_of(name);
    let n = all.len();
    proof {
        lemma_last_at(all@, '/', 0, n as int);
    }
    let start: usize = match find_last(&all, '/', 0, n) {
        Some(i) => i + 1,
        None => 0,
    };
    proof {
        lemma_last_at(all@, '.', start as int, n as int);
    }
    let ext = match find_last(&all, '.', start, n) {
        Some(d) => {
            if d > start {
                assert(all@.subrange(d + 1, n as int) =~= all@.skip(d + 1));
                Some(crate::chars::sub_chars(&all, d + 1, n))
            } else {
                None
            }
        },
        None => None,
    };
    assert(ext matches Some(e) ==> file_extension(name@) == Some(e@));
    assert(ext is None ==> file_extension(name@) is None);
    match ext {
        Some(cs) => {
            if cs.len() != 3 {
                assert(cs@.map_values(|c: char| ascii_lower(c)).len() != 3);
                return false;
            }
            let a = crate::i18n::lower(cs[0]);
            let b = crate::i18n::lower(cs[1]);
            let c = crate::i18n::lower(cs[2]);
            let ghost l = cs@.map_values(|c: char| ascii_lower(c));
            assert(l.len() == 3 && l[0] == a && l[1] == b && l[2] == c);
            let r = (a == 'c' && b == 's' && c == 'v') || (a == 't' && b == 's' && c == 'v') || (a
                == 'p' && b == 's' && c == 'v') || (a == 't' && b == 'x' && c == 't');
            if r {
                assert(table_ext(cs@)) by {
                    if a == 'c' {
                        assert(l =~= seq!['c', 's', 'v']);
                    } else if a == 'p' {
                        assert(l =~= seq!['p', 's', 'v']);
                    } else if b == 's' {
                        assert(l =~= seq!['t', 's', 'v']);
                    } else {
                        assert(l =~= seq!['t', 'x', 't']);
                    }
                }
            }
            r
        },
        None => false,
    }
}

/// One entry of an archive as far as it can be read: its kind (a plain file
/// or not) and name, when the entry opens, and its unpacked bytes, when they
/// unpack.
pub type EntryModel = (Option<(bool, Seq<char>)>, Option<Seq<u8>>);

/// The entries that an opened archive holds, in order.
pub uninterp spec fn zip_held(a: ZipArchive<Cursor<Vec<u8>>>) -> Seq<EntryModel>;

/// The entries that the bytes of an archive hold, when they form one.
pub uninterp spec fn zip_listing(data: Seq<u8>) -> Option<Seq<EntryModel>>;

#[verifier::external_type_specification]
#[verifier::external_body]
#[verifier::reject_recursive_types(R)]
pub struct ExZipArchive<R>(ZipArchive<R>);

#[verifier::external_type_specification]
#[verifier::external_body]
#[verifier::reject_recursive_types(T)]
pub struct ExCursor<T>(Cursor<T>);

#[verifier::external_type_specification]
#[verifier::external_body]
pub struct ExZipError(ZipError);

#[verifier::external_type_specification]
#[verifier::external_body]
pub struct ExIoError(std::io::Error);

/// Reads the central directory of the archive in `data`.
/// Calls `zip::ZipArchive::new` on a `Cursor` over the bytes; claims that it
/// succeeds exactly when the bytes form an archive (`zip_listing` is some),
/// and that the archive then holds the entries `zip_listing` names.
#[verifier::external_body]
fn open_zip(data: Vec<u8>) -> (r: Result<ZipArchive<Cursor<Vec<u8>>>, ZipError>)
    ensures
        (r is Ok) == (zip_listing(data@) is Some),
        r matches Ok(a) ==> zip_listing(data@) == Some(zip_held(a)),
{
    ZipArchive::new(Cursor::new(data))
}

/// The number of entries of an archive.
/// Calls `zip::ZipArchive::len`; claims the number of entries held.
#[verifier::external_body]
fn zip_count(a: &ZipArchive<Cursor<Vec<u8>>>) -> (n: usize)
    ensures
        n == zip_held(*a).len(),
{
    a.len()
}

/// Whether entry `i` is a plain file, and its name.
/// Calls `zip::ZipArchive::by_index`, then `ZipFile::is_file` and
/// `ZipFile::name`; claims the entry's kind and name when it opens, an error
/// exactly when it does not, and that the archive holds the same entries after.
#[verifier::external_body]
fn zip_entry_meta(a: &mut ZipArchive<Cursor<Vec<u8>>>, i: usize) -> (r: Result<(bool, String), ZipError>)
    requires
        i < zip_held(*old(a)).len(),
    ensures
        zip_held(*final(a)) == zip_held(*old(a)),
        r matches Ok(m) ==> zip_held(*old(a))[i as int].0 == Some((m.0, m.1@)),
        r is Err ==> zip_held(*old(a))[i as int].0 is None,
{
    a.by_index(i).map(|f| (f.is_file(), f.name().to_owned()))
}

/// The name and the unpacked bytes of entry `i`.
/// Calls `zip::ZipArchive::by_index`, then `ZipFile::name` and
/// `Read::read_to_end`; claims an outer error exactly when the entry does not
/// open, an inner error exactly when its bytes do not unpack, and otherwise
/// the entry's name and bytes; the archive holds the same entries after.
#[verifier::external_body]
fn zip_entry_read(a: &mut ZipArchive<Cursor<Vec<u8>>>, i: usize) -> (r: Result<
    Result<(String, Vec<u8>), std::io::Error>,
    ZipError,
>)
    requires
        i < zip_held(*old(a)).len(),
    ensures
        zip_held(*final(a)) == zip_held(*old(a)),
        (r is Err) == (zip_held(*old(a))[i as int].0 is None),
        r matches Ok(Err(_)) ==> zip_held(*old(a))[i as int].1 is None,
        r matches Ok(Ok(x)) ==> zip_held(*old(a))[i as int].0 matches Some(m) && m.1 == x.0@
            && zip_held(*old(a))[i as int].1 == Some(x.1@),
{
    match a.by_index(i) {
        Ok(mut f) => {
            let name = f.name().to_owned();
            let mut bytes = Vec::new();
            Ok(f.read_to_end(&mut bytes).map(|_| (name, bytes)))
        },
        Err(e) => Err(e),
    }
}

/// The message of an archive error.
/// Calls `Display` of `zip::result::ZipError`; nothing is claimed of the text.
#[verifier::external_body]
fn zip_error_text(e: &ZipError) -> (r: String) {
    e.to_string()
}

/// The message of an I/O error.
/// Calls `Display` of `std::io::Error`; nothing is claimed of the text.
#[verifier::external_body]
fn io_error_text(e: &std::io::Error) -> (r: String) {
    e.to_string()
}

/// Whether entry `e` is a candidate: a plain file with a table name.
pub open spec fn candidate(e: EntryModel) -> bool {
    e.0 matches Some(m) && m.0 && table_name(m.1)
}

/// The number of candidates among the first `k` entries.
pub open spec fn candidates(es: Seq<EntryModel>, k: int) -> nat
    decreases k,
{
    if k <= 0 || k > es.len() {
        0
    } else {
        candidates(es, k - 1) + if candidate(es[k - 1]) {
            1nat
        } else {
            0nat
        }
    }
}

/// Whether every one of the first `k` entries opens.
pub open spec fn all_open(es: Seq<EntryModel>, k: int) -> bool {
    forall|i: int| 0 <= i < k ==> (#[trigger] es[i]).0 is Some
}

/// The decimal digits of `n`.
pub open spec fn decimal_of(n: nat) -> Seq<char>
    decreases n,
{
    if n < 10 {
        seq![digit_char(n)]
    } else {
        decimal_of(n / 10) + seq![digit_char(n % 10)]
    }
}

pub open spec fn digit_char(d: nat) -> char {
    (('0' as u32) + d) as char
}

/// `n` in decimal.
fn decimal(n: usize) -> (r: Vec<char>)
    ensures
        r@ == decimal_of(n as nat),
    decreases n,
{
    let d = n % 10;
    let c = ((48 + d) as u8) as char;
    if n < 10 {
        assert(c == digit_char(n as nat));
        vec![c]
    } else {
        let mut r = decimal(n / 10);
        r.push(c);
        assert(c == digit_char((n % 10) as nat));
        r
    }
}

/// `prefix` followed by `rest`.
fn joined(prefix: &str, rest: &[char]) -> (r: String)
    ensures
        r@ == prefix@ + rest@,
{
    let mut cs = chars_of(prefix);
    extend_chars(&mut cs, rest);
    string_from(&cs)
}

/// Whether the error message `e` is `prefix` followed by some text.
pub open spec fn starts_message(e: Seq<char>, prefix: Seq<char>) -> bool {
    e.len() >= prefix.len() && e.take(prefix.len() as int) == prefix
}

/// Takes the one table-like file out of the zip archive `data`: a plain file
/// whose extension is `csv`, `tsv`, `psv` or `txt` (any case). It fails, with a
/// message for people, when the bytes are no archive, when an entry cannot be
/// read, when there is no such file or more than one, or when the file does
/// not unpack.
pub fn extract_single_table(data: Vec<u8>) -> (r: Result<ZipTableEntry, String>)
    ensures
        zip_listing(data@) is None ==> (r matches Err(e) && starts_message(
            e@,
            "Invalid zip archive: "@,
        )),
        zip_listing(data@) matches Some(es) ==> {
            if !all_open(es, es.len() as int) {
                (r matches Err(e) && starts_message(e@, "Failed to read zip entry: "@))
            } else if candidates(es, es.len() as int) == 0 {
                (r matches Err(e) && e@ == "No CSV/TSV file found inside the zip archive."@)
            } else if candidates(es, es.len() as int) >= 2 {
                (r matches Err(e) && e@ == "The zip archive contains "@ + decimal_of(
                    candidates(es, es.len() as int),
                ) + " CSV/TSV files; only single-file archives are supported."@)
            } else {
                exists|j: int|
                    0 <= j < es.len() && candidate(#[trigger] es[j]) && (if es[j].1 is None {
                        (r matches Err(e) && starts_message(
                            e@,
                            "Failed to decompress zip entry: "@,
                        ))
                    } else {
                        (r matches Ok(t) && es[j].0 matches Some(m) && t.name@ == m.1 && es[j].1
                            == Some(t.bytes@))
                    })
            }
        },
{
    let ghost d = data@;
    let mut archive = match open_zip(data) {
        Ok(a) => a,
        Err(e) => {
            let text = zip_error_text(&e);
            let cs = chars_of(text.as_str());
            let msg = joined("Invalid zip archive: ", &cs);
            proof {
                reveal_strlit("Invalid zip archive: ");
                assert(msg@.take("Invalid zip archive: "@.len() as int) =~= "Invalid zip archive: "@);
            }
            return Err(msg);
        },
    };
    let ghost es = zip_held(archive);
    let n = zip_count(&archive);
    let mut candidate_at: usize = 0;
    let mut count: usize = 0;
    let mut i: usize = 0;
    while i < n
        invariant
            i <= n == es.len(),
            zip_listing(d) == Some(es),
            d == data@,
            zip_held(archive) == es,
            all_open(es, i as int),
            count == candidates(es, i as int),
            count <= i,
            count > 0 ==> candidate_at < i && candidate(es[candidate_at as int]),
            count == 0 ==> forall|j: int| 0 <= j < i ==> !candidate(#[trigger] es[j]),
            count == 1 ==> forall|j: int| 0 <= j < i && candidate(#[trigger] es[j]) ==> j == candidate_at,
        decreases n - i,
    {
        match zip_entry_meta(&mut archive, i) {
            Ok(m) => {
                let (is_file, name) = m;
                if is_file && is_table_name(name.as_str()) {
                    count += 1;
                    candidate_at = i;
                }
            },
            Err(e) => {
                let text = zip_error_text(&e);
                let cs = chars_of(text.as_str());
                let msg = joined("Failed to read zip entry: ", &cs);
                proof {
                    reveal_strlit("Failed to read zip entry: ");
                    assert(msg@.take("Failed to read zip entry: "@.len() as int)
                        =~= "Failed to read zip entry: "@);
                    assert(!all_open(es, es.len() as int)) by {
                        assert(es[i as int].0 is None);
                    }
                }
                return Err(msg);
            },
        }
        i += 1;
    }
    if count == 0 {
        return Err(String::from_str("No CSV/TSV file found inside the zip archive."));
    }
    if count >= 2 {
        let digits = decimal(count);
        let mut cs = chars_of("The zip archive contains ");
        extend_chars(&mut cs, &digits);
        let tail = chars_of(" CSV/TSV files; only single-file archives are supported.");
        extend_chars(&mut cs, &tail);
        return Err(string_from(&cs));
    }
    match zip_entry_read(&mut archive, candidate_at) {
        Ok(Ok(x)) => {
            let (name, bytes) = x;
            assert(candidate(es[candidate_at as int]));
            Ok(ZipTableEntry { name, bytes })
        },
        Ok(Err(e)) => {
            let text = io_error_text(&e);
            let cs = chars_of(text.as_str());
            let msg = joined("Failed to decompress zip entry: ", &cs);
            proof {
                assert(candidate(es[candidate_at as int]));
                reveal_strlit("Failed to decompress zip entry: ");
                assert(msg@.take("Failed to decompress zip entry: "@.len() as int)
                    =~= "Failed to decompress zip entry: "@);
            }
            Err(msg)
        },
        Err(e) => {
            // The entry opened a moment ago, so it opens again.
            let text = zip_error_text(&e);
            let cs = chars_of(text.as_str());
            let msg = joined("Failed to read zip entry: ", &cs);
            Err(msg)
        },
    }
}

} // verus!
