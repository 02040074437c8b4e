//! The words of the user interface, in every supported language, kept in one
//! place: each entry gives its text in all languages side by side, so that no
//! language can miss one.
use vstd::prelude::*;
use crate::chars::chars_of;
use crate::edit::spec_is_whitespace;

verus! {

/// A supported language. `Lang::detect` picks one from the system locale.
#[derive(Clone, Copy, PartialEq, Eq, Debug, Structural)]
pub enum Lang {
    Ko,
    En,
}

impl Default for Lang {
    /// English, the fallback language.
    fn default() -> (r: Self)
        ensures
            r == Lang::En,
    {
        Lang::En
    }
}

/// `c` with ASCII capitals turned into small letters.
pub open spec fn ascii_lower(c: char) -> char {
    if 'A' <= c <= 'Z' {
        ((c as u32) + 32) as char
    } else {
        c
    }
}

/// Where the primary subtag of a language tag ends: at the first `-` or `_`,
/// or at the end of the tag.
pub open spec fn primary_end(tag: Seq<char>, i: int) -> int
    decreases tag.len() - i,
{
    if i >= tag.len() || tag[i] == '-' || tag[i] == '_' {
        i
    } else {
        primary_end(tag, i + 1)
    }
}

/// The primary subtag of `tag` (`ko` of `ko-KR`), lower-cased.
pub open spec fn primary_subtag(tag: Seq<char>) -> Seq<char> {
    tag.take(primary_end(tag, 0)).map_values(|c: char| ascii_lower(c))
}

/// The language that a BCP-47 tag names: Korean for the primary subtag `ko` in
/// any case, English for every other tag.
pub open spec fn lang_of_tag(tag: Seq<char>) -> Lang {
    if primary_subtag(tag) == seq!['k', 'o'] {
        Lang::Ko
    } else {
        Lang::En
    }
}

proof fn lemma_primary_end(tag: Seq<char>, i: int)
    requires
        0 <= i <= tag.len(),
    ensures
        i <= primary_end(tag, i) <= tag.len(),
        forall|j: int| i <= j < primary_end(tag, i) ==> tag[j] != '-' && tag[j] != '_',
        primary_end(tag, i) < tag.len() ==> tag[primary_end(tag, i)] == '-' || tag[primary_end(
            tag,
            i,
        )] == '_',
    decreases tag.len() - i,
{
    if i < tag.len() && tag[i] != '-' && tag[i] != '_' {
        lemma_primary_end(tag, i + 1);
    }
}

/// Reads a system locale, as `Lang::detect` gets it: its language, or English
/// when there is none.
pub open spec fn lang_of_locale(locale: Option<Seq<char>>) -> Lang {
    match locale {
        Some(t) => lang_of_tag(t),
        None => Lang::En,
    }
}

/// The system locale as a BCP-47 tag, when it can be read.
/// Calls `sys_locale::get_locale`; nothing is claimed of the result, which
/// depends on the machine.
#[verifier::external_body]
fn system_locale() -> (r: Option<String>) {
    sys_locale::get_locale()
}

impl Lang {
    /// The language of a BCP-47 tag (`ko-KR`, `en-US`, `ko` ...). The region is
    /// not looked at; an unknown tag gives English.
    pub fn from_tag(tag: &str) -> (r: Self)
        ensures
            r == lang_of_tag(tag@),
    {
        let cs = chars_of(tag);
        let mut i: usize = 0;
        while i < cs.len() && cs[i] != '-' && cs[i] != '_'
            invariant
                i <= cs@.len(),
                cs@ == tag@,
                primary_end(cs@, i as int) == primary_end(cs@, 0),
            decreases cs@.len() - i,
        {
            i += 1;
        }
        proof {
            lemma_primary_end(cs@, 0);
        }
        let ghost p = primary_subtag(tag@);
        assert(p.len() == i);
        if i == 2 && lower(cs[0]) == 'k' && lower(cs[1]) == 'o' {
            assert(p =~= seq!['k', 'o']);
            Lang::Ko
        } else {
            assert(i == 2 ==> p[0] == ascii_lower(cs@[0]) && p[1] == ascii_lower(cs@[1]));
            Lang::En
        }
    }

    /// The language of the system locale, English when it cannot be read.
    pub fn detect() -> (r: Self)
        ensures
            r == Lang::En || r == Lang::Ko,
    {
        let locale = system_locale();
        Lang::from_locale(locale)
    }

    /// The language of a locale read from the system; English for none.
    pub fn from_locale(locale: Option<String>) -> (r: Self)
        ensures
            r == lang_of_locale(
                match locale {
                    Some(s) => Some(s@),
                    None => None,
                },
            ),
    {
        match locale {
            Some(t) => Lang::from_tag(t.as_str()),
            None => Lang::En,
        }
    }

    /// The name shown in the language menu, written in that language itself.
    pub fn native_name(self) -> (r: &'static str)
        ensures
            self == Lang::Ko ==> r@ == "한국어"@,
            self == Lang::En ==> r@ == "English"@,
    {
        match self {
            Lang::Ko => "한국어",
            Lang::En => "English",
        }
    }

    /// Every language, in menu order.
    pub const ALL: [Lang; 2] = [Lang::En, Lang::Ko];
}

/// `c` with an ASCII capital turned into a small letter.
pub(crate) fn lower(c: char) -> (r: char)
    ensures
        r == ascii_lower(c),
{
    if 'A' <= c && c <= 'Z' {
        let b = c as u8;
        (b + 32) as char
    } else {
        c
    }
}

/// Every text of the user interface in one language; `t(lang)` gives them.
pub struct Strings {
    pub menu_file: &'static str,
    pub menu_edit: &'static str,
    pub menu_tools: &'static str,
    pub menu_language: &'static str,
    pub menu_new: &'static str,
    pub menu_open: &'static str,
    pub menu_save: &'static str,
    pub menu_edit_mode: &'static str,
    pub menu_undo: &'static str,
    pub menu_find_replace: &'static str,
    pub menu_sort_columns: &'static str,
    pub menu_convert_delim: &'static str,
    pub menu_bad_rows: &'static str,
    pub menu_row_col_numbers: &'static str,
    pub find_label: &'static str,
    pub find_replace_label: &'static str,
    pub find_hex: &'static str,
    pub find_next: &'static str,
    pub find_prev: &'static str,
    pub find_all: &'static str,
    pub find_replace_one: &'static str,
    pub find_replace_all: &'static str,
    pub find_extract_rows: &'static str,
    pub find_partial: &'static str,
    pub find_whole_word: &'static str,
    pub find_whole_cell: &'static str,
    pub find_match_case: &'static str,
    pub find_escapes: &'static str,
    pub save_overwrite: &'static str,
    pub save_include_bom: &'static str,
    pub save_cp949_no_bom: &'static str,
    pub open_as_binary: &'static str,
    pub open_force_encoding: &'static str,
    pub open_as_text: &'static str,
    pub convert_to: &'static str,
    pub convert_do: &'static str,
    pub convert_custom: &'static str,
    pub convert_warn_change: &'static str,
    pub convert_warn_save: &'static str,
    pub bad_checking: &'static str,
    pub bad_not_checked: &'static str,
    pub bad_none: &'static str,
    pub bad_click_to_jump: &'static str,
    pub bad_click_to_list: &'static str,
    pub sort_do: &'static str,
    pub sort_running: &'static str,
    pub sort_clear: &'static str,
    pub sort_priority: &'static str,
    pub sort_ignore_case: &'static str,
    pub sort_add_criterion: &'static str,
    pub sort_all_in_use: &'static str,
    pub sort_maximum: &'static str,
    pub sort_column_n: &'static str,
    pub sort_pick_header: &'static str,
    pub sort_text_asc: &'static str,
    pub sort_text_desc: &'static str,
    pub sort_number_asc: &'static str,
    pub sort_number_desc: &'static str,
    pub filter_title: &'static str,
    pub filter_column_n: &'static str,
    pub filter_search: &'static str,
    pub filter_number_range: &'static str,
    pub filter_invalid_number: &'static str,
    pub filter_distinct_n: &'static str,
    pub filter_distinct_est: &'static str,
    pub filter_truncated: &'static str,
    pub filter_select_all: &'static str,
    pub filter_clear_all: &'static str,
    pub filter_apply: &'static str,
    pub filter_clear: &'static str,
    pub filter_scanning: &'static str,
    pub filter_blank: &'static str,
    pub common_cancel: &'static str,
    pub common_continue: &'static str,
    pub common_close: &'static str,
    pub common_load: &'static str,
    pub common_stop: &'static str,
    pub common_resume: &'static str,
    pub common_header: &'static str,
    pub common_rows: &'static str,
    pub common_columns: &'static str,
    pub common_line: &'static str,
    pub common_no_file: &'static str,
    pub err_open_file: &'static str,
    pub err_parquet_read: &'static str,
}

/// The texts of `lang`.
pub open spec fn strings_for(lang: Lang) -> Strings {
    match lang {
        Lang::Ko => Strings {
            menu_file: "파일",
            menu_edit: "편집",
            menu_tools: "도구",
            menu_language: "언어",
            menu_new: "새 파일",
            menu_open: "열기…",
            menu_save: "저장",
            menu_edit_mode: "편집 모드",
            menu_undo: "되돌리기   Ctrl+Z",
            menu_find_replace: "찾기·바꾸기…   Ctrl+F",
            menu_sort_columns: "열 기준 정렬…",
            menu_convert_delim: "구분자 변환…",
            menu_bad_rows: "오류 행…",
            menu_row_col_numbers: "행·열 번호…",
            find_label: "찾기:",
            find_replace_label: "바꾸기:",
            find_hex: "헥스",
            find_next: "다음 찾기",
            find_prev: "이전 찾기",
            find_all: "모두 찾기",
            find_replace_one: "바꾸기",
            find_replace_all: "모두 바꾸기",
            find_extract_rows: "행 추출",
            find_partial: "부분 일치",
            find_whole_word: "단어 단위",
            find_whole_cell: "셀 전체",
            find_match_case: "대소문자 구분",
            find_escapes: "이스케이프 문자",
            save_overwrite: "덮어쓰기:",
            save_include_bom: "BOM 포함",
            save_cp949_no_bom: "(CP949는 BOM이 없습니다)",
            open_as_binary: "바이너리(헥스)로 열기",
            open_force_encoding: "또는 인코딩을 지정해 열기:",
            open_as_text: "텍스트로 열기",
            convert_to: "변환할 구분자",
            convert_do: "변환",
            convert_custom: "직접 입력:",
            convert_warn_change: "파일 내용이 바뀝니다. 되돌리려면 Ctrl+Z.",
            convert_warn_save: "저장해야 디스크에 반영됩니다. 뷰 모드면 편집 모드로 전환됩니다.",
            bad_checking: "행 검사 중…",
            bad_not_checked: "아직 검사하지 않았습니다.",
            bad_none: "오류 행이 없습니다.",
            bad_click_to_jump: "이 행으로 이동",
            bad_click_to_list: "목록 보기",
            sort_do: "정렬",
            sort_running: "정렬 중…",
            sort_clear: "정렬 해제",
            sort_priority: "우선순위",
            sort_ignore_case: "대소문자 무시",
            sort_add_criterion: "+ 기준 추가",
            sort_all_in_use: "(모든 열을 쓰고 있습니다)",
            sort_maximum: "(최대 {})",
            sort_column_n: "정렬: {}번째 열",
            sort_pick_header: "정렬: (헤더를 눌러 열을 고르세요)",
            sort_text_asc: "문자 ↑",
            sort_text_desc: "문자 ↓",
            sort_number_asc: "숫자 ↑",
            sort_number_desc: "숫자 ↓",
            filter_title: "필터 — {}",
            filter_column_n: "{}번째 열",
            filter_search: "검색 / 포함:",
            filter_number_range: "숫자 범위:",
            filter_invalid_number: "(숫자가 아님)",
            filter_distinct_n: "고유값 {}개",
            filter_distinct_est: "고유값 약 {}개(추정)",
            filter_truncated: "고유값이 너무 많아 앞 {}개만 보입니다. 위 검색으로 좁히세요.",
            filter_select_all: "전체 선택",
            filter_clear_all: "전체 해제",
            filter_apply: "적용",
            filter_clear: "필터 해제",
            filter_scanning: "스캔 중…",
            filter_blank: "(빈 값)",
            common_cancel: "취소",
            common_continue: "계속",
            common_close: "닫기",
            common_load: "불러오기",
            common_stop: "중지",
            common_resume: "재개",
            common_header: "헤더",
            common_rows: "행:",
            common_columns: "열:",
            common_line: "줄",
            common_no_file: "열린 파일 없음",
            err_open_file: "파일을 열 수 없습니다",
            err_parquet_read: "Parquet으로 읽을 수 없습니다",
        },
        Lang::En => Strings {
            menu_file: "File",
            menu_edit: "Edit",
            menu_tools: "Tools",
            menu_language: "Language",
            menu_new: "New",
            menu_open: "Open…",
            menu_save: "Save",
            menu_edit_mode: "Edit Mode",
            menu_undo: "Undo   Ctrl+Z",
            menu_find_replace: "Find / Replace…   Ctrl+F",
            menu_sort_columns: "Sort by Columns…",
            menu_convert_delim: "Convert Delimiter…",
            menu_bad_rows: "Bad Rows…",
            menu_row_col_numbers: "Row & Column Numbers…",
            find_label: "Find:",
            find_replace_label: "Replace:",
            find_hex: "Hex",
            find_next: "Find Next",
            find_prev: "Find Prev",
            find_all: "Find All",
            find_replace_one: "Replace",
            find_replace_all: "Replace All",
            find_extract_rows: "Extract Rows",
            find_partial: "Partial",
            find_whole_word: "Whole word",
            find_whole_cell: "Whole cell",
            find_match_case: "Match case",
            find_escapes: "Escape sequences",
            save_overwrite: "Overwrite:",
            save_include_bom: "Include BOM",
            save_cp949_no_bom: "(CP949 has no BOM)",
            open_as_binary: "Open as Binary (Hex)",
            open_force_encoding: "Or force a text encoding:",
            open_as_text: "Open as Text",
            convert_to: "Convert to",
            convert_do: "Convert",
            convert_custom: "Custom:",
            convert_warn_change: "This changes the file contents. Press Ctrl+Z to undo.",
            convert_warn_save: "Changes reach the disk only when you save. View mode switches to edit mode.",
            bad_checking: "Checking rows…",
            bad_not_checked: "Not checked yet.",
            bad_none: "No bad rows.",
            bad_click_to_jump: "Click to jump to this row",
            bad_click_to_list: "Click to see the list",
            sort_do: "Sort",
            sort_running: "Sorting…",
            sort_clear: "Clear Sort",
            sort_priority: "Priority",
            sort_ignore_case: "Ignore case",
            sort_add_criterion: "+ Add criterion",
            sort_all_in_use: "(all columns in use)",
            sort_maximum: "(maximum {})",
            sort_column_n: "Sort: column {}",
            sort_pick_header: "Sort: (click a header to select a column)",
            sort_text_asc: "Text ↑",
            sort_text_desc: "Text ↓",
            sort_number_asc: "Number ↑",
            sort_number_desc: "Number ↓",
            filter_title: "Filter — {}",
            filter_column_n: "Column {}",
            filter_search: "Search / contains:",
            filter_number_range: "Number range:",
            filter_invalid_number: "(not a number)",
            filter_distinct_n: "{} distinct values",
            filter_distinct_est: "~{} distinct values (estimated)",
            filter_truncated: "Too many distinct values — showing first {}. Use the text filter above to narrow down.",
            filter_select_all: "Select All",
            filter_clear_all: "Clear All",
            filter_apply: "Apply",
            filter_clear: "Clear Filter",
            filter_scanning: "Scanning…",
            filter_blank: "(blank)",
            common_cancel: "Cancel",
            common_continue: "Continue",
            common_close: "Close",
            common_load: "Load",
            common_stop: "Stop",
            common_resume: "Resume",
            common_header: "Header",
            common_rows: "Rows:",
            common_columns: "Columns:",
            common_line: "Line",
            common_no_file: "No file open",
            err_open_file: "Cannot open file",
            err_parquet_read: "Cannot read as Parquet",
        },
    }
}

/// The texts of `lang`.
pub fn t(lang: Lang) -> (r: Strings)
    ensures
        r == strings_for(lang),
{
    match lang {
        Lang::Ko => Strings {
            menu_file: "파일",
            menu_edit: "편집",
            menu_tools: "도구",
            menu_language: "언어",
            menu_new: "새 파일",
            menu_open: "열기…",
            menu_save: "저장",
            menu_edit_mode: "편집 모드",
            menu_undo: "되돌리기   Ctrl+Z",
            menu_find_replace: "찾기·바꾸기…   Ctrl+F",
            menu_sort_columns: "열 기준 정렬…",
            menu_convert_delim: "구분자 변환…",
            menu_bad_rows: "오류 행…",
            menu_row_col_numbers: "행·열 번호…",
            find_label: "찾기:",
            find_replace_label: "바꾸기:",
            find_hex: "헥스",
            find_next: "다음 찾기",
            find_prev: "이전 찾기",
            find_all: "모두 찾기",
            find_replace_one: "바꾸기",
            find_replace_all: "모두 바꾸기",
            find_extract_rows: "행 추출",
            find_partial: "부분 일치",
            find_whole_word: "단어 단위",
            find_whole_cell: "셀 전체",
            find_match_case: "대소문자 구분",
            find_escapes: "이스케이프 문자",
            save_overwrite: "덮어쓰기:",
            save_include_bom: "BOM 포함",
            save_cp949_no_bom: "(CP949는 BOM이 없습니다)",
            open_as_binary: "바이너리(헥스)로 열기",
            open_force_encoding: "또는 인코딩을 지정해 열기:",
            open_as_text: "텍스트로 열기",
            convert_to: "변환할 구분자",
            convert_do: "변환",
            convert_custom: "직접 입력:",
            convert_warn_change: "파일 내용이 바뀝니다. 되돌리려면 Ctrl+Z.",
            convert_warn_save: "저장해야 디스크에 반영됩니다. 뷰 모드면 편집 모드로 전환됩니다.",
            bad_checking: "행 검사 중…",
            bad_not_checked: "아직 검사하지 않았습니다.",
            bad_none: "오류 행이 없습니다.",
            bad_click_to_jump: "이 행으로 이동",
            bad_click_to_list: "목록 보기",
            sort_do: "정렬",
            sort_running: "정렬 중…",
            sort_clear: "정렬 해제",
            sort_priority: "우선순위",
            sort_ignore_case: "대소문자 무시",
            sort_add_criterion: "+ 기준 추가",
            sort_all_in_use: "(모든 열을 쓰고 있습니다)",
            sort_maximum: "(최대 {})",
            sort_column_n: "정렬: {}번째 열",
            sort_pick_header: "정렬: (헤더를 눌러 열을 고르세요)",
            sort_text_asc: "문자 ↑",
            sort_text_desc: "문자 ↓",
            sort_number_asc: "숫자 ↑",
            sort_number_desc: "숫자 ↓",
            filter_title: "필터 — {}",
            filter_column_n: "{}번째 열",
            filter_search: "검색 / 포함:",
            filter_number_range: "숫자 범위:",
            filter_invalid_number: "(숫자가 아님)",
            filter_distinct_n: "고유값 {}개",
            filter_distinct_est: "고유값 약 {}개(추정)",
            filter_truncated: "고유값이 너무 많아 앞 {}개만 보입니다. 위 검색으로 좁히세요.",
            filter_select_all: "전체 선택",
            filter_clear_all: "전체 해제",
            filter_apply: "적용",
            filter_clear: "필터 해제",
            filter_scanning: "스캔 중…",
            filter_blank: "(빈 값)",
            common_cancel: "취소",
            common_continue: "계속",
            common_close: "닫기",
            common_load: "불러오기",
            common_stop: "중지",
            common_resume: "재개",
            common_header: "헤더",
            common_rows: "행:",
            common_columns: "열:",
            common_line: "줄",
            common_no_file: "열린 파일 없음",
            err_open_file: "파일을 열 수 없습니다",
            err_parquet_read: "Parquet으로 읽을 수 없습니다",
        },
        Lang::En => Strings {
            menu_file: "File",
            menu_edit: "Edit",
            menu_tools: "Tools",
            menu_language: "Language",
            menu_new: "New",
            menu_open: "Open…",
            menu_save: "Save",
            menu_edit_mode: "Edit Mode",
            menu_undo: "Undo   Ctrl+Z",
            menu_find_replace: "Find / Replace…   Ctrl+F",
            menu_sort_columns: "Sort by Columns…",
            menu_convert_delim: "Convert Delimiter…",
            menu_bad_rows: "Bad Rows…",
            menu_row_col_numbers: "Row & Column Numbers…",
            find_label: "Find:",
            find_replace_label: "Replace:",
            find_hex: "Hex",
            find_next: "Find Next",
            find_prev: "Find Prev",
            find_all: "Find All",
            find_replace_one: "Replace",
            find_replace_all: "Replace All",
            find_extract_rows: "Extract Rows",
            find_partial: "Partial",
            find_whole_word: "Whole word",
            find_whole_cell: "Whole cell",
            find_match_case: "Match case",
            find_escapes: "Escape sequences",
            save_overwrite: "Overwrite:",
            save_include_bom: "Include BOM",
            save_cp949_no_bom: "(CP949 has no BOM)",
            open_as_binary: "Open as Binary (Hex)",
            open_force_encoding: "Or force a text encoding:",
            open_as_text: "Open as Text",
            convert_to: "Convert to",
            convert_do: "Convert",
            convert_custom: "Custom:",
            convert_warn_change: "This changes the file contents. Press Ctrl+Z to undo.",
            convert_warn_save: "Changes reach the disk only when you save. View mode switches to edit mode.",
            bad_checking: "Checking rows…",
            bad_not_checked: "Not checked yet.",
            bad_none: "No bad rows.",
            bad_click_to_jump: "Click to jump to this row",
            bad_click_to_list: "Click to see the list",
            sort_do: "Sort",
            sort_running: "Sorting…",
            sort_clear: "Clear Sort",
            sort_priority: "Priority",
            sort_ignore_case: "Ignore case",
            sort_add_criterion: "+ Add criterion",
            sort_all_in_use: "(all columns in use)",
            sort_maximum: "(maximum {})",
            sort_column_n: "Sort: column {}",
            sort_pick_header: "Sort: (click a header to select a column)",
            sort_text_asc: "Text ↑",
            sort_text_desc: "Text ↓",
            sort_number_asc: "Number ↑",
            sort_number_desc: "Number ↓",
            filter_title: "Filter — {}",
            filter_column_n: "Column {}",
            filter_search: "Search / contains:",
            filter_number_range: "Number range:",
            filter_invalid_number: "(not a number)",
            filter_distinct_n: "{} distinct values",
            filter_distinct_est: "~{} distinct values (estimated)",
            filter_truncated: "Too many distinct values — showing first {}. Use the text filter above to narrow down.",
            filter_select_all: "Select All",
            filter_clear_all: "Clear All",
            filter_apply: "Apply",
            filter_clear: "Clear Filter",
            filter_scanning: "Scanning…",
            filter_blank: "(blank)",
            common_cancel: "Cancel",
            common_continue: "Continue",
            common_close: "Close",
            common_load: "Load",
            common_stop: "Stop",
            common_resume: "Resume",
            common_header: "Header",
            common_rows: "Rows:",
            common_columns: "Columns:",
            common_line: "Line",
            common_no_file: "No file open",
            err_open_file: "Cannot open file",
            err_parquet_read: "Cannot read as Parquet",
        },
    }
}

/// Whether a text shows something: it is not empty and does not start with
/// white space.
pub open spec fn visible(s: Seq<char>) -> bool {
    s.len() > 0 && !spec_is_whitespace(s[0])
}

/// Every text of `s` shows something.
pub open spec fn all_visible(s: Strings) -> bool {
    visible(s.menu_file@) &&
    visible(s.menu_edit@) &&
    visible(s.menu_tools@) &&
    visible(s.menu_language@) &&
    visible(s.menu_new@) &&
    visible(s.menu_open@) &&
    visible(s.menu_save@) &&
    visible(s.menu_edit_mode@) &&
    visible(s.menu_undo@) &&
    visible(s.menu_find_replace@) &&
    visible(s.menu_sort_columns@) &&
    visible(s.menu_convert_delim@) &&
    visible(s.menu_bad_rows@) &&
    visible(s.menu_row_col_numbers@) &&
    visible(s.find_label@) &&
    visible(s.find_replace_label@) &&
    visible(s.find_hex@) &&
    visible(s.find_next@) &&
    visible(s.find_prev@) &&
    visible(s.find_all@) &&
    visible(s.find_replace_one@) &&
    visible(s.find_replace_all@) &&
    visible(s.find_extract_rows@) &&
    visible(s.find_partial@) &&
    visible(s.find_whole_word@) &&
    visible(s.find_whole_cell@) &&
    visible(s.find_match_case@) &&
    visible(s.find_escapes@) &&
    visible(s.save_overwrite@) &&
    visible(s.save_include_bom@) &&
    visible(s.save_cp949_no_bom@) &&
    visible(s.open_as_binary@) &&
    visible(s.open_force_encoding@) &&
    visible(s.open_as_text@) &&
    visible(s.convert_to@) &&
    visible(s.convert_do@) &&
    visible(s.convert_custom@) &&
    visible(s.convert_warn_change@) &&
    visible(s.convert_warn_save@) &&
    visible(s.bad_checking@) &&
    visible(s.bad_not_checked@) &&
    visible(s.bad_none@) &&
    visible(s.bad_click_to_jump@) &&
    visible(s.bad_click_to_list@) &&
    visible(s.sort_do@) &&
    visible(s.sort_running@) &&
    visible(s.sort_clear@) &&
    visible(s.sort_priority@) &&
    visible(s.sort_ignore_case@) &&
    visible(s.sort_add_criterion@) &&
    visible(s.sort_all_in_use@) &&
    visible(s.sort_maximum@) &&
    visible(s.sort_column_n@) &&
    visible(s.sort_pick_header@) &&
    visible(s.sort_text_asc@) &&
    visible(s.sort_text_desc@) &&
    visible(s.sort_number_asc@) &&
    visible(s.sort_number_desc@) &&
    visible(s.filter_title@) &&
    visible(s.filter_column_n@) &&
    visible(s.filter_search@) &&
    visible(s.filter_number_range@) &&
    visible(s.filter_invalid_number@) &&
    visible(s.filter_distinct_n@) &&
    visible(s.filter_distinct_est@) &&
    visible(s.filter_truncated@) &&
    visible(s.filter_select_all@) &&
    visible(s.filter_clear_all@) &&
    visible(s.filter_apply@) &&
    visible(s.filter_clear@) &&
    visible(s.filter_scanning@) &&
    visible(s.filter_blank@) &&
    visible(s.common_cancel@) &&
    visible(s.common_continue@) &&
    visible(s.common_close@) &&
    visible(s.common_load@) &&
    visible(s.common_stop@) &&
    visible(s.common_resume@) &&
    visible(s.common_header@) &&
    visible(s.common_rows@) &&
    visible(s.common_columns@) &&
    visible(s.common_line@) &&
    visible(s.common_no_file@) &&
    visible(s.err_open_file@) &&
    visible(s.err_parquet_read@)
}

/// No text is empty in any language.
pub proof fn lemma_all_visible(lang: Lang)
    ensures
        all_visible(strings_for(lang)),
{
    reveal_strlit("파일");
    reveal_strlit("File");
    reveal_strlit("편집");
    reveal_strlit("Edit");
    reveal_strlit("도구");
    reveal_strlit("Tools");
    reveal_strlit("언어");
    reveal_strlit("Language");
    reveal_strlit("새 파일");
    reveal_strlit("New");
    reveal_strlit("열기…");
    reveal_strlit("Open…");
    reveal_strlit("저장");
    reveal_strlit("Save");
    reveal_strlit("편집 모드");
    reveal_strlit("Edit Mode");
    reveal_strlit("되돌리기   Ctrl+Z");
    reveal_strlit("Undo   Ctrl+Z");
    reveal_strlit("찾기·바꾸기…   Ctrl+F");
    reveal_strlit("Find / Replace…   Ctrl+F");
    reveal_strlit("열 기준 정렬…");
    reveal_strlit("Sort by Columns…");
    reveal_strlit("구분자 변환…");
    reveal_strlit("Convert Delimiter…");
    reveal_strlit("오류 행…");
    reveal_strlit("Bad Rows…");
    reveal_strlit("행·열 번호…");
    reveal_strlit("Row & Column Numbers…");
    reveal_strlit("찾기:");
    reveal_strlit("Find:");
    reveal_strlit("바꾸기:");
    reveal_strlit("Replace:");
    reveal_strlit("헥스");
    reveal_strlit("Hex");
    reveal_strlit("다음 찾기");
    reveal_strlit("Find Next");
    reveal_strlit("이전 찾기");
    reveal_strlit("Find Prev");
    reveal_strlit("모두 찾기");
    reveal_strlit("Find All");
    reveal_strlit("바꾸기");
    reveal_strlit("Replace");
    reveal_strlit("모두 바꾸기");
    reveal_strlit("Replace All");
    reveal_strlit("행 추출");
    reveal_strlit("Extract Rows");
    reveal_strlit("부분 일치");
    reveal_strlit("Partial");
    reveal_strlit("단어 단위");
    reveal_strlit("Whole word");
    reveal_strlit("셀 전체");
    reveal_strlit("Whole cell");
    reveal_strlit("대소문자 구분");
    reveal_strlit("Match case");
    reveal_strlit("이스케이프 문자");
    reveal_strlit("Escape sequences");
    reveal_strlit("덮어쓰기:");
    reveal_strlit("Overwrite:");
    reveal_strlit("BOM 포함");
    reveal_strlit("Include BOM");
    reveal_strlit("(CP949는 BOM이 없습니다)");
    reveal_strlit("(CP949 has no BOM)");
    reveal_strlit("바이너리(헥스)로 열기");
    reveal_strlit("Open as Binary (Hex)");
    reveal_strlit("또는 인코딩을 지정해 열기:");
    reveal_strlit("Or force a text encoding:");
    reveal_strlit("텍스트로 열기");
    reveal_strlit("Open as Text");
    reveal_strlit("변환할 구분자");
    reveal_strlit("Convert to");
    reveal_strlit("변환");
    reveal_strlit("Convert");
    reveal_strlit("직접 입력:");
    reveal_strlit("Custom:");
    reveal_strlit("파일 내용이 바뀝니다. 되돌리려면 Ctrl+Z.");
    reveal_strlit("This changes the file contents. Press Ctrl+Z to undo.");
    reveal_strlit("저장해야 디스크에 반영됩니다. 뷰 모드면 편집 모드로 전환됩니다.");
    reveal_strlit("Changes reach the disk only when you save. View mode switches to edit mode.");
    reveal_strlit("행 검사 중…");
    reveal_strlit("Checking rows…");
    reveal_strlit("아직 검사하지 않았습니다.");
    reveal_strlit("Not checked yet.");
    reveal_strlit("오류 행이 없습니다.");
    reveal_strlit("No bad rows.");
    reveal_strlit("이 행으로 이동");
    reveal_strlit("Click to jump to this row");
    reveal_strlit("목록 보기");
    reveal_strlit("Click to see the list");
    reveal_strlit("정렬");
    reveal_strlit("Sort");
    reveal_strlit("정렬 중…");
    reveal_strlit("Sorting…");
    reveal_strlit("정렬 해제");
    reveal_strlit("Clear Sort");
    reveal_strlit("우선순위");
    reveal_strlit("Priority");
    reveal_strlit("대소문자 무시");
    reveal_strlit("Ignore case");
    reveal_strlit("+ 기준 추가");
    reveal_strlit("+ Add criterion");
    reveal_strlit("(모든 열을 쓰고 있습니다)");
    reveal_strlit("(all columns in use)");
    reveal_strlit("(최대 {})");
    reveal_strlit("(maximum {})");
    reveal_strlit("정렬: {}번째 열");
    reveal_strlit("Sort: column {}");
    reveal_strlit("정렬: (헤더를 눌러 열을 고르세요)");
    reveal_strlit("Sort: (click a header to select a column)");
    reveal_strlit("문자 ↑");
    reveal_strlit("Text ↑");
    reveal_strlit("문자 ↓");
    reveal_strlit("Text ↓");
    reveal_strlit("숫자 ↑");
    reveal_strlit("Number ↑");
    reveal_strlit("숫자 ↓");
    reveal_strlit("Number ↓");
    reveal_strlit("필터 — {}");
    reveal_strlit("Filter — {}");
    reveal_strlit("{}번째 열");
    reveal_strlit("Column {}");
    reveal_strlit("검색 / 포함:");
    reveal_strlit("Search / contains:");
    reveal_strlit("숫자 범위:");
    reveal_strlit("Number range:");
    reveal_strlit("(숫자가 아님)");
    reveal_strlit("(not a number)");
    reveal_strlit("고유값 {}개");
    reveal_strlit("{} distinct values");
    reveal_strlit("고유값 약 {}개(추정)");
    reveal_strlit("~{} distinct values (estimated)");
    reveal_strlit("고유값이 너무 많아 앞 {}개만 보입니다. 위 검색으로 좁히세요.");
    reveal_strlit("Too many distinct values — showing first {}. Use the text filter above to narrow down.");
    reveal_strlit("전체 선택");
    reveal_strlit("Select All");
    reveal_strlit("전체 해제");
    reveal_strlit("Clear All");
    reveal_strlit("적용");
    reveal_strlit("Apply");
    reveal_strlit("필터 해제");
    reveal_strlit("Clear Filter");
    reveal_strlit("스캔 중…");
    reveal_strlit("Scanning…");
    reveal_strlit("(빈 값)");
    reveal_strlit("(blank)");
    reveal_strlit("취소");
    reveal_strlit("Cancel");
    reveal_strlit("계속");
    reveal_strlit("Continue");
    reveal_strlit("닫기");
    reveal_strlit("Close");
    reveal_strlit("불러오기");
    reveal_strlit("Load");
    reveal_strlit("중지");
    reveal_strlit("Stop");
    reveal_strlit("재개");
    reveal_strlit("Resume");
    reveal_strlit("헤더");
    reveal_strlit("Header");
    reveal_strlit("행:");
    reveal_strlit("Rows:");
    reveal_strlit("열:");
    reveal_strlit("Columns:");
    reveal_strlit("줄");
    reveal_strlit("Line");
    reveal_strlit("열린 파일 없음");
    reveal_strlit("No file open");
    reveal_strlit("파일을 열 수 없습니다");
    reveal_strlit("Cannot open file");
    reveal_strlit("Parquet으로 읽을 수 없습니다");
    reveal_strlit("Cannot read as Parquet");
}


/// How many `{}` places for a value a text holds from position `i` on,
/// counted left to right without overlap.
pub open spec fn places_from(s: Seq<char>, i: int) -> nat
    decreases s.len() - i,
{
    if i < 0 || i + 1 >= s.len() {
        0
    } else if s[i] == '{' && s[i + 1] == '}' {
        1 + places_from(s, i + 2)
    } else {
        places_from(s, i + 1)
    }
}

/// The texts that take a value hold exactly one `{}` place for it, in `a` and
/// in `b` alike.
pub open spec fn value_places_match(a: Strings, b: Strings) -> bool {
    places_from(a.sort_maximum@, 0) == 1 && places_from(b.sort_maximum@, 0) == 1 &&
    places_from(a.sort_column_n@, 0) == 1 && places_from(b.sort_column_n@, 0) == 1 &&
    places_from(a.filter_title@, 0) == 1 && places_from(b.filter_title@, 0) == 1 &&
    places_from(a.filter_column_n@, 0) == 1 && places_from(b.filter_column_n@, 0) == 1 &&
    places_from(a.filter_distinct_n@, 0) == 1 && places_from(b.filter_distinct_n@, 0) == 1 &&
    places_from(a.filter_distinct_est@, 0) == 1 && places_from(b.filter_distinct_est@, 0) == 1 &&
    places_from(a.filter_truncated@, 0) == 1 && places_from(b.filter_truncated@, 0) == 1
}

proof fn lemma_places_sort_maximum()
    ensures
        places_from("(최대 {})"@, 0) == 1,
        places_from("(maximum {})"@, 0) == 1,
{
    reveal_strlit("(최대 {})");
    reveal_strlit("(maximum {})");
    reveal_with_fuel(places_from, 100);
}

proof fn lemma_places_sort_column_n()
    ensures
        places_from("정렬: {}번째 열"@, 0) == 1,
        places_from("Sort: column {}"@, 0) == 1,
{
    reveal_strlit("정렬: {}번째 열");
    reveal_strlit("Sort: column {}");
    reveal_with_fuel(places_from, 100);
}

proof fn lemma_places_filter_title()
    ensures
        places_from("필터 — {}"@, 0) == 1,
        places_from("Filter — {}"@, 0) == 1,
{
    reveal_strlit("필터 — {}");
    reveal_strlit("Filter — {}");
    reveal_with_fuel(places_from, 100);
}

proof fn lemma_places_filter_column_n()
    ensures
        places_from("{}번째 열"@, 0) == 1,
        places_from("Column {}"@, 0) == 1,
{
    reveal_strlit("{}번째 열");
    reveal_strlit("Column {}");
    reveal_with_fuel(places_from, 100);
}

proof fn lemma_places_filter_distinct_n()
    ensures
        places_from("고유값 {}개"@, 0) == 1,
        places_from("{} distinct values"@, 0) == 1,
{
    reveal_strlit("고유값 {}개");
    reveal_strlit("{} distinct values");
    reveal_with_fuel(places_from, 100);
}

proof fn lemma_places_filter_distinct_est()
    ensures
        places_from("고유값 약 {}개(추정)"@, 0) == 1,
        places_from("~{} distinct values (estimated)"@, 0) == 1,
{
    reveal_strlit("고유값 약 {}개(추정)");
    reveal_strlit("~{} distinct values (estimated)");
    reveal_with_fuel(places_from, 100);
}

proof fn lemma_places_filter_truncated()
    ensures
        places_from("고유값이 너무 많아 앞 {}개만 보입니다. 위 검색으로 좁히세요."@, 0) == 1,
        places_from("Too many distinct values — showing first {}. Use the text filter above to narrow down."@, 0) == 1,
{
    reveal_strlit("고유값이 너무 많아 앞 {}개만 보입니다. 위 검색으로 좁히세요.");
    reveal_strlit("Too many distinct values — showing first {}. Use the text filter above to narrow down.");
    reveal_with_fuel(places_from, 100);
}

/// Every text that takes a value has its one `{}` place in every language.
pub proof fn lemma_value_places_match()
    ensures
        value_places_match(strings_for(Lang::Ko), strings_for(Lang::En)),
{
    lemma_places_sort_maximum();
    lemma_places_sort_column_n();
    lemma_places_filter_title();
    lemma_places_filter_column_n();
    lemma_places_filter_distinct_n();
    lemma_places_filter_distinct_est();
    lemma_places_filter_truncated();
}


/// The sort direction labels agree with their direction in every language:
/// an ascending label ends in `↑` and a descending one in `↓`; the two labels
/// of a kind say the same before the arrow, and the text and number labels
/// differ.
pub proof fn lemma_sort_direction_labels(lang: Lang)
    ensures
        ({
            let s = strings_for(lang);
            &&& s.sort_text_asc@.len() > 0 && s.sort_text_asc@.last() == '↑'
            &&& s.sort_text_desc@.len() > 0 && s.sort_text_desc@.last() == '↓'
            &&& s.sort_number_asc@.len() > 0 && s.sort_number_asc@.last() == '↑'
            &&& s.sort_number_desc@.len() > 0 && s.sort_number_desc@.last() == '↓'
            &&& s.sort_text_asc@.drop_last() == s.sort_text_desc@.drop_last()
            &&& s.sort_number_asc@.drop_last() == s.sort_number_desc@.drop_last()
            &&& s.sort_text_asc@ != s.sort_number_asc@
        }),
{
    reveal_strlit("문자 ↑");
    reveal_strlit("문자 ↓");
    reveal_strlit("숫자 ↑");
    reveal_strlit("숫자 ↓");
    reveal_strlit("Text ↑");
    reveal_strlit("Text ↓");
    reveal_strlit("Number ↑");
    reveal_strlit("Number ↓");
    let s = strings_for(lang);
    assert(s.sort_text_asc@.drop_last() =~= s.sort_text_desc@.drop_last());
    assert(s.sort_number_asc@.drop_last() =~= s.sort_number_desc@.drop_last());
    assert(s.sort_text_asc@.len() != s.sort_number_asc@.len() || s.sort_text_asc@[0]
        != s.sort_number_asc@[0]);
}
} // verus!
