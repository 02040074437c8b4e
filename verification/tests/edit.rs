use vweditor::cells::{cells_to_tsv, clear_cells, paste_tsv, set_cell};
use vweditor::csv::split_fields;
use vweditor::edit::{
    apply_permutation, backspace, delete_range, insert_char, insert_row, insert_str, inverse_of,
    normalize, remove_row, selection_text, split_line, word_range_at, TextPos,
};
use vweditor::undo::{op_bytes, undo_evict_count, EditOp, UndoStack, UNDO_LIMIT};

const ALPHABET: [char; 3] = ['a', '"', ','];

/// The straightforward copying reordering, as the reference.
fn clone_based(lines: &mut Vec<String>, order: &[u32], data_start: usize) {
    if data_start > lines.len() {
        return;
    }
    let header: Vec<String> = lines[..data_start].to_vec();
    let mut reordered: Vec<String> = Vec::with_capacity(order.len());
    for &idx in order {
        let i = idx as usize;
        if i < lines.len() {
            reordered.push(lines[i].clone());
        }
    }
    let mut out = header;
    out.append(&mut reordered);
    *lines = out;
}

fn v(strs: &[&str]) -> Vec<String> {
    strs.iter().map(|s| s.to_string()).collect()
}

#[test]
fn insert_char_mid_line() {
    let mut lines = v(&["abc"]);
    let p = insert_char(&mut lines, TextPos { line: 0, col: 1 }, 'X');
    assert_eq!(lines, v(&["aXbc"]));
    assert_eq!(p, TextPos { line: 0, col: 2 });
}

#[test]
fn split_line_enter() {
    let mut lines = v(&["abcd"]);
    let p = split_line(&mut lines, TextPos { line: 0, col: 2 });
    assert_eq!(lines, v(&["ab", "cd"]));
    assert_eq!(p, TextPos { line: 1, col: 0 });
}

#[test]
fn backspace_mid_line() {
    let mut lines = v(&["abc"]);
    let p = backspace(&mut lines, TextPos { line: 0, col: 2 });
    assert_eq!(lines, v(&["ac"]));
    assert_eq!(p, TextPos { line: 0, col: 1 });
}

#[test]
fn backspace_at_line_start_merges() {
    // 줄 맨 앞 Backspace → 앞 줄과 병합, 커서는 병합점.
    let mut lines = v(&["ab", "cd"]);
    let p = backspace(&mut lines, TextPos { line: 1, col: 0 });
    assert_eq!(lines, v(&["abcd"]));
    assert_eq!(p, TextPos { line: 0, col: 2 });
}

#[test]
fn backspace_at_origin_noop() {
    let mut lines = v(&["ab"]);
    let p = backspace(&mut lines, TextPos { line: 0, col: 0 });
    assert_eq!(lines, v(&["ab"]));
    assert_eq!(p, TextPos { line: 0, col: 0 });
}

#[test]
fn delete_range_within_line() {
    let mut lines = v(&["abcdef"]);
    let p = delete_range(
        &mut lines,
        TextPos { line: 0, col: 1 },
        TextPos { line: 0, col: 4 },
    );
    assert_eq!(lines, v(&["aef"]));
    assert_eq!(p, TextPos { line: 0, col: 1 });
}

#[test]
fn delete_range_multiline() {
    // 1행 col1 ~ 3행 col2 삭제 → 시작 줄 앞부분 + 끝 줄 뒷부분 병합.
    let mut lines = v(&["abc", "XXX", "defg"]);
    let p = delete_range(
        &mut lines,
        TextPos { line: 0, col: 1 },
        TextPos { line: 2, col: 2 },
    );
    // "a" + "fg" = "afg"
    assert_eq!(lines, v(&["afg"]));
    assert_eq!(p, TextPos { line: 0, col: 1 });
}

#[test]
fn insert_str_with_newlines() {
    let mut lines = v(&["ad"]);
    let p = insert_str(&mut lines, TextPos { line: 0, col: 1 }, "b\nc");
    // "a" + "b" / "c" + "d" → ["ab","cd"]
    assert_eq!(lines, v(&["ab", "cd"]));
    assert_eq!(p, TextPos { line: 1, col: 1 });
}

#[test]
fn selection_text_single_line() {
    let lines = v(&["abcdef"]);
    let s = selection_text(
        &lines,
        TextPos { line: 0, col: 1 },
        TextPos { line: 0, col: 4 },
    );
    assert_eq!(s, "bcd");
}

#[test]
fn selection_text_multiline() {
    // delete_range_multiline과 같은 범위 — 지워지는 부분이 그대로 나와야 한다.
    let lines = v(&["abc", "XXX", "defg"]);
    let s = selection_text(
        &lines,
        TextPos { line: 0, col: 1 },
        TextPos { line: 2, col: 2 },
    );
    assert_eq!(s, "bc\nXXX\nde");
}

#[test]
fn selection_text_empty_range() {
    let lines = v(&["abc"]);
    let s = selection_text(
        &lines,
        TextPos { line: 0, col: 2 },
        TextPos { line: 0, col: 2 },
    );
    assert_eq!(s, "");
}

// ---- word_range_at (더블클릭 선택) ----

/// 범위를 눈으로 확인하기 쉽게 잘라서 돌려주는 보조.
fn word_at(line: &str, col: usize) -> String {
    let (a, b) = word_range_at(line, col);
    line.chars().skip(a).take(b - a).collect()
}

#[test]
fn word_range_grabs_space_delimited_chunk() {
    assert_eq!(word_at("hello world foo", 7), "world");
}

#[test]
fn word_range_stops_at_tabs() {
    // TSV 한 줄: 탭이 경계다.
    assert_eq!(word_at("aa\tbbb\tcc", 4), "bbb");
}

#[test]
fn word_range_keeps_punctuation_inside_the_chunk() {
    // 공백만 경계이므로 날짜나 점 찍힌 이름이 통째로 잡힌다.
    assert_eq!(word_at("x 2026-08-27 y", 5), "2026-08-27");
    assert_eq!(word_at("a.b.c d", 2), "a.b.c");
}

#[test]
fn word_range_at_line_start_and_end() {
    assert_eq!(word_at("abc def", 0), "abc");
    // 줄 끝(= char 개수)에서 눌러도 마지막 덩어리를 잡는다.
    assert_eq!(word_at("abc def", 7), "def");
}

#[test]
fn word_range_on_whitespace_selects_the_whitespace_run() {
    // 빈 선택으로 무너지지 않는다.
    assert_eq!(word_at("ab   cd", 3), "   ");
}

#[test]
fn word_range_on_empty_line_is_empty() {
    assert_eq!(word_range_at("", 0), (0, 0));
}

#[test]
fn word_range_whole_line_when_no_whitespace() {
    assert_eq!(word_at("abcdef", 3), "abcdef");
}

#[test]
fn word_range_counts_chars_not_bytes() {
    // 한글은 UTF-8 3바이트다. col 은 char 인덱스여야 한다.
    assert_eq!(word_at("가나 다라마 바", 4), "다라마");
    let (a, b) = word_range_at("가나 다라마 바", 4);
    assert_eq!((a, b), (3, 6));
}

#[test]
fn selection_text_reversed_is_normalized() {
    let lines = v(&["ab", "cd"]);
    let s = selection_text(
        &lines,
        TextPos { line: 1, col: 1 },
        TextPos { line: 0, col: 1 },
    );
    assert_eq!(s, "b\nc");
}

#[test]
fn selection_text_two_adjacent_lines() {
    let lines = v(&["ab", "cd", "ef"]);
    let s = selection_text(
        &lines,
        TextPos { line: 0, col: 2 },
        TextPos { line: 1, col: 0 },
    );
    // 시작 줄 끝 ~ 다음 줄 처음 = 개행 하나.
    assert_eq!(s, "\n");
}

#[test]
fn selection_text_multibyte_chars() {
    // col은 char 인덱스 — 바이트 인덱스로 자르면 깨진다.
    let lines = v(&["가나다라"]);
    let s = selection_text(
        &lines,
        TextPos { line: 0, col: 1 },
        TextPos { line: 0, col: 3 },
    );
    assert_eq!(s, "나다");
}

#[test]
fn selection_text_mirrors_delete_range() {
    // selection_text가 뽑아낸 것을 다시 넣으면 원래대로 — 잘라내기/붙여넣기 왕복.
    let orig = v(&["hello", "world", "again"]);
    let a = TextPos { line: 0, col: 2 };
    let b = TextPos { line: 2, col: 3 };
    let cut = selection_text(&orig, a, b);
    let mut lines = orig.clone();
    let p = delete_range(&mut lines, a, b);
    let end = insert_str(&mut lines, p, &cut);
    assert_eq!(lines, orig);
    assert_eq!(end, b);
}

#[test]
fn normalize_swaps_when_reversed() {
    let a = TextPos { line: 2, col: 0 };
    let b = TextPos { line: 1, col: 3 };
    assert_eq!(normalize(a, b), (b, a));
}

#[test]
fn set_cell_replaces_field() {
    let mut lines = v(&["a,b,c"]);
    set_cell(&mut lines, 0, 1, "Z", b',');
    assert_eq!(lines, v(&["a,Z,c"]));
}

#[test]
fn set_cell_pads_missing_columns() {
    // col 3을 설정하는데 필드가 2개뿐 → 빈 필드로 패딩.
    let mut lines = v(&["a,b"]);
    set_cell(&mut lines, 0, 3, "Z", b',');
    assert_eq!(lines, v(&["a,b,,Z"]));
}

#[test]
fn set_cell_quotes_when_value_has_delim() {
    let mut lines = v(&["a,b"]);
    set_cell(&mut lines, 0, 0, "x,y", b',');
    assert_eq!(lines, v(&["\"x,y\",b"]));
}

#[test]
fn set_cell_strips_newlines_from_value() {
    // 셀 값에 개행이 있으면 공백으로 치환 — lines[i]에 개행이 박히지 않아야 한다.
    let mut lines = v(&["a,b"]);
    set_cell(&mut lines, 0, 0, "x\ny", b',');
    assert_eq!(lines, v(&["x y,b"]));
    assert!(!lines[0].contains('\n'));
}

#[test]
fn set_cell_strips_carriage_return() {
    let mut lines = v(&["a,b"]);
    set_cell(&mut lines, 0, 1, "p\r\nq", b',');
    // \r\n 두 문자가 각각 공백으로 → "p  q"
    assert_eq!(lines, v(&["a,p  q"]));
}

#[test]
fn clear_cells_rectangle() {
    // 2x2 영역(행0~1, 열0~1)을 빈 값으로.
    let mut lines = v(&["a,b,c", "d,e,f", "g,h,i"]);
    clear_cells(&mut lines, 0, 0, 1, 1, b',');
    assert_eq!(lines, v(&[",,c", ",,f", "g,h,i"]));
}

/// 이미 비어 있는 대상 행은 재조립을 건너뛴다 — 그 결과 줄이 **바이트
/// 단위로 그대로** 남아야 한다. app.rs의 Cut/Clear no-op undo 판정
/// (`edit_op_differs_from_current`)이 "안 바뀜"을 정확히 보려면 이 성질이
/// 필요하다. 특히 재조립(split+join)은 인용을 정규화해 버려서 값이
/// 같더라도 줄 텍스트가 달라질 수 있다.
#[test]
fn clear_cells_skips_already_empty_rows_byte_exactly() {
    // col 1이 이미 비어 있고, col 0은 재조립되면 표현이 달라질 수 있는 값.
    let mut lines = v(&["\"a\"b,,c", ",,", "x,y,z"]);
    let before = lines.clone();
    clear_cells(&mut lines, 0, 1, 1, 1, b',');
    assert_eq!(lines[0], before[0], "이미 빈 행은 손대지 않는다");
    assert_eq!(lines[1], before[1], "이미 빈 행은 손대지 않는다");
    assert_eq!(lines[2], before[2], "범위 밖 행은 그대로");
}

#[test]
fn clear_cells_still_clears_non_empty() {
    // 건너뛰기 최적화가 실제로 지워야 할 행까지 건너뛰면 안 된다.
    let mut lines = v(&["a,b,c", "d,,f", "g,h,i"]);
    clear_cells(&mut lines, 0, 1, 2, 1, b',');
    assert_eq!(lines, v(&["a,,c", "d,,f", "g,,i"]));
}

#[test]
fn insert_and_remove_row() {
    let mut lines = v(&["a", "b"]);
    insert_row(&mut lines, 1, String::new());
    assert_eq!(lines, v(&["a", "", "b"]));
    remove_row(&mut lines, 1);
    assert_eq!(lines, v(&["a", "b"]));
}

#[test]
fn remove_last_row_keeps_one_empty() {
    // 마지막 한 줄을 지우면 빈 한 줄은 남긴다(빈 lines 방지).
    let mut lines = v(&["only"]);
    remove_row(&mut lines, 0);
    assert_eq!(lines, v(&[""]));
}

#[test]
fn cells_to_tsv_basic() {
    let lines = v(&["a,b,c", "d,e,f"]);
    // 열 0~1, 행 0~1 → "a\tb\nd\te"
    let s = cells_to_tsv(&lines, 0, 0, 1, 1, b',');
    assert_eq!(s, "a\tb\nd\te");
}

#[test]
fn cells_to_tsv_single_column_matches_split_fields() {
    // 최적화 경로(단일 컬럼)와 일반 경로가 같은 결과를 내야 한다.
    let lines = v(&["a,b,c", "d,e,f", "\"x,y\",z,w"]);
    for col in 0..3 {
        let fast = cells_to_tsv(&lines, 0, col, 2, col, b',');
        // 일반 경로를 직접 재현(참조 구현).
        let mut want = String::new();
        for (i, l) in lines.iter().enumerate() {
            if i > 0 {
                want.push('\n');
            }
            let f = split_fields(l, b',');
            want.push_str(f.get(col).map(|s| s.as_str()).unwrap_or(""));
        }
        assert_eq!(fast, want, "col {col}");
    }
}

/// `unquote_field`가 `split_fields`의 인용 해제 의미를 정확히 재현하는지.
/// 감싸는 따옴표 제거 + 내부 `""` → `"` 복원, 인용이 아닌 값은 그대로.
#[test]
fn cells_to_tsv_matches_split_fields_on_tricky_quoting() {
    let lines = v(&[
        "\"a\"\"b\",z",       // 내부 이스케이프된 따옴표
        "\"\",z",             // 빈 인용 필드
        ",z",                 // 빈 필드(인용 아님)
        "\"only\",z",         // 평범한 인용
        "\"\"\"\",z",         // 인용 안의 따옴표 하나
    ]);
    for col in 0..2 {
        let fast = cells_to_tsv(&lines, 0, col, lines.len() - 1, col, b',');
        let mut want = String::new();
        for (i, l) in lines.iter().enumerate() {
            if i > 0 {
                want.push('\n');
            }
            let f = split_fields(l, b',');
            want.push_str(f.get(col).map(|s| s.as_str()).unwrap_or(""));
        }
        assert_eq!(fast, want, "col {col}");
    }
}

/// `{a, ", ,}` 알파벳으로 만든 길이 0~5의 **모든** 문자열에 대해
/// `cells_to_tsv`(field_slice + 인용 해제)가 `split_fields` 경로와
/// 완전히 같은 값을 내는지 전수 검사한다. 브리프의 단순 인용 해제
/// 규칙이 어긋났던 케이스(`"`, `"ab`, `"a"b"` 등)가 모두 여기 포함된다.
#[test]
fn cells_to_tsv_matches_split_fields_exhaustively() {
    let mut checked = 0usize;
    for len in 0..=5usize {
        let total = ALPHABET.len().pow(len as u32);
        for n in 0..total {
            let mut n = n;
            let mut s = String::new();
            for _ in 0..len {
                s.push(ALPHABET[n % ALPHABET.len()]);
                n /= ALPHABET.len();
            }
            let lines = vec![s.clone()];
            let want = split_fields(&s, b',');
            for col in 0..want.len() {
                let got = cells_to_tsv(&lines, 0, col, 0, col, b',');
                assert_eq!(got, want[col], "input {s:?} col {col}");
                checked += 1;
            }
        }
    }
    assert!(checked > 500, "전수 검사가 실제로 돌았는지 확인");
}

#[test]
fn paste_tsv_overwrites_grid() {
    let mut lines = v(&["a,b,c", "d,e,f"]);
    // (0,1)부터 "X\tY\nZ\tW" 붙여넣기 → 행0 col1,2 = X,Y / 행1 col1,2 = Z,W
    paste_tsv(&mut lines, 0, 1, "X\tY\nZ\tW", b',');
    assert_eq!(lines, v(&["a,X,Y", "d,Z,W"]));
}

#[test]
fn paste_tsv_extends_rows_and_cols() {
    // 파일 경계를 넘는 붙여넣기 → 행/열 확장.
    let mut lines = v(&["a"]);
    paste_tsv(&mut lines, 0, 0, "1\t2\n3\t4", b',');
    assert_eq!(lines, v(&["1,2", "3,4"]));
}

#[test]
fn paste_tsv_sanitizes_carriage_return() {
    // CRLF 클립보드: \n으로 split 후 남는 \r이 셀에 박히면 안 된다.
    let mut lines = v(&["a,b"]);
    paste_tsv(&mut lines, 0, 0, "X\r\nY", b',');
    assert!(!lines.iter().any(|l| l.contains('\r')));
    assert!(!lines.iter().any(|l| l.contains('\n')));
}

#[test]
fn apply_permutation_reorders_data_rows() {
    // order = [2,1] (논리 행번호), data_start=1 → 헤더 유지, 데이터 재배치.
    let mut lines = v(&["name", "banana", "apple"]);
    apply_permutation(&mut lines, &[2, 1], 1);
    assert_eq!(lines, v(&["name", "apple", "banana"]));
}

#[test]
fn apply_permutation_no_header() {
    let mut lines = v(&["b", "a", "c"]);
    apply_permutation(&mut lines, &[1, 0, 2], 0);
    assert_eq!(lines, v(&["a", "b", "c"]));
}

/// `apply_permutation`이 clone 판과 **글자 그대로 같은** 결과를 내는지
/// 전수 비교한다. move 판으로 바꾸면서 중복 인덱스·범위 밖 인덱스·헤더를
/// 가리키는 인덱스가 새 위험으로 생겼는데(그 함수 주석 참조), 정상 순열만
/// 넣어 보면 셋 다 안 걸린다. 그래서 순열이 **아닌** order까지 포함해
/// 작은 크기에서 모든 조합을 돌린다.
#[test]
fn apply_permutation_move_matches_clone_exhaustively() {
    let base = v(&["h", "a", "b", "c"]);
    // order 길이 0~3, 각 원소는 0..=4(4는 lines 범위 밖) → 순열이 아닌 조합도
    // 전부 돈다. 5진수 카운터를 그냥 펼쳐서 조합을 만든다.
    let mut cases = 0usize;
    for len in 0..=3usize {
        let total = 5usize.pow(len as u32);
        for n in 0..total {
            let order: Vec<u32> =
                (0..len).map(|k| (n / 5usize.pow(k as u32) % 5) as u32).collect();
            for ds in 0..=2usize {
                let mut got = base.clone();
                let mut want = base.clone();
                apply_permutation(&mut got, &order, ds);
                clone_based(&mut want, &order, ds);
                assert_eq!(got, want, "order={order:?} data_start={ds}");
                cases += 1;
            }
        }
    }
    assert_eq!(cases, (1 + 5 + 25 + 125) * 3);
}

/// revision은 편집마다 **달라져야** 한다 — 캐시 무효화가 이 값에만
/// 기대기 때문이다.
#[test]
fn revision_advances_on_every_push() {
    let mut st = UndoStack::new(UNDO_LIMIT);
    let start = st.revision();
    for i in 0..5 {
        st.push(EditOp::Replace(vec![(i, "x".to_string())]));
    }
    assert_eq!(st.revision(), start + 5);
}

/// 되돌리기도 내용을 바꾸므로 revision이 올라간다. 되돌아가서 **같은 값**이
/// 되면 "편집 → 되돌리기" 뒤의 캐시가 최신인 척 되살아난다.
#[test]
fn revision_advances_on_undo_too() {
    let mut lines = v(&["a", "b"]);
    let mut st = UndoStack::new(UNDO_LIMIT);
    st.push(EditOp::Replace(vec![(0, lines[0].clone())]));
    lines[0] = "X".to_string();
    let after_push = st.revision();
    assert!(st.undo(&mut lines));
    assert_ne!(st.revision(), after_push, "되돌리기도 편집이다");
}

/// 되돌릴 것이 없으면 내용도 그대로이므로 revision은 그대로여야 한다.
#[test]
fn revision_unchanged_when_undo_has_nothing() {
    let mut lines = v(&["a"]);
    let mut st = UndoStack::new(UNDO_LIMIT);
    let before = st.revision();
    assert!(!st.undo(&mut lines));
    assert_eq!(st.revision(), before);
}

/// 스택 상한에 걸려 op가 버려져도 revision은 올라간다. 스택 길이로
/// 무효화를 판단하면 이 경우를 놓친다(길이가 그대로다).
#[test]
fn revision_advances_even_when_ops_are_evicted() {
    let mut st = UndoStack::new(2);
    for i in 0..6 {
        st.push(EditOp::Replace(vec![(i, "x".to_string())]));
    }
    assert_eq!(st.len(), 2, "스택 길이는 상한에 눌린다");
    assert_eq!(st.revision(), 6, "그래도 편집은 6번 일어났다");
}

/// 되돌리기를 아예 못 쌓는 설정(limit 0)에서도 편집은 일어난다.
#[test]
fn revision_advances_when_undo_disabled() {
    let mut st = UndoStack::new(0);
    st.push(EditOp::Replace(vec![(0, "x".to_string())]));
    assert_eq!(st.len(), 0);
    assert_eq!(st.revision(), 1);
}

#[test]
fn undo_replace_restores_previous_lines() {
    let mut lines = v(&["a,b", "c,d"]);
    let mut st = UndoStack::new(UNDO_LIMIT);
    // 1행을 바꾸기 전에 이전 값을 기록.
    st.push(EditOp::Replace(vec![(1, lines[1].clone())]));
    lines[1] = "X,Y".to_string();
    assert!(st.undo(&mut lines));
    assert_eq!(lines, v(&["a,b", "c,d"]));
}

#[test]
fn undo_remove_inserted_rows() {
    let mut lines = v(&["a", "b"]);
    let mut st = UndoStack::new(UNDO_LIMIT);
    insert_row(&mut lines, 1, String::new());
    st.push(EditOp::RemoveInserted { at: 1, count: 1 });
    assert_eq!(lines, v(&["a", "", "b"]));
    assert!(st.undo(&mut lines));
    assert_eq!(lines, v(&["a", "b"]));
}

#[test]
fn undo_reinsert_removed_rows() {
    let mut lines = v(&["a", "b", "c"]);
    let mut st = UndoStack::new(UNDO_LIMIT);
    st.push(EditOp::ReinsertRemoved { at: 1, lines: vec!["b".to_string()] });
    remove_row(&mut lines, 1);
    assert_eq!(lines, v(&["a", "c"]));
    assert!(st.undo(&mut lines));
    assert_eq!(lines, v(&["a", "b", "c"]));
}

#[test]
fn undo_reorder_restores_original_order() {
    // 정렬로 재배치한 뒤 undo하면 원래 순서로 돌아온다(헤더 유지).
    let mut lines = v(&["hdr", "b", "a", "c"]);
    let order: Vec<u32> = vec![2, 1, 3]; // a(2), b(1), c(3)
    let inverse = inverse_of(&order, 1);
    let mut st = UndoStack::new(UNDO_LIMIT);
    st.push(EditOp::Reorder { inverse, data_start: 1 });
    apply_permutation(&mut lines, &order, 1);
    assert_eq!(lines, v(&["hdr", "a", "b", "c"]));
    assert!(st.undo(&mut lines));
    assert_eq!(lines, v(&["hdr", "b", "a", "c"]));
}

#[test]
fn undo_pops_in_lifo_order() {
    let mut lines = v(&["a"]);
    let mut st = UndoStack::new(UNDO_LIMIT);
    st.push(EditOp::Replace(vec![(0, "a".to_string())]));
    lines[0] = "b".to_string();
    st.push(EditOp::Replace(vec![(0, "b".to_string())]));
    lines[0] = "c".to_string();
    st.undo(&mut lines);
    assert_eq!(lines, v(&["b"]), "최근 것부터 되돌린다");
    st.undo(&mut lines);
    assert_eq!(lines, v(&["a"]));
}

#[test]
fn undo_on_empty_stack_is_false() {
    let mut lines = v(&["a"]);
    let mut st = UndoStack::new(UNDO_LIMIT);
    assert!(!st.undo(&mut lines));
    assert_eq!(lines, v(&["a"]));
}

#[test]
fn undo_stack_drops_oldest_beyond_limit() {
    let mut st = UndoStack::new(2);
    st.push(EditOp::Replace(vec![(0, "1".into())]));
    st.push(EditOp::Replace(vec![(0, "2".into())]));
    st.push(EditOp::Replace(vec![(0, "3".into())]));
    assert_eq!(st.len(), 2, "가장 오래된 것이 버려진다");
}

/// 예산 안이면 아무것도 안 버린다 — 바이트 예산이 단계 수 제한을
/// 앞질러 작동하면 정상 편집에서도 되돌리기가 조용히 사라진다.
#[test]
fn undo_byte_budget_keeps_everything_when_under() {
    let mut st = UndoStack::with_budget(100, 1 << 20);
    for i in 0..10 {
        st.push(EditOp::Replace(vec![(i, "x".repeat(100))]));
    }
    assert_eq!(st.len(), 10);
    assert!(st.bytes() < 1 << 20);
}

/// 예산을 넘기면 오래된 단계부터 버린다(FIFO 유지).
#[test]
fn undo_byte_budget_drops_oldest_when_over() {
    // op 하나가 1,024바이트 + 고정비 32바이트. 예산을 3개치로 잡는다.
    let one = 1024 + 32;
    let mut st = UndoStack::with_budget(100, one * 3);
    for i in 0..6 {
        st.push(EditOp::Replace(vec![(i, "x".repeat(1024))]));
    }
    assert_eq!(st.len(), 3, "예산이 3개치면 최근 3개만 남는다");
    assert!(st.bytes() <= one * 3);
    // 남은 3개가 **최근** 3개(3,4,5행)인지 하나씩 되돌려 확인한다.
    // 개수만 세면 "오래된 것 대신 최신 것을 버리는" 뒤집힌 구현도 통과한다 —
    // 각 단계가 어느 행을 복원하는지까지 봐야 FIFO가 진짜로 지켜진다.
    let mut lines = v(&["", "", "", "", "", ""]);
    let mut restored = Vec::new();
    while st.undo(&mut lines) {
        let r = lines.iter().position(|l| !l.is_empty()).expect("복원된 행이 있어야 한다");
        restored.push(r);
        lines[r].clear();
    }
    assert_eq!(restored, vec![5, 4, 3], "최근 3개가 LIFO 순서로 남아 있어야 한다");
}

/// 단계 수 제한은 예산과 **무관하게** 여전히 작동한다(둘 중 먼저 걸리는
/// 쪽이 이긴다). 예산을 사실상 무한으로 두고 확인한다.
#[test]
fn undo_step_limit_still_applies_with_huge_budget() {
    let mut st = UndoStack::with_budget(2, usize::MAX);
    for i in 0..5 {
        st.push(EditOp::Replace(vec![(i, "x".into())]));
    }
    assert_eq!(st.len(), 2);
}

/// 새 op 하나가 혼자 예산을 넘겨도 그 하나는 남는다 — 되돌리기 자체를
/// 포기시키면 큰 파일에서 전체 바꾸기를 못 되돌린다.
#[test]
fn undo_oversized_single_op_is_still_kept() {
    let mut st = UndoStack::with_budget(100, 64);
    st.push(EditOp::Replace(vec![(0, "x".repeat(10))]));
    st.push(EditOp::Replace(vec![(1, "y".repeat(10_000))]));
    assert_eq!(st.len(), 1, "예산 초과라도 최신 하나는 남는다");
    assert!(st.bytes() > 64);
}

/// 되돌린 단계는 회계에서도 빠진다 — 안 빼면 undo를 반복할수록 남은
/// 예산을 실제보다 작게 보아 멀쩡한 단계를 버리기 시작한다.
#[test]
fn undo_pop_releases_its_bytes() {
    let mut st = UndoStack::with_budget(100, 1 << 20);
    st.push(EditOp::Replace(vec![(0, "x".repeat(1000))]));
    let after_push = st.bytes();
    assert!(after_push >= 1000);
    let mut lines = v(&["a"]);
    assert!(st.undo(&mut lines));
    assert_eq!(st.bytes(), 0, "되돌린 단계의 바이트는 반납된다");
}

/// `undo_evict_count`는 순수 함수라 스택을 꾸미지 않고 규칙만 직접 찌른다.
#[test]
fn undo_evict_count_rules() {
    // 예산·단계 수 둘 다 여유 → 아무것도 안 버린다.
    assert_eq!(undo_evict_count(&[10, 10], 10, 100, 1000), 0);
    // 단계 수가 꽉 참 → 자리 하나를 만든다.
    assert_eq!(undo_evict_count(&[10, 10], 10, 2, 1000), 1);
    // 단계 수는 여유지만 예산 초과 → 넘지 않을 때까지 앞에서 버린다.
    assert_eq!(undo_evict_count(&[10, 10, 10], 10, 100, 30), 1);
    assert_eq!(undo_evict_count(&[10, 10, 10], 25, 100, 30), 3);
    // 새 op 혼자 예산 초과 → 전부 버리되 개수는 기존 길이를 안 넘는다.
    assert_eq!(undo_evict_count(&[10, 10], 9999, 100, 30), 2);
    // 빈 스택.
    assert_eq!(undo_evict_count(&[], 9999, 100, 30), 0);
    // 단계 수 초과분이 2 이상인 경우(제한이 줄어든 상황)도 한 번에 정리.
    assert_eq!(undo_evict_count(&[1, 1, 1, 1], 1, 2, 1000), 3);
}

/// `op_bytes`는 정확할 필요는 없지만 **과소평가하면 안 된다** — 내용이
/// 짧고 원소가 많은 op가 0으로 계산되면 예산이 통째로 무력해진다.
#[test]
fn op_bytes_counts_per_element_overhead() {
    // 빈 문자열 1,000개라도 포인터·길이 몫은 잡힌다.
    let many_empty = EditOp::Replace((0..1000).map(|i| (i, String::new())).collect());
    assert!(op_bytes(&many_empty) >= 1000 * 8, "원소당 고정 비용을 세야 한다");
    // 내용도 함께 잡힌다.
    let with_text = EditOp::Replace(vec![(0, "x".repeat(5000))]);
    assert!(op_bytes(&with_text) >= 5000);
    // Batch는 안쪽 합.
    let batch = EditOp::Batch(vec![
        EditOp::Replace(vec![(0, "x".repeat(100))]),
        EditOp::ReinsertRemoved { at: 0, lines: vec!["y".repeat(100)] },
    ]);
    assert!(op_bytes(&batch) >= 200);
    // Reorder는 인덱스 배열 크기.
    let reorder = EditOp::Reorder { inverse: vec![0u32; 1000], data_start: 0 };
    assert_eq!(op_bytes(&reorder), 4000);
}

#[test]
fn undo_replace_out_of_range_row_is_ignored() {
    // 행이 줄어든 뒤 낡은 인덱스가 들어와도 패닉하지 않는다.
    let mut lines = v(&["a"]);
    let mut st = UndoStack::new(UNDO_LIMIT);
    st.push(EditOp::Replace(vec![(5, "x".to_string())]));
    assert!(st.undo(&mut lines));
    assert_eq!(lines, v(&["a"]));
}

#[test]
fn undo_batch_is_one_step() {
    // 붙여넣기로 행이 늘어난 상황: 덮어쓴 행 복원 + 늘어난 행 제거가
    // Ctrl+Z 한 번에 모두 일어나야 한다.
    let mut lines = v(&["a,b"]);
    let mut st = UndoStack::new(UNDO_LIMIT);
    st.push(EditOp::Batch(vec![
        EditOp::RemoveInserted { at: 1, count: 1 },
        EditOp::Replace(vec![(0, "a,b".to_string())]),
    ]));
    paste_tsv(&mut lines, 0, 0, "1\t2\n3\t4", b',');
    assert_eq!(lines, v(&["1,2", "3,4"]));
    assert!(st.undo(&mut lines));
    assert_eq!(lines, v(&["a,b"]), "한 번의 undo로 완전 복구");
    assert!(st.is_empty(), "Batch는 한 단계만 소비한다");
}

#[test]
fn undo_batch_applies_in_order() {
    // 담긴 순서대로 적용된다: 먼저 유령 줄 제거 → 그다음 원본 되꽂기.
    let mut lines = v(&["only"]);
    let mut st = UndoStack::new(UNDO_LIMIT);
    st.push(EditOp::Batch(vec![
        EditOp::RemoveInserted { at: 0, count: 1 },
        EditOp::ReinsertRemoved { at: 0, lines: v(&["x", "y"]) },
    ]));
    // 전부 삭제 → remove_row가 빈 한 줄을 남긴다.
    remove_row(&mut lines, 0);
    assert_eq!(lines, v(&[""]));
    assert!(st.undo(&mut lines));
    assert_eq!(lines, v(&["x", "y"]), "유령 줄 없이 정확히 복원");
}

#[test]
fn inverse_of_roundtrips() {
    let order: Vec<u32> = vec![3, 1, 2];
    let inv = inverse_of(&order, 1);
    let mut lines = v(&["h", "x", "y", "z"]);
    let before = lines.clone();
    apply_permutation(&mut lines, &order, 1);
    apply_permutation(&mut lines, &inv, 1);
    assert_eq!(lines, before);
}

#[test]
fn inverse_of_a_permutation_is_a_permutation() {
    let order: Vec<u32> = vec![4, 2, 5, 3];
    let mut inv = inverse_of(&order, 2);
    assert_eq!(inv, vec![3, 5, 2, 4]);
    inv.sort();
    assert_eq!(inv, vec![2, 3, 4, 5]);
}

#[test]
fn undo_stack_stays_within_budget_unless_one_step_exceeds_it() {
    let mut st = UndoStack::with_budget(10, 500);
    for i in 0..20 {
        st.push(EditOp::Replace(vec![(i, "x".repeat(100))]));
        assert!(st.bytes() <= 500 || st.len() <= 1);
        assert!(st.len() <= 10);
    }
    st.push(EditOp::Replace(vec![(0, "y".repeat(1000))]));
    assert_eq!(st.len(), 1);
    let mut lines = vec![String::new()];
    assert!(st.undo(&mut lines));
    assert_eq!(st.bytes(), 0);
}
