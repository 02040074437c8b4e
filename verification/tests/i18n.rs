use vweditor::i18n::{t, Lang};

#[test]
fn tag_maps_korean_variants_to_ko() {
    for tag in ["ko", "ko-KR", "ko_KR", "KO-kr"] {
        assert_eq!(Lang::from_tag(tag), Lang::Ko, "{tag}");
    }
}

#[test]
fn unknown_and_other_tags_fall_back_to_english() {
    for tag in ["en", "en-US", "ja-JP", "de", "", "zz-ZZ"] {
        assert_eq!(Lang::from_tag(tag), Lang::En, "{tag}");
    }
}

#[test]
fn no_string_is_empty_in_any_language() {
    for l in Lang::ALL {
        let s = t(l);
        for (name, v) in [
            ("menu_file", s.menu_file),
            ("menu_open", s.menu_open),
            ("find_next", s.find_next),
            ("sort_do", s.sort_do),
            ("common_cancel", s.common_cancel),
            ("err_open_file", s.err_open_file),
        ] {
            assert!(!v.trim().is_empty(), "{l:?}.{name} is empty");
        }
    }
}

#[test]
fn format_placeholders_match_across_languages() {
    let ko = t(Lang::Ko);
    let en = t(Lang::En);
    for (name, k, e) in [
        ("sort_maximum", ko.sort_maximum, en.sort_maximum),
        ("sort_column_n", ko.sort_column_n, en.sort_column_n),
    ] {
        assert_eq!(k.matches("{}").count(), e.matches("{}").count(), "{name}: placeholder counts differ");
    }
}

#[test]
fn native_names_are_in_their_own_language() {
    assert_eq!(Lang::Ko.native_name(), "한국어");
    assert_eq!(Lang::En.native_name(), "English");
}

#[test]
fn primary_subtag_only_decides() {
    assert_eq!(Lang::from_tag("ko-Kore-KR"), Lang::Ko);
    assert_eq!(Lang::from_tag("kor"), Lang::En);
    assert_eq!(Lang::from_tag("k"), Lang::En);
    assert_eq!(Lang::from_tag("-ko"), Lang::En);
}

#[test]
fn locale_without_tag_is_english() {
    assert_eq!(Lang::from_locale(None), Lang::En);
    assert_eq!(Lang::from_locale(Some("ko_KR.UTF-8".to_string())), Lang::Ko);
    assert_eq!(Lang::default(), Lang::En);
    let d = Lang::detect();
    assert!(d == Lang::En || d == Lang::Ko);
}

#[test]
fn texts_that_take_a_value_have_one_place_everywhere() {
    for l in Lang::ALL {
        let s = t(l);
        for v in [
            s.sort_maximum,
            s.sort_column_n,
            s.filter_title,
            s.filter_column_n,
            s.filter_distinct_n,
            s.filter_distinct_est,
            s.filter_truncated,
        ] {
            assert_eq!(v.matches("{}").count(), 1, "{v}");
        }
    }
    assert_eq!(t(Lang::Ko).menu_file, "파일");
    assert_eq!(t(Lang::En).menu_file, "File");
}
