use neco_editor::search::{
    build_regex, find_all, find_next, replace_all, replace_next, SearchError, SearchQuery,
};
use neco_editor::textview::LineIndex;

fn plain(pattern: &str) -> SearchQuery {
    SearchQuery {
        pattern: pattern.to_string(),
        is_regex: false,
        case_sensitive: true,
        whole_word: false,
    }
}

#[test]
fn build_regex_invalid_returns_error() {
    let q = SearchQuery {
        pattern: "[invalid".to_string(),
        is_regex: true,
        case_sensitive: true,
        whole_word: false,
    };
    let err = build_regex(&q).unwrap_err();
    assert!(matches!(err, SearchError::InvalidRegex(_)));
}

#[test]
fn build_regex_plain_escapes_special_chars() {
    let q = SearchQuery {
        pattern: "a.b".to_string(),
        is_regex: false,
        case_sensitive: true,
        whole_word: false,
    };
    let re = build_regex(&q).expect("should compile");
    assert!(re.is_match("a.b"));
    assert!(!re.is_match("axb"));
}

#[test]
fn build_regex_case_insensitive() {
    let q = SearchQuery {
        pattern: "hello".to_string(),
        is_regex: false,
        case_sensitive: false,
        whole_word: false,
    };
    let re = build_regex(&q).expect("should compile");
    assert!(re.is_match("HELLO"));
    assert!(re.is_match("Hello"));
}

#[test]
fn build_regex_whole_word() {
    let q = SearchQuery {
        pattern: "foo".to_string(),
        is_regex: false,
        case_sensitive: true,
        whole_word: true,
    };
    let re = build_regex(&q).expect("should compile");
    assert!(re.is_match("foo"));
    assert!(!re.is_match("foobar"));
    assert!(!re.is_match("barfoo"));
}

#[test]
fn find_all_basic_match() {
    let text = "hello world";
    let li = LineIndex::new(text);
    let matches = find_all(text, &li, &plain("world")).unwrap();
    assert_eq!(matches.len(), 1);
    assert_eq!(matches[0].range().start(), 6);
    assert_eq!(matches[0].range().end(), 11);
    assert_eq!(matches[0].line(), 0);
    assert_eq!(matches[0].column(), 6);
}

#[test]
fn find_all_multiple_matches() {
    let text = "abcabc";
    let li = LineIndex::new(text);
    let matches = find_all(text, &li, &plain("abc")).unwrap();
    assert_eq!(matches.len(), 2);
    assert_eq!(matches[0].range().start(), 0);
    assert_eq!(matches[1].range().start(), 3);
}

#[test]
fn find_all_no_match() {
    let text = "hello";
    let li = LineIndex::new(text);
    let matches = find_all(text, &li, &plain("xyz")).unwrap();
    assert!(matches.is_empty());
}

#[test]
fn find_all_case_insensitive() {
    let text = "Hello HELLO hello";
    let li = LineIndex::new(text);
    let q = SearchQuery {
        pattern: "hello".to_string(),
        is_regex: false,
        case_sensitive: false,
        whole_word: false,
    };
    let matches = find_all(text, &li, &q).unwrap();
    assert_eq!(matches.len(), 3);
}

#[test]
fn find_all_whole_word() {
    let text = "foo foobar barfoo foo";
    let li = LineIndex::new(text);
    let q = SearchQuery {
        pattern: "foo".to_string(),
        is_regex: false,
        case_sensitive: true,
        whole_word: true,
    };
    let matches = find_all(text, &li, &q).unwrap();
    assert_eq!(matches.len(), 2);
    assert_eq!(matches[0].range().start(), 0);
    assert_eq!(matches[1].range().start(), 18);
}

#[test]
fn find_all_regex_with_groups() {
    let text = "2024-01-15 and 2025-12-31";
    let li = LineIndex::new(text);
    let q = SearchQuery {
        pattern: r"\d{4}-\d{2}-\d{2}".to_string(),
        is_regex: true,
        case_sensitive: true,
        whole_word: false,
    };
    let matches = find_all(text, &li, &q).unwrap();
    assert_eq!(matches.len(), 2);
    assert_eq!(matches[0].range().start(), 0);
    assert_eq!(matches[0].range().end(), 10);
    assert_eq!(matches[1].range().start(), 15);
}

#[test]
fn find_all_multiline() {
    let text = "line1\nfoo\nline3\nfoo";
    let li = LineIndex::new(text);
    let matches = find_all(text, &li, &plain("foo")).unwrap();
    assert_eq!(matches.len(), 2);
    assert_eq!(matches[0].line(), 1);
    assert_eq!(matches[0].column(), 0);
    assert_eq!(matches[1].line(), 3);
    assert_eq!(matches[1].column(), 0);
}

#[test]
fn find_all_empty_text() {
    let text = "";
    let li = LineIndex::new(text);
    let matches = find_all(text, &li, &plain("x")).unwrap();
    assert!(matches.is_empty());
}

#[test]
fn find_all_empty_pattern() {
    let text = "abc";
    let li = LineIndex::new(text);
    // Empty pattern matches at every position.
    let matches = find_all(text, &li, &plain("")).unwrap();
    assert_eq!(matches.len(), 4); // positions 0,1,2,3
}

#[test]
fn find_next_from_zero() {
    let text = "abc def abc";
    let li = LineIndex::new(text);
    let m = find_next(text, &li, &plain("abc"), 0).unwrap().unwrap();
    assert_eq!(m.range().start(), 0);
}

#[test]
fn find_next_from_middle() {
    let text = "abc def abc";
    let li = LineIndex::new(text);
    let m = find_next(text, &li, &plain("abc"), 1).unwrap().unwrap();
    assert_eq!(m.range().start(), 8);
}

#[test]
fn find_next_past_last_match() {
    let text = "abc def abc";
    let li = LineIndex::new(text);
    let m = find_next(text, &li, &plain("abc"), 9).unwrap();
    assert!(m.is_none());
}

#[test]
fn find_next_from_beyond_text() {
    let text = "abc";
    let li = LineIndex::new(text);
    let m = find_next(text, &li, &plain("abc"), 100).unwrap();
    assert!(m.is_none());
}

#[test]
fn find_next_whole_word_mid_word_offset() {
    // "foobar" contains "bar" but starting at offset 3 (mid-word) should
    // NOT match with whole_word because "bar" is not a standalone word here.
    let text = "foobar baz bar";
    let li = LineIndex::new(text);
    let q = SearchQuery {
        pattern: "bar".to_string(),
        is_regex: false,
        case_sensitive: true,
        whole_word: true,
    };
    let m = find_next(text, &li, &q, 3).unwrap().unwrap();
    // Should skip "bar" inside "foobar" and find the standalone "bar" at offset 11.
    assert_eq!(m.range().start(), 11);
}

#[test]
fn replace_all_basic() {
    let text = "hello world";
    let (new_text, count) = replace_all(text, &plain("world"), "rust").unwrap();
    assert_eq!(new_text, "hello rust");
    assert_eq!(count, 1);
}

#[test]
fn replace_all_multiple() {
    let text = "aaa";
    let (new_text, count) = replace_all(text, &plain("a"), "bb").unwrap();
    assert_eq!(new_text, "bbbbbb");
    assert_eq!(count, 3);
}

#[test]
fn replace_all_no_match() {
    let text = "hello";
    let (new_text, count) = replace_all(text, &plain("xyz"), "abc").unwrap();
    assert_eq!(new_text, "hello");
    assert_eq!(count, 0);
}

#[test]
fn replace_all_empty_text() {
    let text = "";
    let (new_text, count) = replace_all(text, &plain("x"), "y").unwrap();
    assert_eq!(new_text, "");
    assert_eq!(count, 0);
}

#[test]
fn replace_all_regex_backreference() {
    let text = "foo123bar456";
    let q = SearchQuery {
        pattern: r"(\d+)".to_string(),
        is_regex: true,
        case_sensitive: true,
        whole_word: false,
    };
    let (new_text, count) = replace_all(text, &q, "[$1]").unwrap();
    assert_eq!(new_text, "foo[123]bar[456]");
    assert_eq!(count, 2);
}

#[test]
fn replace_next_basic() {
    let text = "abc def abc";
    let li = LineIndex::new(text);
    let (new_text, m) = replace_next(text, &li, &plain("abc"), "XYZ", 0)
        .unwrap()
        .unwrap();
    assert_eq!(new_text, "XYZ def abc");
    assert_eq!(m.range().start(), 0);
    assert_eq!(m.range().end(), 3);
}

#[test]
fn replace_next_from_offset() {
    let text = "abc def abc";
    let li = LineIndex::new(text);
    let (new_text, m) = replace_next(text, &li, &plain("abc"), "XYZ", 1)
        .unwrap()
        .unwrap();
    assert_eq!(new_text, "abc def XYZ");
    assert_eq!(m.range().start(), 8);
}

#[test]
fn replace_next_no_match() {
    let text = "hello";
    let li = LineIndex::new(text);
    let result = replace_next(text, &li, &plain("xyz"), "abc", 0).unwrap();
    assert!(result.is_none());
}

#[test]
fn replace_next_from_beyond_text() {
    let text = "abc";
    let li = LineIndex::new(text);
    let result = replace_next(text, &li, &plain("abc"), "x", 100).unwrap();
    assert!(result.is_none());
}

#[test]
fn search_error_display() {
    let err = SearchError::InvalidRegex("bad pattern".to_string());
    let s = err.message();
    assert!(s.contains("bad pattern"));
}

#[test]
fn find_all_invalid_regex() {
    let text = "hello";
    let li = LineIndex::new(text);
    let q = SearchQuery {
        pattern: "[".to_string(),
        is_regex: true,
        case_sensitive: true,
        whole_word: false,
    };
    let err = find_all(text, &li, &q).unwrap_err();
    assert!(matches!(err, SearchError::InvalidRegex(_)));
}

#[test]
fn find_next_invalid_regex() {
    let text = "hello";
    let li = LineIndex::new(text);
    let q = SearchQuery {
        pattern: "[".to_string(),
        is_regex: true,
        case_sensitive: true,
        whole_word: false,
    };
    let err = find_next(text, &li, &q, 0).unwrap_err();
    assert!(matches!(err, SearchError::InvalidRegex(_)));
}

#[test]
fn replace_all_invalid_regex() {
    let q = SearchQuery {
        pattern: "[".to_string(),
        is_regex: true,
        case_sensitive: true,
        whole_word: false,
    };
    let err = replace_all("x", &q, "y").unwrap_err();
    assert!(matches!(err, SearchError::InvalidRegex(_)));
}

#[test]
fn replace_next_invalid_regex() {
    let text = "hello";
    let li = LineIndex::new(text);
    let q = SearchQuery {
        pattern: "[".to_string(),
        is_regex: true,
        case_sensitive: true,
        whole_word: false,
    };
    let err = replace_next(text, &li, &q, "y", 0).unwrap_err();
    assert!(matches!(err, SearchError::InvalidRegex(_)));
}

#[test]
fn plain_search_treats_meta_characters_literally() {
    let text = "f(x) = x";
    let li = LineIndex::new(text);
    let matches = find_all(text, &li, &plain("(x)")).unwrap();
    assert_eq!(matches.len(), 1);
    assert_eq!(matches[0].range().start(), 1);
    assert_eq!(matches[0].range().end(), 4);
}

#[test]
fn find_next_reports_line_and_column() {
    let text = "ab\ncd\n  xy";
    let li = LineIndex::new(text);
    let m = find_next(text, &li, &plain("xy"), 0).unwrap().unwrap();
    assert_eq!(m.line(), 2);
    assert_eq!(m.column(), 2);
    assert_eq!(m.range().start(), 8);
    assert_eq!(m.range().end(), 10);
}

#[test]
fn replace_next_keeps_multibyte_text_around_match() {
    let text = "äb äb";
    let li = LineIndex::new(text);
    let (new_text, m) = replace_next(text, &li, &plain("äb"), "c", 1)
        .unwrap()
        .unwrap();
    assert_eq!(new_text, "äb c");
    assert_eq!(m.range().start(), 4);
    assert_eq!(m.column(), 4);
}

#[test]
fn whole_word_case_insensitive_combined() {
    let text = "Foo foobar FOO";
    let li = LineIndex::new(text);
    let q = SearchQuery {
        pattern: "foo".to_string(),
        is_regex: false,
        case_sensitive: false,
        whole_word: true,
    };
    let matches = find_all(text, &li, &q).unwrap();
    assert_eq!(matches.len(), 2);
    assert_eq!(matches[1].range().start(), 11);
}

#[test]
fn search_error_message_is_exact() {
    let err = SearchError::InvalidRegex("bad pattern".to_string());
    assert_eq!(err.message(), "invalid regex: bad pattern");
}

#[test]
fn invalid_regex_error_carries_engine_message() {
    let q = SearchQuery {
        pattern: "(".to_string(),
        is_regex: true,
        case_sensitive: true,
        whole_word: false,
    };
    let err = build_regex(&q).err().expect("pattern should not compile");
    let SearchError::InvalidRegex(msg) = err else {
        panic!("unexpected error kind");
    };
    assert!(!msg.is_empty());
}

#[test]
fn find_all_matches_come_in_order_without_overlap() {
    let text = "aaaa aa\naaa";
    let li = LineIndex::new(text);
    let matches = find_all(text, &li, &plain("aa")).unwrap();
    assert_eq!(matches.len(), 4);
    for pair in matches.windows(2) {
        assert!(pair[0].range().end() <= pair[1].range().start());
    }
}

#[test]
fn replace_all_without_match_keeps_text() {
    let (new_text, count) = replace_all("hello world", &plain("xyz"), "abc").unwrap();
    assert_eq!(count, 0);
    assert_eq!(new_text, "hello world");
}
