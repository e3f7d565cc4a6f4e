use neco_editor::editor::IndentStyle;
use neco_editor::search::SearchError;
use neco_editor::session::{map_search_error, map_textpatch_error, EditorSession};
use neco_editor::textpatch::TextPatchError;

fn make_handle(text: &str) -> EditorSession {
    EditorSession::new(text, "rust", 4)
}

#[test]
fn new_and_get_text() {
    let h = make_handle("hello world");
    assert_eq!(h.get_text(), "hello world");
}

#[test]
fn is_dirty_initially_false() {
    let h = make_handle("hello");
    assert!(!h.is_dirty());
}

#[test]
fn apply_edit_changes_text() {
    let mut h = make_handle("hello world");
    let result = h.apply_edit(6, 11, "rust", "replace");
    assert!(result.is_ok());
    assert_eq!(h.get_text(), "hello rust");
}

#[test]
fn apply_edit_insert() {
    let mut h = make_handle("hello");
    let result = h.apply_edit(5, 5, "!", "insert");
    assert!(result.is_ok());
    assert_eq!(h.get_text(), "hello!");
}

#[test]
fn apply_edit_delete() {
    let mut h = make_handle("hello world");
    let result = h.apply_edit(5, 11, "", "delete");
    assert!(result.is_ok());
    assert_eq!(h.get_text(), "hello");
}

#[test]
fn apply_edit_marks_dirty() {
    let mut h = make_handle("hello");
    let _ = h.apply_edit(5, 5, "!", "insert");
    assert!(h.is_dirty());
}

#[test]
fn apply_edit_returns_range_changes() {
    let mut h = make_handle("hello world");
    let changes = h.apply_edit(6, 11, "rust", "replace").expect("should succeed");
    assert_eq!(changes.len(), 1);
    assert_eq!(changes[0].start(), 6);
    assert_eq!(changes[0].old_end(), 11);
    assert_eq!(changes[0].new_end(), 10);
}

#[test]
fn apply_edit_out_of_bounds_returns_error() {
    let mut h = make_handle("abc");
    let result = h.apply_edit(10, 12, "x", "oob");
    assert!(result.is_err());
    let err = result.unwrap_err();
    assert_eq!(err.domain, "editor");
}

#[test]
fn undo_redo_roundtrip() {
    let mut h = make_handle("hello world");
    h.apply_edit(6, 11, "rust", "replace").expect("edit should succeed");
    assert_eq!(h.get_text(), "hello rust");

    let undo_result = h.undo().expect("undo should not error");
    assert!(undo_result.is_some());
    assert_eq!(h.get_text(), "hello world");

    let redo_result = h.redo().expect("redo should not error");
    assert!(redo_result.is_some());
    assert_eq!(h.get_text(), "hello rust");
}

#[test]
fn session_undo_at_root_returns_none() {
    let mut h = make_handle("hello");
    let result = h.undo().expect("should not error");
    assert!(result.is_none());
    assert_eq!(h.get_text(), "hello");
}

#[test]
fn search_finds_matches() {
    let mut h = make_handle("hello world hello");
    h.search("hello", false, true, false).expect("should succeed");
    assert_eq!(h.search_matches().len(), 2);
    assert_eq!(h.search_matches()[0].range().start(), 0);
    assert_eq!(h.search_matches()[1].range().start(), 12);
}

#[test]
fn search_invalid_regex_returns_error() {
    let mut h = make_handle("hello");
    let result = h.search("[invalid", true, true, false);
    assert!(result.is_err());
    let err = result.unwrap_err();
    assert_eq!(err.domain, "search");
}

#[test]
fn search_stores_matches() {
    let mut h = make_handle("abc abc");
    h.search("abc", false, true, false).expect("should succeed");
    assert_eq!(h.search_matches().len(), 2);
}

#[test]
fn error_mapping_textpatch() {
    let err = map_textpatch_error(TextPatchError::OffsetOutOfBounds { offset: 10, len: 5 });
    assert_eq!(err.domain, "editor");
    assert_eq!(err.code, "patch_failed");
    assert!(err.message.contains("10"));
}

#[test]
fn error_mapping_search() {
    let err = map_search_error(SearchError::InvalidRegex("bad".to_string()));
    assert_eq!(err.domain, "search");
    assert!(err.message.contains("bad"));
}

#[test]
fn session_detect_indent_tabs() {
    let h = make_handle("\tline1\n\tline2\n");
    let style = h.detect_indent(10);
    assert_eq!(style, IndentStyle::Tabs);
}

#[test]
fn detect_indent_spaces() {
    let h = make_handle("def foo\n  bar\n  baz\n");
    let style = h.detect_indent(10);
    assert_eq!(style, IndentStyle::Spaces(2));
}

#[test]
fn utf16_mapping_roundtrips_through_wasm_helpers() {
    let h = make_handle("a😀b");

    assert_eq!(h.byte_offset_to_utf16(0).unwrap(), 0);
    assert_eq!(h.byte_offset_to_utf16(1).unwrap(), 1);
    assert_eq!(h.byte_offset_to_utf16(5).unwrap(), 3);
    assert_eq!(h.utf16_offset_to_byte(0).unwrap(), 0);
    assert_eq!(h.utf16_offset_to_byte(1).unwrap(), 1);
    assert_eq!(h.utf16_offset_to_byte(3).unwrap(), 5);
    assert_eq!(h.get_text_byte_length(), 6);
}

#[test]
fn read_only_blocks_apply_edit() {
    let mut h = make_handle("hello");
    h.set_read_only(true);
    let result = h.apply_edit(5, 5, "!", "insert");
    assert!(result.is_err());
    let err = result.unwrap_err();
    assert_eq!(err.code, "read_only");
    assert_eq!(h.get_text(), "hello");
}

#[test]
fn read_only_flag_toggles() {
    let mut h = make_handle("hello");
    assert!(!h.is_read_only());
    h.set_read_only(true);
    assert!(h.is_read_only());
    h.set_read_only(false);
    assert!(!h.is_read_only());
}

#[test]
fn read_only_allows_edit_after_disable() {
    let mut h = make_handle("hello");
    h.set_read_only(true);
    h.set_read_only(false);
    let result = h.apply_edit(5, 5, "!", "insert");
    assert!(result.is_ok());
    assert_eq!(h.get_text(), "hello!");
}

#[test]
fn auto_indent_returns_leading_whitespace() {
    let h = make_handle("    hello\n    world");
    assert_eq!(h.auto_indent(0), "    ");
    assert_eq!(h.auto_indent(10), "    ");
}

#[test]
fn auto_indent_tabs() {
    let h = make_handle("\thello\n\t\tworld");
    assert_eq!(h.auto_indent(0), "\t");
    assert_eq!(h.auto_indent(7), "\t\t");
}

#[test]
fn auto_indent_no_indent() {
    let h = make_handle("hello");
    assert_eq!(h.auto_indent(0), "");
}

#[test]
fn auto_close_bracket_returns_closing_pair() {
    let h = make_handle("");
    assert_eq!(h.auto_close_bracket('('), Some(')'));
    assert_eq!(h.auto_close_bracket('['), Some(']'));
    assert_eq!(h.auto_close_bracket('{'), Some('}'));
    assert_eq!(h.auto_close_bracket('"'), Some('"'));
    assert_eq!(h.auto_close_bracket('\''), Some('\''));
}

#[test]
fn auto_close_bracket_returns_none_for_non_bracket() {
    let h = make_handle("");
    assert_eq!(h.auto_close_bracket('a'), None);
    assert_eq!(h.auto_close_bracket(')'), None);
}

#[test]
fn find_matching_bracket_via_handle() {
    let h = make_handle("(hello)");
    let pair = h.find_matching_bracket(0).map(|p| (p.open(), p.close()));
    assert_eq!(pair, Some((0, 6)));
}

#[test]
fn find_matching_bracket_no_match() {
    let h = make_handle("hello");
    assert!(h.find_matching_bracket(0).is_none());
}

#[test]
fn adjust_paste_indent_passthrough() {
    let h = make_handle("hello");
    assert_eq!(h.adjust_paste_indent("  pasted", 0), "  pasted");
}

// Own tests.

#[test]
fn grouped_undo_replays_every_step() {
    let mut h = make_handle("ab");
    h.apply_edit(2, 2, "c", "one").unwrap();
    h.apply_edit(3, 3, "d", "two").unwrap();
    assert_eq!(h.get_text(), "abcd");
    assert_eq!(h.undo().unwrap().as_deref(), Some("two"));
    assert_eq!(h.get_text(), "abc");
    assert_eq!(h.undo().unwrap().as_deref(), Some("one"));
    assert_eq!(h.get_text(), "ab");
    assert!(h.undo().unwrap().is_none());
    assert_eq!(h.redo().unwrap().as_deref(), Some("one"));
    assert_eq!(h.get_text(), "abc");
}

#[test]
fn mark_clean_resets_dirty_flag() {
    let mut h = make_handle("x");
    h.apply_edit(1, 1, "y", "add").unwrap();
    assert!(h.is_dirty());
    h.mark_clean();
    assert!(!h.is_dirty());
    h.undo().unwrap();
    assert!(h.is_dirty());
}

#[test]
fn apply_edit_keeps_wrap_lines_in_step() {
    let mut h = make_handle("one\ntwo");
    h.apply_edit(3, 3, "\nmid", "split").unwrap();
    assert_eq!(h.get_text(), "one\nmid\ntwo");
    assert_eq!(h.wrap_map().line_count(), 3);
    h.undo().unwrap();
    assert_eq!(h.wrap_map().line_count(), 2);
}

#[test]
fn utf16_conversion_errors_are_text_errors() {
    let h = make_handle("a😀b");
    let err = h.byte_offset_to_utf16(2).unwrap_err();
    assert_eq!(err.domain, "text");
    assert_eq!(err.code, "utf16_mapping_error");
}

#[test]
fn set_tab_width_rewraps_lines() {
    let mut h = make_handle("a\tb\nc");
    h.set_tab_width(8);
    assert_eq!(h.wrap_map().line_count(), 2);
    assert_eq!(h.get_text(), "a\tb\nc");
}

#[test]
fn visible_lines_reports_range_and_caches() {
    let mut h = make_handle("fn a() {}\nlet x = 1;\n// c\n");
    let lines = h.visible_lines(0, 1);
    assert_eq!(lines.len(), 2);
    assert_eq!(lines[0].line_number, 1);
    assert_eq!(lines[0].text, "fn a() {}");
    assert_eq!(lines[1].line_number, 2);
    assert_eq!(lines[1].text, "let x = 1;");
    assert!(!lines[0].tokens.is_empty());
    let more = h.visible_lines(2, 3);
    assert_eq!(more.len(), 2);
    assert_eq!(more[0].text, "// c");
    assert_eq!(more[1].text, "");
}

#[test]
fn visible_lines_without_highlighter_has_no_tokens() {
    let mut h = EditorSession::new("a\nb", "no-such-language", 4);
    let lines = h.visible_lines(0, 1);
    assert_eq!(lines.len(), 2);
    assert!(lines[0].tokens.is_empty());
    assert!(lines[1].tokens.is_empty());
}
