use neco_editor::editor::{
    auto_close_bracket, auto_indent, find_matching_bracket, EditorBuffer, IndentStyle,
};
use neco_editor::decor::{Decoration, DecorationSet};
use neco_editor::history::EditHistory;
use neco_editor::textpatch::{apply_patches, TextPatch, TextPatchError};
use neco_editor::textview::{LineIndex, RangeChange};
use neco_editor::wrap::{CjkGridWidth, CodeBreaks, WrapMap, WrapPolicy};

type CodePolicy = WrapPolicy<CjkGridWidth, CodeBreaks>;

#[test]
fn new_exposes_text_and_line_index() {
    let buffer = EditorBuffer::new("alpha\nbeta".to_string());

    assert_eq!(buffer.text(), "alpha\nbeta");
    assert_eq!(buffer.line_index().line_count(), 2);
    assert_eq!(buffer.line_index().text_len(), 10);
}

#[test]
fn apply_patches_updates_text_and_returns_single_range_change() {
    let mut buffer = EditorBuffer::new("hello world".to_string());
    let patches = [TextPatch::replace(6, 11, "rust").unwrap()];

    let changes = buffer.apply_patches(&patches).unwrap();

    assert_eq!(buffer.text(), "hello rust");
    assert_eq!(changes, vec![RangeChange::new(6, 11, 10)]);
    assert_eq!(buffer.line_index().text_len(), 10);
}

#[test]
fn apply_patches_uses_cumulative_delta_for_following_changes() {
    let mut buffer = EditorBuffer::new("abcdef".to_string());
    let patches = [
        TextPatch::replace(1, 3, "WXYZ").unwrap(),
        TextPatch::replace(4, 6, "Q").unwrap(),
    ];

    let changes = buffer.apply_patches(&patches).unwrap();

    assert_eq!(buffer.text(), "aWXYZdQ");
    assert_eq!(
        changes,
        vec![RangeChange::new(1, 3, 5), RangeChange::new(6, 8, 7)]
    );
}

#[test]
fn apply_patches_returns_error_for_invalid_patch() {
    let mut buffer = EditorBuffer::new("abc".to_string());
    let patches = [TextPatch::replace(4, 4, "x").unwrap()];

    let error = buffer.apply_patches(&patches).unwrap_err();

    assert_eq!(
        error,
        TextPatchError::OffsetOutOfBounds { offset: 4, len: 3 }
    );
}

#[test]
fn lib_detect_indent_tabs() {
    let buffer = EditorBuffer::new("\tline1\n\t\tline2\nline3\n".to_string());
    assert_eq!(buffer.detect_indent(10), IndentStyle::Tabs);
}

#[test]
fn detect_indent_two_spaces() {
    let buffer = EditorBuffer::new("def foo\n  bar\n  baz\n    qux\n".to_string());
    assert_eq!(buffer.detect_indent(10), IndentStyle::Spaces(2));
}

#[test]
fn detect_indent_four_spaces() {
    let buffer = EditorBuffer::new(
        "fn main() {\n    let x = 1;\n    let y = 2;\n        nested();\n}\n".to_string(),
    );
    assert_eq!(buffer.detect_indent(10), IndentStyle::Spaces(4));
}

#[test]
fn detect_indent_mixed_prefers_majority() {
    // More tab-indented lines than space-indented
    let buffer = EditorBuffer::new("\ta\n\tb\n\tc\n  d\n".to_string());
    assert_eq!(buffer.detect_indent(10), IndentStyle::Tabs);
}

#[test]
fn detect_indent_empty_text() {
    let buffer = EditorBuffer::new(String::new());
    assert_eq!(buffer.detect_indent(10), IndentStyle::Spaces(4));
}

#[test]
fn detect_indent_no_indentation() {
    let buffer = EditorBuffer::new("line1\nline2\nline3\n".to_string());
    assert_eq!(buffer.detect_indent(10), IndentStyle::Spaces(4));
}

#[test]
fn detect_indent_respects_sample_lines_limit() {
    // First 2 lines use tabs, remaining use spaces
    let buffer = EditorBuffer::new("\ta\n\tb\n  c\n  d\n  e\n  f\n".to_string());
    assert_eq!(buffer.detect_indent(2), IndentStyle::Tabs);
}

#[test]
fn find_matching_bracket_simple_parens() {
    let text = "(hello)";
    let pair = find_matching_bracket(text, 0).unwrap();
    assert_eq!(pair.open(), 0);
    assert_eq!(pair.close(), 6);
}

#[test]
fn find_matching_bracket_from_close() {
    let text = "(hello)";
    let pair = find_matching_bracket(text, 6).unwrap();
    assert_eq!(pair.open(), 0);
    assert_eq!(pair.close(), 6);
}

#[test]
fn find_matching_bracket_nested() {
    let text = "((a))";
    let pair = find_matching_bracket(text, 1).unwrap();
    assert_eq!(pair.open(), 1);
    assert_eq!(pair.close(), 3);
    let pair = find_matching_bracket(text, 0).unwrap();
    assert_eq!(pair.open(), 0);
    assert_eq!(pair.close(), 4);
}

#[test]
fn find_matching_bracket_mixed_types() {
    let text = "{[()]}";
    let pair = find_matching_bracket(text, 0).unwrap();
    assert_eq!(pair.open(), 0);
    assert_eq!(pair.close(), 5);
    let pair = find_matching_bracket(text, 1).unwrap();
    assert_eq!(pair.open(), 1);
    assert_eq!(pair.close(), 4);
    let pair = find_matching_bracket(text, 2).unwrap();
    assert_eq!(pair.open(), 2);
    assert_eq!(pair.close(), 3);
}

#[test]
fn find_matching_bracket_not_on_bracket() {
    assert!(find_matching_bracket("hello", 0).is_none());
}

#[test]
fn find_matching_bracket_unmatched() {
    assert!(find_matching_bracket("(hello", 0).is_none());
    assert!(find_matching_bracket("hello)", 5).is_none());
}

#[test]
fn find_matching_bracket_empty_text() {
    assert!(find_matching_bracket("", 0).is_none());
}

#[test]
fn auto_indent_preserves_spaces() {
    let text = "    hello\n    world";
    let li = LineIndex::new(text);
    assert_eq!(auto_indent(text, &li, 0), "    ");
    assert_eq!(auto_indent(text, &li, 10), "    ");
}

#[test]
fn auto_indent_preserves_tabs() {
    let text = "\thello\n\t\tworld";
    let li = LineIndex::new(text);
    assert_eq!(auto_indent(text, &li, 0), "\t");
    assert_eq!(auto_indent(text, &li, 7), "\t\t");
}

#[test]
fn auto_indent_no_indent_returns_empty() {
    let text = "hello\nworld";
    let li = LineIndex::new(text);
    assert_eq!(auto_indent(text, &li, 0), "");
}

#[test]
fn auto_indent_empty_text() {
    let text = "";
    let li = LineIndex::new(text);
    assert_eq!(auto_indent(text, &li, 0), "");
}

#[test]
fn auto_close_bracket_pairs() {
    assert_eq!(auto_close_bracket('('), Some(')'));
    assert_eq!(auto_close_bracket('['), Some(']'));
    assert_eq!(auto_close_bracket('{'), Some('}'));
    assert_eq!(auto_close_bracket('"'), Some('"'));
    assert_eq!(auto_close_bracket('\''), Some('\''));
}

#[test]
fn auto_close_bracket_non_bracket() {
    assert_eq!(auto_close_bracket('a'), None);
    assert_eq!(auto_close_bracket(')'), None);
    assert_eq!(auto_close_bracket(']'), None);
}

#[test]
fn find_matching_bracket_offset_out_of_bounds() {
    assert!(find_matching_bracket("()", 5).is_none());
}

#[test]
fn apply_patches_reports_changes_sorted_by_range() {
    let mut buffer = EditorBuffer::new("abcdef".to_string());
    let patches = [
        TextPatch::insert(4, "YY"),
        TextPatch::replace(2, 4, "X").unwrap(),
    ];

    let changes = buffer.apply_patches(&patches).unwrap();

    assert_eq!(buffer.text(), "abXYYef");
    assert_eq!(
        changes,
        vec![RangeChange::new(2, 4, 3), RangeChange::new(3, 3, 5)]
    );
    assert_eq!(buffer.line_index().text_len(), 7);
}

#[test]
fn apply_patches_conflict_leaves_buffer_unchanged() {
    let mut buffer = EditorBuffer::new("abcdef".to_string());
    let patches = [
        TextPatch::replace(1, 3, "X").unwrap(),
        TextPatch::replace(2, 4, "Y").unwrap(),
    ];

    let error = buffer.apply_patches(&patches).unwrap_err();

    assert!(matches!(error, TextPatchError::Conflict(_)));
    assert_eq!(buffer.text(), "abcdef");
}

#[test]
fn apply_patches_rebuilds_line_index() {
    let mut buffer = EditorBuffer::new("one".to_string());
    let patches = [TextPatch::insert(3, "\ntwo\nthree")];

    buffer.apply_patches(&patches).unwrap();

    assert_eq!(buffer.line_index().line_count(), 3);
    assert_eq!(buffer.line_index().text_len(), 13);
}

#[test]
fn detect_indent_uses_common_width_of_space_lines() {
    let buffer = EditorBuffer::new("a\n   b\n      c\n".to_string());
    assert_eq!(buffer.detect_indent(10), IndentStyle::Spaces(3));
}

#[test]
fn detect_indent_ignores_blank_and_whitespace_only_lines() {
    let buffer = EditorBuffer::new("\t\n   \n\n  x\r\n".to_string());
    assert_eq!(buffer.detect_indent(10), IndentStyle::Spaces(2));
}

#[test]
fn detect_indent_strips_crlf_line_endings() {
    let buffer = EditorBuffer::new("  \r\n\tx\r\n".to_string());
    assert_eq!(buffer.detect_indent(10), IndentStyle::Tabs);
}

#[test]
fn detect_indent_with_zero_sample_lines_defaults() {
    let buffer = EditorBuffer::new("\ta\n".to_string());
    assert_eq!(buffer.detect_indent(0), IndentStyle::Spaces(4));
}

#[test]
fn auto_indent_offset_past_end_returns_empty() {
    let text = "  ab";
    let li = LineIndex::new(text);
    assert_eq!(auto_indent(text, &li, 9), "");
}

#[test]
fn auto_indent_at_line_end_uses_that_line() {
    let text = "a\n \tb\nc";
    let li = LineIndex::new(text);
    assert_eq!(auto_indent(text, &li, 5), " \t");
    assert_eq!(auto_indent(text, &li, 6), "");
}

#[test]
fn apply_patches_with_maps_decorations_through_changes() {
    let mut buffer = EditorBuffer::new("hello world".to_string());
    let patches = [TextPatch::replace(6, 11, "rust").unwrap()];
    let mut decorations = DecorationSet::new();
    decorations.add(Decoration::highlight(6, 11, 1).unwrap());

    buffer
        .apply_patches_with(&patches, &mut decorations, None, None::<&CodePolicy>, None, None)
        .unwrap();

    let decoration = decorations.iter().next().unwrap().1;
    assert_eq!(decoration.start(), 6);
    assert_eq!(decoration.end(), 10);
}

#[test]
fn apply_patches_with_updates_wrap_map() {
    let mut buffer = EditorBuffer::new("ab cd\nef gh".to_string());
    let patches = [TextPatch::replace(0, 5, "abcd").unwrap()];
    let policy = WrapPolicy::code();
    let mut decorations = DecorationSet::new();
    let lines: Vec<&str> = buffer.text().split('\n').collect();
    let mut wrap_map = WrapMap::new(&lines, 3, &policy);

    assert_eq!(wrap_map.visual_line_count(0), 2);

    buffer
        .apply_patches_with(
            &patches,
            &mut decorations,
            Some(&mut wrap_map),
            Some(&policy),
            None,
            None,
        )
        .unwrap();

    assert_eq!(wrap_map.visual_line_count(0), 1);
    assert_eq!(wrap_map.wrap_points(0), &[]);
}

#[test]
fn apply_patches_with_records_history_and_undo_restores_original_text() {
    let mut buffer = EditorBuffer::new("hello world".to_string());
    let patches = [TextPatch::replace(6, 11, "rust").unwrap()];
    let mut decorations = DecorationSet::new();
    let mut history = EditHistory::new(buffer.text());

    buffer
        .apply_patches_with(
            &patches,
            &mut decorations,
            None,
            None::<&CodePolicy>,
            Some(&mut history),
            Some("replace word"),
        )
        .unwrap();

    assert_eq!(history.current_label(), "replace word");

    let undo = history.undo().unwrap().remove(0);
    let inverse = undo.inverse_patches.unwrap();
    let restored = apply_patches(buffer.text(), &inverse).unwrap();

    assert_eq!(restored, "hello world");
}

#[test]
fn apply_patches_with_works_when_all_optional_systems_are_absent() {
    let mut buffer = EditorBuffer::new("hello".to_string());
    let patches = [TextPatch::insert(5, "!")];
    let mut decorations = DecorationSet::new();

    buffer
        .apply_patches_with(&patches, &mut decorations, None, None::<&CodePolicy>, None, None)
        .unwrap();

    assert_eq!(buffer.text(), "hello!");
}

#[test]
fn apply_patches_with_splices_wrap_lines_when_line_count_changes() {
    let mut buffer = EditorBuffer::new("aa bb\ncc dd\nee".to_string());
    let patches = [TextPatch::replace(2, 9, "\nx\ny\nz").unwrap()];
    let policy = WrapPolicy::code();
    let mut decorations = DecorationSet::new();
    let lines: Vec<&str> = buffer.text().split('\n').collect();
    let mut wrap_map = WrapMap::new(&lines, 3, &policy);
    assert_eq!(wrap_map.line_count(), 3);

    buffer
        .apply_patches_with(&patches, &mut decorations, Some(&mut wrap_map), Some(&policy), None, None)
        .unwrap();

    assert_eq!(buffer.text(), "aa\nx\ny\nzdd\nee");
    assert_eq!(wrap_map.line_count(), 5);
    for line in 0..5 {
        assert_eq!(wrap_map.visual_line_count(line), 1);
    }
}

#[test]
fn apply_patches_with_error_leaves_everything_unchanged() {
    let mut buffer = EditorBuffer::new("abc".to_string());
    let patches = [TextPatch::replace(4, 4, "x").unwrap()];
    let mut decorations = DecorationSet::new();
    decorations.add(Decoration::highlight(0, 1, 1).unwrap());
    let err = buffer
        .apply_patches_with(&patches, &mut decorations, None, None::<&CodePolicy>, None, None)
        .unwrap_err();
    assert_eq!(err, TextPatchError::OffsetOutOfBounds { offset: 4, len: 3 });
    assert_eq!(buffer.text(), "abc");
    assert_eq!(decorations.iter().next().unwrap().1.end(), 1);
}

#[test]
fn found_bracket_pairs_match_back_from_either_end() {
    let text = "f(a[b]{c(d)}) ] (";
    for offset in 0..text.len() {
        if let Some(pair) = find_matching_bracket(text, offset) {
            assert!(pair.open() < pair.close());
            assert!(offset == pair.open() || offset == pair.close());
            assert_eq!(find_matching_bracket(text, pair.open()), Some(pair));
            assert_eq!(find_matching_bracket(text, pair.close()), Some(pair));
        }
    }
    assert_eq!(find_matching_bracket(text, 0), None);
    assert_eq!(find_matching_bracket(text, 14), None);
    assert_eq!(find_matching_bracket(text, 16), None);
}
