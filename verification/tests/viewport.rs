use neco_editor::textview::TextViewError;
use neco_editor::viewport::ViewportError;

#[test]
fn viewport_error_wraps_text_view_error() {
    let inner = TextViewError::LineOutOfBounds { line: 3, line_count: 1 };
    let err: ViewportError = inner.clone().into();
    assert_eq!(
        err.message(),
        "text view error: line 3 out of bounds (line_count 1)"
    );
    assert_eq!(err.source(), &inner);
}

use neco_editor::textview::{LineIndex, Selection};
use neco_editor::viewport::{caret_visual_line, selection_segments, visual_line_bounds};
use neco_editor::wrap::{WrapMap, WrapPolicy};

fn layout() -> (LineIndex, WrapMap) {
    let text = "ab cd ef\nxyz";
    let lines: Vec<&str> = text.split('\n').collect();
    (LineIndex::new(text), WrapMap::new(&lines, 4, &WrapPolicy::code()))
}

#[test]
fn caret_visual_line_follows_wrap_points() {
    let (li, wm) = layout();
    assert_eq!(caret_visual_line(0, &li, &wm), Ok((0, 0)));
    assert_eq!(caret_visual_line(4, &li, &wm), Ok((1, 3)));
    assert_eq!(caret_visual_line(7, &li, &wm), Ok((2, 6)));
    assert_eq!(caret_visual_line(10, &li, &wm), Ok((3, 9)));
    assert_eq!(
        caret_visual_line(13, &li, &wm),
        Err(TextViewError::OffsetOutOfBounds { offset: 13, len: 12 })
    );
}

#[test]
fn visual_line_bounds_cover_each_visual_line() {
    let (li, wm) = layout();
    assert_eq!(visual_line_bounds(0, &li, &wm), Ok((0, 3)));
    assert_eq!(visual_line_bounds(1, &li, &wm), Ok((3, 6)));
    assert_eq!(visual_line_bounds(2, &li, &wm), Ok((6, 8)));
    assert_eq!(visual_line_bounds(3, &li, &wm), Ok((9, 12)));
}

#[test]
fn visual_line_bounds_reports_lines_missing_from_the_index() {
    let li = LineIndex::new("ab");
    let wm = WrapMap::new(&["ab", "cd"], 4, &WrapPolicy::code());
    assert_eq!(
        visual_line_bounds(1, &li, &wm),
        Err(TextViewError::LineOutOfBounds { line: 1, line_count: 1 })
    );
}

#[test]
fn selection_segments_split_per_visual_line() {
    let (li, wm) = layout();
    let segs = selection_segments(&Selection::new(10, 2), &li, &wm).unwrap();
    assert_eq!(
        segs,
        vec![(0, 0, 2, 3), (1, 3, 3, 6), (2, 6, 6, 8), (3, 9, 9, 10)]
    );
}

#[test]
fn selection_segments_of_empty_or_bad_selection() {
    let (li, wm) = layout();
    assert_eq!(selection_segments(&Selection::cursor(4), &li, &wm), Ok(vec![]));
    assert_eq!(
        selection_segments(&Selection::new(2, 20), &li, &wm),
        Err(TextViewError::OffsetOutOfBounds { offset: 20, len: 12 })
    );
}
