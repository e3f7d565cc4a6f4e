use neco_editor::decor::{DecorError, Decoration, DecorationId, DecorationKind, DecorationSet};
use neco_editor::textview::RangeChange;

#[test]
fn highlight_ok() {
    let d = Decoration::highlight(0, 10, 1).unwrap();
    assert_eq!(d.start(), 0);
    assert_eq!(d.end(), 10);
    assert_eq!(d.kind(), DecorationKind::Highlight);
    assert_eq!(d.tag(), 1);
    assert_eq!(d.priority(), 0);
}

#[test]
fn highlight_empty_range() {
    let err = Decoration::highlight(5, 5, 1).unwrap_err();
    assert_eq!(err, DecorError::EmptyHighlight { offset: 5 });
}

#[test]
fn highlight_invalid_range() {
    let err = Decoration::highlight(10, 5, 1).unwrap_err();
    assert_eq!(err, DecorError::InvalidRange { start: 10, end: 5 });
}

#[test]
fn marker_ok() {
    let d = Decoration::marker(42, 2);
    assert_eq!(d.start(), 42);
    assert_eq!(d.end(), 42);
    assert_eq!(d.kind(), DecorationKind::Marker);
    assert_eq!(d.tag(), 2);
}

#[test]
fn widget_ok() {
    let d = Decoration::widget(10, 20, 3, true).unwrap();
    assert_eq!(d.kind(), DecorationKind::Widget { block: true });
}

#[test]
fn widget_empty_range_ok() {
    let d = Decoration::widget(5, 5, 3, false).unwrap();
    assert_eq!(d.start(), 5);
    assert_eq!(d.end(), 5);
}

#[test]
fn widget_invalid_range() {
    let err = Decoration::widget(20, 10, 3, false).unwrap_err();
    assert_eq!(err, DecorError::InvalidRange { start: 20, end: 10 });
}

#[test]
fn with_priority() {
    let d = Decoration::marker(0, 1).with_priority(5);
    assert_eq!(d.priority(), 5);
}

#[test]
fn set_add_iter_sorted() {
    let mut set = DecorationSet::new();
    set.add(Decoration::marker(20, 1));
    set.add(Decoration::marker(5, 2));
    set.add(Decoration::marker(10, 3));

    let starts: Vec<usize> = set.iter().map(|(_, d)| d.start()).collect();
    assert_eq!(starts, vec![5, 10, 20]);
}

#[test]
fn set_add_remove_len() {
    let mut set = DecorationSet::new();
    let id1 = set.add(Decoration::marker(0, 1));
    let id2 = set.add(Decoration::marker(10, 2));
    assert_eq!(set.len(), 2);

    assert!(set.remove(id1));
    assert_eq!(set.len(), 1);
    assert!(!set.remove(id1));

    assert!(set.remove(id2));
    assert!(set.is_empty());
}

#[test]
fn decoration_id_roundtrips_through_raw_value() {
    let mut set = DecorationSet::new();
    let id = set.add(Decoration::marker(0, 1));
    let raw = id.into_raw();

    assert!(set.remove(DecorationId::from_raw(raw)));
    assert!(set.is_empty());
}

#[test]
fn set_query_range() {
    let mut set = DecorationSet::new();
    set.add(Decoration::highlight(0, 5, 1).unwrap());
    set.add(Decoration::highlight(10, 20, 2).unwrap());
    set.add(Decoration::highlight(30, 40, 3).unwrap());

    let results = set.query_range(3, 15);
    assert_eq!(results.len(), 2);
    assert_eq!(results[0].1.tag(), 1);
    assert_eq!(results[1].1.tag(), 2);
}

#[test]
fn set_query_tag() {
    let mut set = DecorationSet::new();
    set.add(Decoration::marker(0, 1));
    set.add(Decoration::marker(10, 2));
    set.add(Decoration::marker(20, 1));

    let results = set.query_tag(1);
    assert_eq!(results.len(), 2);
}

#[test]
fn set_query_range_includes_marker() {
    let mut set = DecorationSet::new();
    set.add(Decoration::marker(10, 1));
    set.add(Decoration::marker(20, 2));

    let results = set.query_range(10, 15);
    assert_eq!(results.len(), 1);
    assert_eq!(results[0].1.tag(), 1);

    let results = set.query_range(5, 10);
    assert_eq!(results.len(), 0);

    let results = set.query_range(5, 11);
    assert_eq!(results.len(), 1);
}

#[test]
fn map_before_change_unchanged() {
    let mut set = DecorationSet::new();
    set.add(Decoration::highlight(0, 5, 1).unwrap());
    set.map_through_change(10, 15, 20);

    let d = set.iter().next().unwrap().1;
    assert_eq!(d.start(), 0);
    assert_eq!(d.end(), 5);
}

#[test]
fn map_after_change_shifted() {
    let mut set = DecorationSet::new();
    set.add(Decoration::highlight(20, 30, 1).unwrap());
    // Insertion: [10, 15) -> [10, 20), delta = +5.
    set.map_through_change(10, 15, 20);

    let d = set.iter().next().unwrap().1;
    assert_eq!(d.start(), 25);
    assert_eq!(d.end(), 35);
}

#[test]
fn map_highlight_overlap_clamp() {
    let mut set = DecorationSet::new();
    // Highlight [5, 15) overlaps change [10, 20) -> [10, 12).
    set.add(Decoration::highlight(5, 15, 1).unwrap());
    set.map_through_change(10, 20, 12);

    let d = set.iter().next().unwrap().1;
    assert_eq!(d.start(), 5);
    // End is inside the changed range, so clamp it to new_end=12.
    assert_eq!(d.end(), 12);
}

#[test]
fn map_marker_deleted_in_change() {
    let mut set = DecorationSet::new();
    set.add(Decoration::marker(12, 1));
    // Change [10, 20).
    set.map_through_change(10, 20, 15);
    assert!(set.is_empty());
}

#[test]
fn map_widget_fully_contained_deleted() {
    let mut set = DecorationSet::new();
    set.add(Decoration::widget(12, 18, 1, true).unwrap());
    // Change [10, 20).
    set.map_through_change(10, 20, 15);
    assert!(set.is_empty());
}

#[test]
fn map_widget_partial_overlap_clamped() {
    let mut set = DecorationSet::new();
    // Widget [5, 15) partially overlaps change [10, 20) -> [10, 12).
    set.add(Decoration::widget(5, 15, 1, false).unwrap());
    set.map_through_change(10, 20, 12);

    let d = set.iter().next().unwrap().1;
    assert_eq!(d.start(), 5);
    assert_eq!(d.end(), 12);
}

#[test]
fn map_through_changes_sequential() {
    let mut set = DecorationSet::new();
    set.add(Decoration::highlight(20, 30, 1).unwrap());

    let changes = [
        RangeChange::new(0, 5, 10),   // delta +5 -> [25, 35)
        RangeChange::new(0, 3, 3),    // delta 0 -> [25, 35)
        RangeChange::new(40, 40, 42), // delta +2, after decoration, no change
    ];
    set.map_through_changes(&changes);

    let d = set.iter().next().unwrap().1;
    assert_eq!(d.start(), 25);
    assert_eq!(d.end(), 35);
}

#[test]
fn decor_error_display() {
    let e = DecorError::InvalidRange { start: 10, end: 5 };
    assert_eq!(e.message(), "invalid range: start 10 > end 5");

    let e = DecorError::EmptyHighlight { offset: 7 };
    assert_eq!(e.message(), "empty highlight at offset 7");
}

#[test]
fn set_clear() {
    let mut set = DecorationSet::new();
    set.add(Decoration::marker(0, 1));
    set.add(Decoration::marker(10, 2));
    assert_eq!(set.len(), 2);
    set.clear();
    assert!(set.is_empty());
}
