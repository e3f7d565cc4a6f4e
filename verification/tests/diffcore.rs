use neco_editor::diffcore::{
    diff, diff_intra_line, diff_to_patches, to_side_by_side, ByteRange, DiffOp, IntraLineRange,
    SideBySideLine, SideLine,
};
use neco_editor::textpatch::apply_patches;

#[test]
fn diff_empty_texts() {
    let result = diff("", "");
    assert!(result.lines().is_empty());
}

#[test]
fn diff_identical_texts() {
    let text = "hello\nworld\n";
    let result = diff(text, text);
    assert!(result.lines().iter().all(|l| l.op() == DiffOp::Equal));
    assert_eq!(result.lines().len(), 2);
}

#[test]
fn diff_all_deleted() {
    let result = diff("a\nb\n", "");
    assert!(result.lines().iter().all(|l| l.op() == DiffOp::Delete));
    assert_eq!(result.lines().len(), 2);
}

#[test]
fn diff_all_inserted() {
    let result = diff("", "x\ny\n");
    assert!(result.lines().iter().all(|l| l.op() == DiffOp::Insert));
    assert_eq!(result.lines().len(), 2);
}

#[test]
fn diff_mixed_changes() {
    let old = "a\nb\nc\nd\n";
    let new = "a\nB\nc\nD\n";
    let result = diff(old, new);
    let ops: Vec<DiffOp> = result.lines().iter().map(|l| l.op()).collect();
    assert_eq!(
        ops,
        vec![
            DiffOp::Equal,
            DiffOp::Delete,
            DiffOp::Insert,
            DiffOp::Equal,
            DiffOp::Delete,
            DiffOp::Insert,
        ]
    );
}

#[test]
fn diff_multibyte() {
    let old = "こんにちは\n世界\n";
    let new = "こんにちは\n宇宙\n";
    let result = diff(old, new);
    assert_eq!(result.lines().len(), 3);
    assert_eq!(result.lines()[0].op(), DiffOp::Equal);
    assert_eq!(result.lines()[1].op(), DiffOp::Delete);
    assert_eq!(result.lines()[2].op(), DiffOp::Insert);
}

#[test]
fn to_hunks_splits_by_context() {
    let old = "1\n2\n3\n4\n5\n6\n7\n8\n9\n10\n";
    let new = "1\n2\n3\n4\nFIVE\n6\n7\n8\n9\nTEN\n";
    let result = diff(old, new);
    let hunks = result.to_hunks(1);
    assert_eq!(hunks.len(), 2);
    assert!(hunks[0].lines().iter().any(|l| l.op() != DiffOp::Equal));
    assert!(hunks[1].lines().iter().any(|l| l.op() != DiffOp::Equal));
}

#[test]
fn to_hunks_merges_close_changes() {
    let old = "1\n2\n3\n4\n5\n";
    let new = "ONE\n2\n3\n4\nFIVE\n";
    let result = diff(old, new);
    let hunks = result.to_hunks(3);
    assert_eq!(hunks.len(), 1);
}

#[test]
fn diff_intra_line_detects_changes() {
    let result = diff_intra_line("hello world", "hello there");
    assert!(!result.ranges().is_empty());
    let has_delete = result.ranges().iter().any(|r| r.op() == DiffOp::Delete);
    let has_insert = result.ranges().iter().any(|r| r.op() == DiffOp::Insert);
    assert!(has_delete);
    assert!(has_insert);
}

#[test]
fn diff_intra_line_multibyte() {
    let result = diff_intra_line("あいう", "あえう");
    assert!(!result.ranges().is_empty());
    let has_delete = result.ranges().iter().any(|r| r.op() == DiffOp::Delete);
    let has_insert = result.ranges().iter().any(|r| r.op() == DiffOp::Insert);
    assert!(has_delete);
    assert!(has_insert);
}

#[test]
fn side_by_side_layout() {
    let old = "a\nb\nc\n";
    let new = "a\nB\nc\n";
    let result = diff(old, new);
    let sbs = to_side_by_side(&result);

    assert!(sbs[0].left().is_some() && sbs[0].right().is_some());
    assert_eq!(sbs[0].left().unwrap().op(), DiffOp::Equal);

    let delete_line = sbs
        .iter()
        .find(|l| l.left().is_some_and(|s| s.op() == DiffOp::Delete));
    assert!(delete_line.is_some());

    let insert_line = sbs
        .iter()
        .find(|l| l.right().is_some_and(|s| s.op() == DiffOp::Insert));
    assert!(insert_line.is_some());
}

#[test]
fn side_by_side_insert_only() {
    let old = "a\n";
    let new = "a\nb\n";
    let result = diff(old, new);
    let sbs = to_side_by_side(&result);
    let insert_only = sbs
        .iter()
        .find(|l| l.left().is_none() && l.right().is_some());
    assert!(insert_only.is_some());
}

#[test]
fn side_by_side_delete_only() {
    let old = "a\nb\n";
    let new = "a\n";
    let result = diff(old, new);
    let sbs = to_side_by_side(&result);
    let delete_only = sbs
        .iter()
        .find(|l| l.left().is_some() && l.right().is_none());
    assert!(delete_only.is_some());
}

fn roundtrip(old: &str, new: &str) {
    let result = diff(old, new);
    let patches = diff_to_patches(new, &result).expect("patches should be created");
    let applied = apply_patches(old, &patches).expect("patches should apply");
    assert_eq!(applied, new, "roundtrip failed for old={old:?} new={new:?}");
}

#[test]
fn roundtrip_empty_to_empty() {
    roundtrip("", "");
}

#[test]
fn roundtrip_identical() {
    roundtrip("hello\nworld\n", "hello\nworld\n");
}

#[test]
fn roundtrip_all_deleted() {
    roundtrip("a\nb\nc\n", "");
}

#[test]
fn roundtrip_all_inserted() {
    roundtrip("", "x\ny\nz\n");
}

#[test]
fn roundtrip_mixed_changes() {
    roundtrip("a\nb\nc\nd\n", "a\nB\nc\nD\n");
}

#[test]
fn roundtrip_insert_at_beginning() {
    roundtrip("b\nc\n", "a\nb\nc\n");
}

#[test]
fn roundtrip_insert_at_end() {
    roundtrip("a\nb\n", "a\nb\nc\n");
}

#[test]
fn roundtrip_delete_at_beginning() {
    roundtrip("a\nb\nc\n", "b\nc\n");
}

#[test]
fn roundtrip_delete_at_end() {
    roundtrip("a\nb\nc\n", "a\nb\n");
}

#[test]
fn roundtrip_multibyte() {
    roundtrip("こんにちは\n世界\n", "こんにちは\n宇宙\n");
}

#[test]
fn roundtrip_complex() {
    let old = "line1\nline2\nline3\nline4\nline5\n";
    let new = "line1\nmodified2\nline3\nnew_line\nline5\nextra\n";
    roundtrip(old, new);
}

#[test]
fn roundtrip_no_trailing_newline() {
    roundtrip("hello\nworld", "hello\nthere");
}

#[test]
fn roundtrip_consecutive_deletes_and_inserts() {
    roundtrip("a\nb\nc\n", "x\ny\nz\n");
}

#[test]
fn diff_lines_carry_numbers_and_ranges() {
    let result = diff("a\nb\n", "a\nc\n");
    let lines = result.lines();
    assert_eq!(lines.len(), 3);
    assert_eq!(lines[0].old_line(), Some(0));
    assert_eq!(lines[0].new_line(), Some(0));
    assert_eq!(lines[0].old_range(), Some(ByteRange::new(0, 2)));
    assert_eq!(lines[1].op(), DiffOp::Delete);
    assert_eq!(lines[1].old_line(), Some(1));
    assert_eq!(lines[1].new_line(), None);
    assert_eq!(lines[1].old_range(), Some(ByteRange::new(2, 4)));
    assert_eq!(lines[2].op(), DiffOp::Insert);
    assert_eq!(lines[2].new_line(), Some(1));
    assert_eq!(lines[2].new_range(), Some(ByteRange::new(2, 4)));
    assert_eq!(lines[2].old_range(), None);
}

#[test]
fn byte_range_accessors() {
    let r = ByteRange::new(3, 7);
    assert_eq!(r.start(), 3);
    assert_eq!(r.end(), 7);
    assert_eq!(r.len(), 4);
    assert!(!r.is_empty());
    assert!(ByteRange::new(5, 5).is_empty());
}

#[test]
fn hunk_coordinates_count_lines() {
    let old = "1\n2\n3\n4\n5\n6\n7\n8\n9\n10\n";
    let new = "1\n2\n3\n4\nFIVE\n6\n7\n8\n9\nTEN\n";
    let hunks = diff(old, new).to_hunks(1);
    assert_eq!(hunks[0].old_start(), 3);
    assert_eq!(hunks[0].old_count(), 3);
    assert_eq!(hunks[0].new_start(), 3);
    assert_eq!(hunks[0].new_count(), 3);
    assert_eq!(hunks[0].lines().len(), 4);
    assert_eq!(hunks[1].old_start(), 8);
    assert_eq!(hunks[1].old_count(), 2);
    assert_eq!(hunks[1].new_count(), 2);
}

#[test]
fn identical_texts_have_no_hunks() {
    let text = "x\ny\n";
    assert!(diff(text, text).to_hunks(2).is_empty());
    assert!(diff("", "").to_hunks(0).is_empty());
}

#[test]
fn intra_line_ranges_are_exact() {
    let result = diff_intra_line("abc", "axc");
    let ranges: Vec<(usize, usize, DiffOp)> =
        result.ranges().iter().map(|r| (r.start(), r.end(), r.op())).collect();
    assert_eq!(ranges, vec![(1, 2, DiffOp::Delete), (1, 2, DiffOp::Insert)]);
    let multibyte = diff_intra_line("あいう", "あえう");
    let ranges: Vec<(usize, usize, DiffOp)> =
        multibyte.ranges().iter().map(|r| (r.start(), r.end(), r.op())).collect();
    assert_eq!(ranges, vec![(3, 6, DiffOp::Delete), (3, 6, DiffOp::Insert)]);
    assert_eq!(IntraLineRange::new(1, 2, DiffOp::Insert).op(), DiffOp::Insert);
}

#[test]
fn side_by_side_pairs_replacements() {
    let result = diff("a\nb\nc\n", "x\nc\n");
    let rows = to_side_by_side(&result);
    assert_eq!(rows.len(), 3);
    assert_eq!(rows[0].left().unwrap().op(), DiffOp::Delete);
    assert_eq!(rows[0].right().unwrap().op(), DiffOp::Insert);
    assert_eq!(rows[0].right().unwrap().line(), 0);
    assert_eq!(rows[1].left().unwrap().line(), 1);
    assert!(rows[1].right().is_none());
    assert_eq!(rows[2].left().unwrap().range(), ByteRange::new(4, 6));
    let row = SideBySideLine::new(Some(SideLine::new(2, DiffOp::Equal, ByteRange::new(0, 1))), None);
    assert_eq!(row.left().unwrap().line(), 2);
}

#[test]
fn diff_never_puts_insert_before_delete() {
    let words = ["a\n", "b\n", "c\n"];
    let mut texts = vec![String::new()];
    for w1 in words {
        texts.push(w1.to_string());
        for w2 in words {
            texts.push(format!("{w1}{w2}"));
            for w3 in words {
                texts.push(format!("{w1}{w2}{w3}"));
            }
        }
    }
    for old in &texts {
        for new in &texts {
            let result = diff(old, new);
            for pair in result.lines().windows(2) {
                assert!(!(pair[0].op() == DiffOp::Insert && pair[1].op() == DiffOp::Delete));
            }
            roundtrip(old, new);
        }
    }
}

#[test]
fn patches_for_replacement_group() {
    let result = diff("a\nb\nc\n", "a\nX\nc\n");
    let patches = diff_to_patches("a\nX\nc\n", &result).unwrap();
    assert_eq!(patches.len(), 1);
    assert_eq!(patches[0].start(), 2);
    assert_eq!(patches[0].end(), 4);
    assert_eq!(patches[0].replacement(), "X\n");
}
