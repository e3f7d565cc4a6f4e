use neco_editor::history::{EditHistory, EntryKind, JumpStep};
use neco_editor::textpatch::{apply_patches, inverse_patches, TextPatch};
use neco_editor::history::PruneRule;

fn make_insert(offset: usize, text: &str) -> Vec<TextPatch> {
    vec![TextPatch::insert(offset, text)]
}

fn make_delete(start: usize, end: usize) -> Vec<TextPatch> {
    vec![TextPatch::delete(start, end).unwrap()]
}

fn make_replace(start: usize, end: usize, text: &str) -> Vec<TextPatch> {
    vec![TextPatch::replace(start, end, text).unwrap()]
}

#[test]
fn new_creates_root_with_initial_snapshot() {
    let h = EditHistory::new("hello");
    assert_eq!(h.current_id(), 0);
    assert!(!h.can_undo());
    assert!(!h.can_redo());

    let root = h.tree().root().value();
    assert_eq!(root.kind(), EntryKind::Snapshot);
    assert_eq!(root.snapshot(), Some("hello"));
    assert_eq!(root.checkpoint(), Some("hello"));
}

#[test]
fn push_edit_records_forward_and_inverse() {
    let mut h = EditHistory::new("abc");
    let text = "abc";
    let forward = make_replace(1, 2, "B");
    let id = h.push_edit("replace b", text, forward);

    assert_eq!(h.current_id(), id);
    assert!(h.can_undo());

    let entry = h.cursored_tree().current().value();
    assert_eq!(entry.kind(), EntryKind::Reversible);
    assert_eq!(entry.label(), "replace b");

    let fwd = entry.forward_patches().unwrap();
    assert_eq!(fwd.len(), 1);
    assert_eq!(fwd[0].replacement(), "B");

    let inv = entry.inverse_patches().unwrap();
    assert_eq!(inv.len(), 1);
    assert_eq!(inv[0].replacement(), "b");
}

#[test]
fn push_edit_inverse_roundtrip() {
    let original = "hello world";
    let mut h = EditHistory::new(original);

    let forward = make_replace(6, 11, "rust");
    h.push_edit("change world", original, forward.clone());

    let modified = apply_patches(original, &forward).unwrap();
    assert_eq!(modified, "hello rust");

    let entry = h.cursored_tree().current().value();
    let inv = entry.inverse_patches().unwrap();
    let restored = apply_patches(&modified, inv).unwrap();
    assert_eq!(restored, original);
}

#[test]
fn push_snapshot_stores_full_text() {
    let mut h = EditHistory::new("old");
    let id = h.push_snapshot("reload", "new content".to_string());

    assert_eq!(h.current_id(), id);
    let entry = h.cursored_tree().current().value();
    assert_eq!(entry.kind(), EntryKind::Snapshot);
    assert_eq!(entry.snapshot(), Some("new content"));
}

#[test]
fn undo_returns_inverse_and_moves_to_parent() {
    let mut h = EditHistory::new("abc");
    h.push_edit("insert", "abc", make_insert(3, "d"));

    assert!(h.can_undo());
    let result = h.undo().unwrap().remove(0);
    assert_eq!(result.kind, EntryKind::Reversible);
    assert_eq!(result.label, "insert");
    assert!(result.inverse_patches.is_some());
    assert_eq!(h.current_id(), 0);
    assert!(!h.can_undo());
}

#[test]
fn lib_undo_at_root_returns_none() {
    let mut h = EditHistory::new("text");
    assert!(h.undo().is_none());
}

#[test]
fn redo_returns_forward_and_moves_to_child() {
    let mut h = EditHistory::new("abc");
    h.push_edit("insert", "abc", make_insert(3, "d"));
    h.undo();

    assert!(h.can_redo());
    let result = h.redo().unwrap().remove(0);
    assert_eq!(result.kind, EntryKind::Reversible);
    assert_eq!(result.label, "insert");
    assert!(result.forward_patches.is_some());
    assert!(!h.can_redo());
}

#[test]
fn redo_at_leaf_returns_none() {
    let mut h = EditHistory::new("text");
    h.push_edit("edit", "text", make_insert(4, "!"));
    assert!(h.redo().is_none());
}

#[test]
fn grouped_edits_undo_and_redo_together() {
    let mut h = EditHistory::new("abc");
    h.begin_group("group");
    h.push_edit("first", "abc", make_insert(3, "d"));
    h.push_edit("second", "abcd", make_insert(4, "e"));
    h.end_group();

    let undo = h.undo().unwrap();
    assert_eq!(undo.len(), 2);
    assert_eq!(h.current_id(), 0);

    let redo = h.redo().unwrap();
    assert_eq!(redo.len(), 2);
    assert_eq!(h.current_id(), 2);
}

#[test]
fn undo_then_push_creates_new_branch() {
    let mut h = EditHistory::new("abc");
    let id1 = h.push_edit("first", "abc", make_insert(3, "1"));
    h.undo();
    let id2 = h.push_edit("second", "abc", make_insert(3, "2"));

    assert_ne!(id1, id2);
    assert_eq!(h.tree().root().child_count(), 2);
    assert_eq!(h.current_id(), id2);
}

#[test]
fn jump_to_returns_undo_redo_steps() {
    let mut h = EditHistory::new("abc");
    let a = h.push_edit("a", "abc", make_insert(3, "d"));
    let _a1 = h.push_edit("a1", "abcd", make_insert(4, "e"));

    let steps = h.jump_to(0).unwrap();
    assert_eq!(steps.len(), 2);
    assert!(matches!(steps[0], JumpStep::Undo(_)));
    assert!(matches!(steps[1], JumpStep::Undo(_)));
    assert_eq!(h.current_id(), 0);

    let steps = h.jump_to(a).unwrap();
    assert_eq!(steps.len(), 1);
    assert!(matches!(steps[0], JumpStep::Redo(_)));
    assert_eq!(h.current_id(), a);
}

#[test]
fn jump_to_nonexistent_returns_none() {
    let mut h = EditHistory::new("abc");
    assert!(h.jump_to(999).is_none());
}

#[test]
fn jump_to_current_returns_empty_steps() {
    let mut h = EditHistory::new("abc");
    let a = h.push_edit("a", "abc", make_insert(3, "d"));
    let steps = h.jump_to(a).unwrap();
    assert!(steps.is_empty());
}

#[test]
fn jump_to_through_snapshot_node() {
    let mut h = EditHistory::new("abc");
    h.push_edit("edit", "abc", make_insert(3, "d"));
    let snap_id = h.push_snapshot("reload", "xyz".to_string());
    h.push_edit("after reload", "xyz", make_insert(3, "!"));

    let steps = h.jump_to(0).unwrap();
    assert_eq!(steps.len(), 3);
    assert!(matches!(steps[0], JumpStep::Undo(_)));
    assert!(matches!(steps[1], JumpStep::Undo(_)));
    assert!(matches!(steps[2], JumpStep::Undo(_)));
    assert_eq!(h.current_id(), 0);

    let steps = h.jump_to(snap_id).unwrap();
    assert_eq!(steps.len(), 2);
    assert_eq!(h.current_id(), snap_id);
}

#[test]
fn jump_to_inside_group_is_node_precise() {
    let mut h = EditHistory::new("abc");
    h.begin_group("group");
    let first = h.push_edit("first", "abc", make_insert(3, "d"));
    let second = h.push_edit("second", "abcd", make_insert(4, "e"));
    h.end_group();

    assert_eq!(h.current_id(), second);

    let steps = h.jump_to(first).unwrap();
    assert_eq!(steps.len(), 1);
    assert!(matches!(steps[0], JumpStep::Undo(_)));
    assert_eq!(h.current_id(), first);
}

#[test]
fn checkpoint_is_inserted_at_interval() {
    let mut h = EditHistory::new("x");
    h.set_checkpoint_interval(3);

    let mut text = "x".to_string();
    for i in 0..5 {
        let ch = char::from(b'a' + i);
        let forward = make_insert(text.len(), &ch.to_string());
        h.push_edit(&format!("add {ch}"), &text, forward.clone());
        text = apply_patches(&text, &forward).unwrap();
    }

    let node_3 = h.tree().find(3).unwrap().value();
    assert!(node_3.checkpoint().is_some(), "edit #3 should have a checkpoint");

    let node_1 = h.tree().find(1).unwrap().value();
    assert!(node_1.checkpoint().is_none());
    let node_2 = h.tree().find(2).unwrap().value();
    assert!(node_2.checkpoint().is_none());
}

#[test]
fn can_undo_can_redo_reflect_cursor_position() {
    let mut h = EditHistory::new("abc");
    assert!(!h.can_undo());
    assert!(!h.can_redo());

    h.push_edit("edit", "abc", make_insert(3, "d"));
    assert!(h.can_undo());
    assert!(!h.can_redo());

    h.undo();
    assert!(!h.can_undo());
    assert!(h.can_redo());
}

#[test]
fn prune_removes_old_branches() {
    let mut h = EditHistory::new("abc");
    h.push_edit("a", "abc", make_insert(3, "1"));
    h.undo();
    h.push_edit("b", "abc", make_insert(3, "2"));
    h.undo();
    h.push_edit("c", "abc", make_insert(3, "3"));

    assert_eq!(h.tree().root().child_count(), 3);

    h.prune(PruneRule::KeepLastN(1));
    assert_eq!(h.tree().root().child_count(), 1);
}

#[test]
fn prune_keep_last_keeps_newest_children_renumbered() {
    let mut h = EditHistory::new("abc");
    h.push_edit("a", "abc", make_insert(3, "1"));
    h.undo();
    h.push_edit("b", "abc", make_insert(3, "2"));
    h.undo();
    h.push_edit("c", "abc", make_insert(3, "3"));
    let c = h.current_id();

    h.prune(PruneRule::KeepLastN(2));
    let root = h.tree().root();
    assert_eq!(root.child_count(), 2);
    assert_eq!(root.children()[0].value().label(), "b");
    assert_eq!(root.children()[1].value().label(), "c");
    assert_eq!(root.children()[1].id(), c);
    assert_eq!(h.current_id(), c);
}

#[test]
fn prune_keep_depth_under_cuts_deep_nodes() {
    let mut h = EditHistory::new("");
    h.push_edit("one", "", make_insert(0, "1"));
    h.push_edit("two", "1", make_insert(1, "2"));
    h.push_edit("three", "12", make_insert(2, "3"));

    h.prune(PruneRule::KeepDepthUnder(2));
    let root = h.tree().root();
    assert_eq!(root.child_count(), 1);
    assert_eq!(root.children()[0].value().label(), "one");
    assert_eq!(root.children()[0].child_count(), 0);
    assert_eq!(h.current_label(), "one");
}

#[test]
fn undo_snapshot_entry_provides_parent_snapshot() {
    let mut h = EditHistory::new("original");
    h.push_snapshot("reload", "reloaded".to_string());

    let result = h.undo().unwrap().remove(0);
    assert_eq!(result.kind, EntryKind::Snapshot);
    assert_eq!(result.snapshot.as_deref(), Some("original"));
}

#[test]
fn multiple_edits_undo_redo_roundtrip() {
    let mut h = EditHistory::new("hello");
    let mut text = "hello".to_string();

    let fwd1 = make_insert(5, " world");
    h.push_edit("add world", &text, fwd1.clone());
    text = apply_patches(&text, &fwd1).unwrap();
    assert_eq!(text, "hello world");

    let fwd2 = make_replace(6, 11, "rust");
    h.push_edit("change lang", &text, fwd2.clone());
    text = apply_patches(&text, &fwd2).unwrap();
    assert_eq!(text, "hello rust");

    let u2 = h.undo().unwrap().remove(0);
    text = apply_patches(&text, u2.inverse_patches.as_ref().unwrap()).unwrap();
    assert_eq!(text, "hello world");

    let u1 = h.undo().unwrap().remove(0);
    text = apply_patches(&text, u1.inverse_patches.as_ref().unwrap()).unwrap();
    assert_eq!(text, "hello");

    let r1 = h.redo().unwrap().remove(0);
    text = apply_patches(&text, r1.forward_patches.as_ref().unwrap()).unwrap();
    assert_eq!(text, "hello world");

    let r2 = h.redo().unwrap().remove(0);
    text = apply_patches(&text, r2.forward_patches.as_ref().unwrap()).unwrap();
    assert_eq!(text, "hello rust");
}

#[test]
fn delete_undo_restores_text() {
    let mut h = EditHistory::new("abcdef");
    let fwd = make_delete(2, 4);
    h.push_edit("delete cd", "abcdef", fwd.clone());

    let modified = apply_patches("abcdef", &fwd).unwrap();
    assert_eq!(modified, "abef");

    let u = h.undo().unwrap().remove(0);
    let restored = apply_patches(&modified, u.inverse_patches.as_ref().unwrap()).unwrap();
    assert_eq!(restored, "abcdef");
}

// Own tests.

#[test]
fn inverse_of_touching_patches_is_one_patch() {
    let source = "abcdef";
    let forward = vec![
        TextPatch::delete(2, 4).unwrap(),
        TextPatch::insert(4, "Z"),
        TextPatch::replace(5, 6, "XY").unwrap(),
    ];
    let edited = apply_patches(source, &forward).unwrap();
    assert_eq!(edited, "abZeXY");
    let inverse = inverse_patches(source, &forward);
    assert_eq!(inverse.len(), 2);
    assert_eq!((inverse[0].start(), inverse[0].end(), inverse[0].replacement()), (2, 3, "cd"));
    assert_eq!((inverse[1].start(), inverse[1].end(), inverse[1].replacement()), (4, 6, "f"));
    assert_eq!(apply_patches(&edited, &inverse).unwrap(), source);
}

#[test]
fn inverse_of_out_of_order_patches_restores_text() {
    let source = "héllo wörld";
    let forward = vec![TextPatch::replace(7, 13, "there").unwrap(), TextPatch::insert(0, ">> ")];
    let edited = apply_patches(source, &forward).unwrap();
    assert_eq!(edited, ">> héllo there");
    let inverse = inverse_patches(source, &forward);
    assert_eq!(inverse.len(), 2);
    assert_eq!(apply_patches(&edited, &inverse).unwrap(), source);
}

#[test]
fn grouped_undo_stops_at_other_group() {
    let mut h = EditHistory::new("a");
    h.push_edit("plain", "a", make_insert(1, "b"));
    h.begin_group("g");
    h.push_edit("g1", "ab", make_insert(2, "c"));
    h.push_edit("g2", "abc", make_insert(3, "d"));
    h.end_group();
    let undone = h.undo().unwrap();
    assert_eq!(undone.len(), 2);
    assert_eq!(undone[0].label, "g2");
    assert_eq!(undone[1].label, "g1");
    assert_eq!(h.current_label(), "plain");
    let undone = h.undo().unwrap();
    assert_eq!(undone.len(), 1);
    assert_eq!(h.current_id(), 0);
}

#[test]
fn redo_follows_newest_branch() {
    let mut h = EditHistory::new("abc");
    h.push_edit("old", "abc", make_insert(3, "1"));
    h.undo();
    let newer = h.push_edit("new", "abc", make_insert(3, "2"));
    h.undo();
    let redone = h.redo().unwrap();
    assert_eq!(redone.len(), 1);
    assert_eq!(redone[0].label, "new");
    assert_eq!(h.current_id(), newer);
}

#[test]
fn jump_across_branches_goes_through_common_ancestor() {
    let mut h = EditHistory::new("abc");
    let a = h.push_edit("a", "abc", make_insert(3, "1"));
    h.undo();
    let b = h.push_edit("b", "abc", make_insert(3, "2"));
    let b1 = h.push_edit("b1", "abc2", make_insert(4, "3"));
    let steps = h.jump_to(a).unwrap();
    assert_eq!(steps.len(), 3);
    assert!(matches!(&steps[0], JumpStep::Undo(u) if u.label == "b1"));
    assert!(matches!(&steps[1], JumpStep::Undo(u) if u.label == "b"));
    assert!(matches!(&steps[2], JumpStep::Redo(r) if r.label == "a"));
    assert_eq!(h.current_id(), a);
    assert_ne!(b, b1);
}

#[test]
fn undo_after_checkpoint_uses_latest_snapshot() {
    let mut h = EditHistory::new("a");
    h.set_checkpoint_interval(1);
    h.push_edit("one", "a", make_insert(1, "b"));
    h.push_edit("two", "ab", make_insert(2, "c"));
    assert_eq!(h.current_entry().checkpoint(), Some("abc"));
    let undone = h.undo().unwrap();
    assert_eq!(undone[0].snapshot.as_deref(), Some("ab"));
}
