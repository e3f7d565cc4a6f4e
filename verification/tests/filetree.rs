use std::collections::BTreeSet;

use neco_editor::filetree::{
    find_node_by_path, flatten_file_tree, merge_subtree, reveal_plan_for_path,
    DirectoryMaterialization, FileTreeNode, FileTreeNodeKind,
};
use neco_editor::pathrel::{PathCaseSensitivity, PathPolicy};

fn posix() -> PathPolicy {
    PathPolicy::posix()
}

fn insensitive() -> PathPolicy {
    PathPolicy::new('/', PathCaseSensitivity::Insensitive)
}

fn file(name: &str, path: &str) -> FileTreeNode {
    FileTreeNode {
        name: name.to_string(),
        path: path.to_string(),
        kind: FileTreeNodeKind::File,
        children: Vec::new(),
        materialization: DirectoryMaterialization::Complete,
        child_count: None,
    }
}

fn dir(
    name: &str,
    path: &str,
    materialization: DirectoryMaterialization,
    child_count: Option<usize>,
    children: Vec<FileTreeNode>,
) -> FileTreeNode {
    FileTreeNode {
        name: name.to_string(),
        path: path.to_string(),
        kind: FileTreeNodeKind::Directory,
        children,
        materialization,
        child_count,
    }
}

fn sample_tree() -> FileTreeNode {
    dir(
        "workspace",
        "/workspace",
        DirectoryMaterialization::Complete,
        Some(3),
        vec![
            dir(
                "src",
                "/workspace/src",
                DirectoryMaterialization::Complete,
                Some(2),
                vec![
                    file("lib.rs", "/workspace/src/lib.rs"),
                    file("main.rs", "/workspace/src/main.rs"),
                ],
            ),
            dir(
                "docs",
                "/workspace/docs",
                DirectoryMaterialization::Partial,
                Some(5),
                vec![file("guide.md", "/workspace/docs/guide.md")],
            ),
            file("Cargo.toml", "/workspace/Cargo.toml"),
        ],
    )
}

#[test]
fn find_node_by_path_returns_exact_match() {
    let tree = sample_tree();
    let found =
        find_node_by_path(&tree, "/workspace/src/lib.rs", &posix()).expect("node should exist");
    assert_eq!(found.name, "lib.rs");
}

#[test]
fn find_node_by_path_can_use_case_insensitive_policy() {
    let tree = sample_tree();
    let found = find_node_by_path(&tree, "/WORKSPACE/SRC/LIB.RS", &insensitive())
        .expect("node should exist");
    assert_eq!(found.path, "/workspace/src/lib.rs");
}

#[test]
fn merge_subtree_replaces_exact_match_path() {
    let tree = sample_tree();
    let replacement = dir(
        "src",
        "/workspace/src",
        DirectoryMaterialization::Complete,
        Some(1),
        vec![file("mod.rs", "/workspace/src/mod.rs")],
    );
    let merged = merge_subtree(&tree, replacement, &posix());
    let src = find_node_by_path(&merged, "/workspace/src", &posix()).expect("src should exist");
    assert_eq!(src.children.len(), 1);
    assert_eq!(src.children[0].name, "mod.rs");
}

#[test]
fn merge_subtree_keeps_non_target_branches() {
    let tree = sample_tree();
    let replacement = dir(
        "src",
        "/workspace/src",
        DirectoryMaterialization::Complete,
        Some(1),
        vec![file("mod.rs", "/workspace/src/mod.rs")],
    );
    let merged = merge_subtree(&tree, replacement, &posix());
    let docs =
        find_node_by_path(&merged, "/workspace/docs", &posix()).expect("docs should exist");
    assert_eq!(docs.materialization, DirectoryMaterialization::Partial);
}

#[test]
fn merge_subtree_preserves_partial_metadata_from_subtree() {
    let tree = sample_tree();
    let replacement = dir(
        "docs",
        "/workspace/docs",
        DirectoryMaterialization::Partial,
        Some(9),
        vec![file("reference.md", "/workspace/docs/reference.md")],
    );
    let merged = merge_subtree(&tree, replacement, &posix());
    let docs =
        find_node_by_path(&merged, "/workspace/docs", &posix()).expect("docs should exist");
    assert_eq!(docs.child_count, Some(9));
    assert_eq!(docs.children[0].name, "reference.md");
}

#[test]
fn flatten_file_tree_respects_collapsed_paths() {
    let tree = sample_tree();
    let mut collapsed = BTreeSet::new();
    collapsed.insert("/workspace/src".to_string());
    let rows = flatten_file_tree(&tree, &collapsed, true, &posix());
    assert!(rows
        .iter()
        .any(|row| row.path == "/workspace/src" && row.is_collapsed));
    assert!(!rows.iter().any(|row| row.path == "/workspace/src/lib.rs"));
}

#[test]
fn flatten_file_tree_can_skip_root_row() {
    let tree = sample_tree();
    let rows = flatten_file_tree(&tree, &BTreeSet::new(), false, &posix());
    assert_eq!(
        rows.first().map(|row| row.path.as_str()),
        Some("/workspace/src")
    );
    assert!(rows.iter().all(|row| row.path != "/workspace"));
}

#[test]
fn flatten_file_tree_keeps_partial_directory_rows() {
    let tree = sample_tree();
    let rows = flatten_file_tree(&tree, &BTreeSet::new(), true, &posix());
    let docs = rows
        .iter()
        .find(|row| row.path == "/workspace/docs")
        .expect("docs row should exist");
    assert_eq!(docs.materialization, DirectoryMaterialization::Partial);
    assert_eq!(docs.child_count, Some(5));
}

#[test]
fn reveal_plan_returns_ancestor_directories_in_order() {
    let tree = sample_tree();
    let plan = reveal_plan_for_path(&tree, "/workspace/src/lib.rs", &posix());
    assert!(plan.found);
    assert_eq!(
        plan.expand_paths,
        vec!["/workspace".to_string(), "/workspace/src".to_string()]
    );
}

#[test]
fn reveal_plan_is_empty_when_target_is_missing() {
    let tree = sample_tree();
    let plan = reveal_plan_for_path(&tree, "/workspace/missing.txt", &posix());
    assert!(!plan.found);
    assert!(plan.expand_paths.is_empty());
}

#[test]
fn reveal_plan_for_root_has_no_expansion_steps() {
    let tree = sample_tree();
    let plan = reveal_plan_for_path(&tree, "/workspace", &posix());
    assert!(plan.found);
    assert!(plan.expand_paths.is_empty());
}
