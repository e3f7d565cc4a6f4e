use neco_editor::pathrel::{
    join_path, parent_path, path_matches_or_contains, remap_path_for_rename, PathCaseSensitivity,
    PathPolicy,
};

fn posix() -> PathPolicy {
    PathPolicy::posix()
}

fn insensitive() -> PathPolicy {
    PathPolicy::new('/', PathCaseSensitivity::Insensitive)
}

#[test]
fn exact_match_is_true() {
    assert!(path_matches_or_contains(
        "/workspace/src",
        "/workspace/src",
        &posix(),
    ));
}

#[test]
fn descendant_match_is_true() {
    assert!(path_matches_or_contains(
        "/workspace/src/lib.rs",
        "/workspace/src",
        &posix(),
    ));
}

#[test]
fn prefix_collision_is_not_treated_as_descendant() {
    assert!(!path_matches_or_contains(
        "/workspace/barista",
        "/workspace/bar",
        &posix(),
    ));
}

#[test]
fn trailing_separator_difference_is_ignored_for_comparison() {
    assert!(path_matches_or_contains(
        "/workspace/src/lib.rs",
        "/workspace/src/",
        &posix(),
    ));
}

#[test]
fn case_sensitivity_is_policy_driven() {
    assert!(!path_matches_or_contains(
        "/Workspace/Src",
        "/workspace/src",
        &posix()
    ));
    assert!(path_matches_or_contains(
        "/Workspace/Src",
        "/workspace/src",
        &insensitive(),
    ));
}

#[test]
fn parent_path_returns_none_for_root_and_single_segment() {
    assert_eq!(parent_path("/", &posix()), None);
    assert_eq!(parent_path("workspace", &posix()), None);
}

#[test]
fn parent_path_returns_parent_slice_without_allocating() {
    assert_eq!(
        parent_path("/workspace/src/lib.rs", &posix()),
        Some("/workspace/src")
    );
    assert_eq!(parent_path("/workspace/src/", &posix()), Some("/workspace"));
}

#[test]
fn join_path_inserts_one_separator() {
    assert_eq!(
        join_path("/workspace/src/", "lib.rs", &posix()),
        "/workspace/src/lib.rs"
    );
    assert_eq!(
        join_path("/workspace/src", "/lib.rs", &posix()),
        "/workspace/src/lib.rs"
    );
}

#[test]
fn join_path_handles_root_and_empty_segments() {
    assert_eq!(join_path("/", "lib.rs", &posix()), "/lib.rs");
    assert_eq!(join_path("/workspace/src/", "", &posix()), "/workspace/src");
    assert_eq!(join_path("", "/lib.rs", &posix()), "lib.rs");
}

#[test]
fn rename_remap_matches_file_exactly() {
    assert_eq!(
        remap_path_for_rename(
            "/workspace/old.txt",
            "/workspace/old.txt",
            "/workspace/new.txt",
            &posix()
        ),
        Some("/workspace/new.txt".to_string())
    );
}

#[test]
fn rename_remap_updates_subtree_descendants() {
    assert_eq!(
        remap_path_for_rename(
            "/workspace/dir/nested/file.txt",
            "/workspace/dir",
            "/workspace/renamed",
            &posix(),
        ),
        Some("/workspace/renamed/nested/file.txt".to_string())
    );
}

#[test]
fn rename_remap_rejects_prefix_collision() {
    assert_eq!(
        remap_path_for_rename(
            "/workspace/barista/file.txt",
            "/workspace/bar",
            "/workspace/renamed",
            &posix(),
        ),
        None
    );
}

#[test]
fn rename_remap_ignores_trailing_separator_mismatch() {
    assert_eq!(
        remap_path_for_rename(
            "/workspace/dir/file.txt",
            "/workspace/dir/",
            "/workspace/renamed/",
            &posix(),
        ),
        Some("/workspace/renamed/file.txt".to_string())
    );
}

#[test]
fn root_target_contains_every_absolute_path() {
    let policy = PathPolicy::posix();
    assert!(path_matches_or_contains("/workspace", "/", &policy));
    assert!(path_matches_or_contains("/workspace/src/lib.rs", "/", &policy));
    assert!(path_matches_or_contains("/", "/", &policy));
    assert!(!path_matches_or_contains("workspace", "/", &policy));
}

#[test]
fn renaming_the_root_moves_every_absolute_path() {
    let policy = PathPolicy::posix();
    assert_eq!(
        remap_path_for_rename("/workspace/a.rs", "/", "/mnt", &policy).as_deref(),
        Some("/mnt/workspace/a.rs")
    );
    assert_eq!(remap_path_for_rename("/", "/", "/mnt", &policy).as_deref(), Some("/mnt"));
    assert_eq!(remap_path_for_rename("relative", "/", "/mnt", &policy), None);
}
