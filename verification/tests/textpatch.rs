use neco_editor::textpatch::{
    apply_patch, apply_patches, find_block_range, merge_known_entries, replace_block,
    validate_patches, BlockRange, KnownEntry, PatchConflict, TextPatch, TextPatchError,
};

#[test]
fn apply_patch_replaces_single_range() {
    let patch = TextPatch::replace(6, 11, "there").expect("valid patch");
    let updated = apply_patch("hello world", &patch).expect("patch should apply");
    assert_eq!(updated, "hello there");
}

#[test]
fn text_patch_rejects_reversed_range() {
    let err = TextPatch::replace(4, 2, "x").expect_err("reversed range must fail");
    assert_eq!(err, TextPatchError::InvalidRange { start: 4, end: 2 });
}

#[test]
fn apply_patch_rejects_non_utf8_boundary_offsets() {
    let patch = TextPatch::replace(1, 3, "A").expect("range ordering is valid");
    let err = apply_patch("あい", &patch).expect_err("middle of code point must fail");
    assert_eq!(err, TextPatchError::InvalidUtf8Boundary { offset: 1 });
}

#[test]
fn apply_patches_uses_deterministic_original_offsets() {
    let patches = vec![
        TextPatch::replace(0, 1, "A").expect("valid patch"),
        TextPatch::insert(3, "!"),
    ];
    let updated = apply_patches("abc", &patches).expect("patches should apply");
    assert_eq!(updated, "Abc!");
}

#[test]
fn validate_patches_rejects_overlapping_ranges() {
    let patches = vec![
        TextPatch::replace(1, 3, "XX").expect("valid patch"),
        TextPatch::replace(2, 4, "YY").expect("valid patch"),
    ];
    let err = validate_patches("abcdef", &patches).expect_err("overlap must fail");
    assert_eq!(
        err,
        TextPatchError::Conflict(PatchConflict {
            first_index: 0,
            second_index: 1,
            first_start: 1,
            first_end: 3,
            second_start: 2,
            second_end: 4,
        })
    );
}

#[test]
fn validate_patches_allows_multiple_inserts_at_same_offset() {
    let patches = vec![TextPatch::insert(1, "X"), TextPatch::insert(1, "Y")];
    validate_patches("ab", &patches).expect("same-offset inserts should be allowed");
    let updated = apply_patches("ab", &patches).expect("patches should apply");
    assert_eq!(updated, "aXYb");
}

#[test]
fn validate_patches_allows_insert_at_range_end() {
    let patches = vec![
        TextPatch::replace(1, 3, "BC").expect("valid patch"),
        TextPatch::insert(3, "!"),
    ];
    validate_patches("abcd", &patches).expect("insert at end boundary is allowed");
    let updated = apply_patches("abcd", &patches).expect("patches should apply");
    assert_eq!(updated, "aBC!d");
}

#[test]
fn validate_patches_rejects_insert_at_range_start() {
    let patches = vec![
        TextPatch::replace(1, 3, "BC").expect("valid patch"),
        TextPatch::insert(1, "!"),
    ];
    let err =
        validate_patches("abcd", &patches).expect_err("insert at range start must conflict");
    assert_eq!(
        err,
        TextPatchError::Conflict(PatchConflict {
            first_index: 0,
            second_index: 1,
            first_start: 1,
            first_end: 3,
            second_start: 1,
            second_end: 1,
        })
    );
}

#[test]
fn find_block_range_returns_named_brace_block() {
    let source = "settings {\n  theme \"dark\"\n}\n";
    let range = find_block_range(source, "settings").expect("settings block should exist");
    assert_eq!(
        range,
        BlockRange {
            start: 0,
            content_start: 10,
            end: source.len() - 1,
        }
    );
    assert_eq!(
        &source[range.content_start..range.end - 1],
        "\n  theme \"dark\"\n"
    );
}

#[test]
fn replace_block_returns_patch_for_block_content() {
    let source = "settings {\n  theme \"dark\"\n}\n";
    let patch = replace_block(source, "settings", "\n  theme \"light\"\n")
        .expect("replace should succeed");
    let updated = apply_patch(source, &patch).expect("patch should apply");
    assert_eq!(updated, "settings {\n  theme \"light\"\n}\n");
}

#[test]
fn find_block_range_errors_when_block_is_missing() {
    let err = find_block_range("root {\n}\n", "settings").expect_err("missing block must fail");
    assert_eq!(
        err,
        TextPatchError::BlockNotFound {
            block_name: "settings".to_string(),
        }
    );
}

#[test]
fn find_block_range_errors_when_block_is_unclosed() {
    let err = find_block_range("settings {\n  theme \"dark\"\n", "settings")
        .expect_err("unclosed block must fail");
    assert_eq!(
        err,
        TextPatchError::UnclosedBlock {
            block_name: "settings".to_string(),
        }
    );
}

#[test]
fn merge_known_entries_replaces_existing_and_appends_missing_keys() {
    let source = "settings {\n  theme \"dark\"\n  shell \"/bin/zsh\"\n  extra 1\n}\n";
    let entries = [
        KnownEntry {
            key: "theme",
            replacement: "  theme \"light\"\n",
        },
        KnownEntry {
            key: "font",
            replacement: "  font {\n    size 12\n  }\n",
        },
    ];
    let patch = merge_known_entries(source, "settings", &entries).expect("merge should succeed");
    let updated = apply_patch(source, &patch).expect("patch should apply");
    assert_eq!(
        updated,
        "settings {\n  theme \"light\"\n  shell \"/bin/zsh\"\n  extra 1\n  font {\n    size 12\n  }\n}\n"
    );
}

#[test]
fn merge_known_entries_rejects_ambiguous_known_key() {
    let source = "settings {\n  theme \"dark\"\n  theme \"light\"\n}\n";
    let entries = [KnownEntry {
        key: "theme",
        replacement: "  theme \"paper\"\n",
    }];
    let err = merge_known_entries(source, "settings", &entries)
        .expect_err("duplicate keys must fail");
    assert_eq!(
        err,
        TextPatchError::AmbiguousEntry {
            block_name: "settings".to_string(),
            key: "theme".to_string(),
        }
    );
}

#[test]
fn merge_known_entries_rejects_repeated_known_entries() {
    let source = "settings {\n  a 1\n}\n";
    let entries = [
        KnownEntry { key: "b", replacement: "  b 1\n" },
        KnownEntry { key: "b", replacement: "  b 2\n" },
    ];
    let err = merge_known_entries(source, "settings", &entries).unwrap_err();
    assert_eq!(
        err,
        TextPatchError::AmbiguousEntry {
            block_name: "settings".to_string(),
            key: "b".to_string(),
        }
    );
}

#[test]
fn merge_known_entries_reports_missing_block() {
    let err = merge_known_entries("other {\n}\n", "settings", &[]).unwrap_err();
    assert_eq!(
        err,
        TextPatchError::BlockNotFound {
            block_name: "settings".to_string(),
        }
    );
}

#[test]
fn merge_known_entries_drops_trailing_and_repeated_blank_entries() {
    let source = "s {\n  a 1\n\n\n  b 2\n  \n\n}";
    let entries = [KnownEntry { key: "c", replacement: "  c 3\n" }];
    let patch = merge_known_entries(source, "s", &entries).unwrap();
    let updated = apply_patch(source, &patch).unwrap();
    assert_eq!(updated, "s {\n  a 1\n\n  b 2\n  c 3\n}");
}

#[test]
fn merge_known_entries_frames_content_with_newlines() {
    let source = "s {}";
    let entries = [KnownEntry { key: "a", replacement: "a 1" }];
    let patch = merge_known_entries(source, "s", &entries).unwrap();
    assert_eq!(patch.start(), 3);
    assert_eq!(patch.end(), 3);
    assert_eq!(patch.replacement(), "\na 1\n");
}

#[test]
fn merge_known_entries_with_nothing_to_merge_empties_blank_block() {
    let source = "s {\n  \n}";
    let patch = merge_known_entries(source, "s", &[]).unwrap();
    assert_eq!(patch.replacement(), "");
}

#[test]
fn debug_text_matches_the_derived_debug() {
    let errors = vec![
        TextPatchError::InvalidRange { start: 5, end: 2 },
        TextPatchError::OffsetOutOfBounds { offset: 12, len: 10 },
        TextPatchError::InvalidUtf8Boundary { offset: 1 },
        TextPatchError::Conflict(PatchConflict {
            first_index: 0,
            second_index: 1,
            first_start: 2,
            first_end: 6,
            second_start: 4,
            second_end: 8,
        }),
        TextPatchError::BlockNotFound { block_name: "theme".to_string() },
        TextPatchError::UnclosedBlock { block_name: "a \"quoted\"\tname".to_string() },
        TextPatchError::AmbiguousEntry { block_name: "keys".to_string(), key: "ctrl+s".to_string() },
    ];
    for e in &errors {
        assert_eq!(e.debug_text(), format!("{e:?}"));
    }
    assert_eq!(
        TextPatchError::InvalidRange { start: 5, end: 2 }.debug_text(),
        "InvalidRange { start: 5, end: 2 }"
    );
}

#[test]
fn empty_block_name_takes_a_leading_block() {
    assert_eq!(
        find_block_range("{}", ""),
        Ok(BlockRange { start: 0, content_start: 1, end: 2 })
    );
    assert_eq!(
        find_block_range("  {a {b}} tail", ""),
        Ok(BlockRange { start: 0, content_start: 3, end: 9 })
    );
    assert_eq!(
        find_block_range(" {a", ""),
        Err(TextPatchError::UnclosedBlock { block_name: String::new() })
    );
    let patch = replace_block(" { old }", "", "new").unwrap();
    assert_eq!(apply_patch(" { old }", &patch).unwrap(), " {new}");
}
