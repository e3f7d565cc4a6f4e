use neco_editor::watchnorm::{
    FlushResult, NormalizedWatchEvent, NormalizedWatchKind, RawWatchEvent, RawWatchKind,
    RenameHint, WatchBatchNormalizer,
};

#[test]
fn rename_both_normalizes_into_single_rename() {
    let mut normalizer = WatchBatchNormalizer::new();
    normalizer.push(raw_rename(
        4,
        vec!["/old.txt", "/new.txt"],
        None,
        None,
        Some(RenameHint::Both),
    ));

    let result = normalizer.drain(4);

    assert_eq!(
        result.events,
        vec![normalized(
            4,
            NormalizedWatchKind::Rename {
                from: "/old.txt".into(),
                to: "/new.txt".into(),
            },
        )]
    );
    assert_eq!(result.discarded_stale, 0);
}

#[test]
fn rename_from_and_to_are_joined_within_one_drain() {
    let mut normalizer = WatchBatchNormalizer::new();
    normalizer.push(raw_rename(
        7,
        vec!["/from.txt"],
        Some("/from.txt"),
        None,
        Some(RenameHint::From),
    ));
    normalizer.push(raw_rename(
        7,
        vec!["/to.txt"],
        None,
        Some("/to.txt"),
        Some(RenameHint::To),
    ));

    let result = normalizer.drain(7);

    assert_eq!(
        result.events,
        vec![normalized(
            7,
            NormalizedWatchKind::Rename {
                from: "/from.txt".into(),
                to: "/to.txt".into(),
            },
        )]
    );
}

#[test]
fn unresolved_rename_from_becomes_partial_rename() {
    let mut normalizer = WatchBatchNormalizer::new();
    normalizer.push(raw_rename(
        2,
        vec!["/ghost.txt"],
        Some("/ghost.txt"),
        None,
        Some(RenameHint::From),
    ));

    let result = normalizer.drain(2);

    assert_eq!(
        result.events,
        vec![normalized(
            2,
            NormalizedWatchKind::PartialRename {
                from: Some("/ghost.txt".into()),
                to: None,
            },
        )]
    );
}

#[test]
fn rename_to_without_pending_becomes_partial_rename() {
    let mut normalizer = WatchBatchNormalizer::new();
    normalizer.push(raw_rename(
        3,
        vec!["/arrived.txt"],
        None,
        Some("/arrived.txt"),
        Some(RenameHint::To),
    ));

    let result = normalizer.drain(3);

    assert_eq!(
        result.events,
        vec![normalized(
            3,
            NormalizedWatchKind::PartialRename {
                from: None,
                to: Some("/arrived.txt".into()),
            },
        )]
    );
}

#[test]
fn stale_generations_are_discarded() {
    let mut normalizer = WatchBatchNormalizer::new();
    normalizer.push(RawWatchEvent {
        kind: RawWatchKind::Modify,
        paths: vec!["/stale.txt".into()],
        rename_from: None,
        rename_to: None,
        rename_hint: None,
        generation: 4,
    });
    normalizer.push(RawWatchEvent {
        kind: RawWatchKind::Modify,
        paths: vec!["/fresh.txt".into()],
        rename_from: None,
        rename_to: None,
        rename_hint: None,
        generation: 5,
    });

    let result = normalizer.drain(5);

    assert_eq!(
        result,
        FlushResult {
            events: vec![normalized(
                5,
                NormalizedWatchKind::Modify {
                    path: "/fresh.txt".into(),
                },
            )],
            discarded_stale: 1,
        }
    );
}

#[test]
fn consecutive_modify_events_coalesce_per_path() {
    let mut normalizer = WatchBatchNormalizer::new();
    normalizer.push(raw_modify(8, "/same.txt"));
    normalizer.push(raw_modify(8, "/same.txt"));
    normalizer.push(raw_modify(8, "/other.txt"));

    let result = normalizer.drain(8);

    assert_eq!(
        result.events,
        vec![
            normalized(
                8,
                NormalizedWatchKind::Modify {
                    path: "/same.txt".into(),
                },
            ),
            normalized(
                8,
                NormalizedWatchKind::Modify {
                    path: "/other.txt".into(),
                },
            ),
        ]
    );
}

#[test]
fn create_absorbs_immediate_modify_for_same_path() {
    let mut normalizer = WatchBatchNormalizer::new();
    normalizer.push(RawWatchEvent {
        kind: RawWatchKind::Create,
        paths: vec!["/fresh.txt".into()],
        rename_from: None,
        rename_to: None,
        rename_hint: None,
        generation: 9,
    });
    normalizer.push(raw_modify(9, "/fresh.txt"));

    let result = normalizer.drain(9);

    assert_eq!(
        result.events,
        vec![normalized(
            9,
            NormalizedWatchKind::Create {
                path: "/fresh.txt".into(),
            },
        )]
    );
}

#[test]
fn remove_drops_pending_modify_for_same_path() {
    let mut normalizer = WatchBatchNormalizer::new();
    normalizer.push(raw_modify(10, "/deleted.txt"));
    normalizer.push(RawWatchEvent {
        kind: RawWatchKind::Remove,
        paths: vec!["/deleted.txt".into()],
        rename_from: None,
        rename_to: None,
        rename_hint: None,
        generation: 10,
    });

    let result = normalizer.drain(10);

    assert_eq!(
        result.events,
        vec![normalized(
            10,
            NormalizedWatchKind::Remove {
                path: "/deleted.txt".into(),
            },
        )]
    );
}

#[test]
fn pending_rename_from_does_not_cross_drain_boundaries() {
    let mut normalizer = WatchBatchNormalizer::new();
    normalizer.push(raw_rename(
        11,
        vec!["/from.txt"],
        Some("/from.txt"),
        None,
        Some(RenameHint::From),
    ));

    let first = normalizer.drain(11);
    assert_eq!(
        first.events,
        vec![normalized(
            11,
            NormalizedWatchKind::PartialRename {
                from: Some("/from.txt".into()),
                to: None,
            },
        )]
    );

    normalizer.push(raw_rename(
        11,
        vec!["/to.txt"],
        None,
        Some("/to.txt"),
        Some(RenameHint::To),
    ));

    let second = normalizer.drain(11);
    assert_eq!(
        second.events,
        vec![normalized(
            11,
            NormalizedWatchKind::PartialRename {
                from: None,
                to: Some("/to.txt".into()),
            },
        )]
    );
}

#[test]
fn pending_rename_from_does_not_join_to_different_generation_within_one_drain() {
    let mut normalizer = WatchBatchNormalizer::new();
    normalizer.push(raw_rename(
        20,
        vec!["/from.txt"],
        Some("/from.txt"),
        None,
        Some(RenameHint::From),
    ));
    normalizer.push(raw_rename(
        21,
        vec!["/to.txt"],
        None,
        Some("/to.txt"),
        Some(RenameHint::To),
    ));

    let result = normalizer.drain(20);

    assert_eq!(
        result.events,
        vec![
            normalized(
                20,
                NormalizedWatchKind::PartialRename {
                    from: Some("/from.txt".into()),
                    to: None,
                },
            ),
            normalized(
                21,
                NormalizedWatchKind::PartialRename {
                    from: None,
                    to: Some("/to.txt".into()),
                },
            ),
        ]
    );
}

#[test]
fn completed_rename_does_not_drop_older_pending_rename_from() {
    let mut normalizer = WatchBatchNormalizer::new();
    normalizer.push(raw_rename(
        12,
        vec!["/stale-from.txt"],
        Some("/stale-from.txt"),
        None,
        Some(RenameHint::From),
    ));
    normalizer.push(raw_rename(
        12,
        vec!["/from.txt", "/to.txt"],
        Some("/from.txt"),
        Some("/to.txt"),
        Some(RenameHint::Both),
    ));

    let result = normalizer.drain(12);

    assert_eq!(
        result.events,
        vec![
            normalized(
                12,
                NormalizedWatchKind::PartialRename {
                    from: Some("/stale-from.txt".into()),
                    to: None,
                },
            ),
            normalized(
                12,
                NormalizedWatchKind::Rename {
                    from: "/from.txt".into(),
                    to: "/to.txt".into(),
                },
            ),
        ]
    );
}

fn raw_rename(
    generation: u64,
    paths: Vec<&str>,
    rename_from: Option<&str>,
    rename_to: Option<&str>,
    rename_hint: Option<RenameHint>,
) -> RawWatchEvent {
    RawWatchEvent {
        kind: RawWatchKind::Rename,
        paths: paths.into_iter().map(str::to_owned).collect(),
        rename_from: rename_from.map(str::to_owned),
        rename_to: rename_to.map(str::to_owned),
        rename_hint,
        generation,
    }
}

fn raw_modify(generation: u64, path: &str) -> RawWatchEvent {
    RawWatchEvent {
        kind: RawWatchKind::Modify,
        paths: vec![path.into()],
        rename_from: None,
        rename_to: None,
        rename_hint: None,
        generation,
    }
}

fn normalized(generation: u64, kind: NormalizedWatchKind) -> NormalizedWatchEvent {
    NormalizedWatchEvent { generation, kind }
}

fn raw_plain(kind: RawWatchKind, generation: u64, paths: Vec<&str>) -> RawWatchEvent {
    RawWatchEvent {
        kind,
        paths: paths.into_iter().map(String::from).collect(),
        rename_from: None,
        rename_to: None,
        rename_hint: None,
        generation,
    }
}

#[test]
fn default_normalizer_drains_nothing() {
    let mut normalizer = WatchBatchNormalizer::default();
    let result = normalizer.drain(0);
    assert_eq!(
        result,
        FlushResult {
            events: vec![],
            discarded_stale: 0
        }
    );
}

#[test]
fn drain_empties_the_queue() {
    let mut normalizer = WatchBatchNormalizer::new();
    normalizer.push(raw_plain(RawWatchKind::Create, 1, vec!["/a", "/b"]));
    normalizer.push(raw_plain(RawWatchKind::Create, 0, vec!["/c"]));
    let first = normalizer.drain(1);
    assert_eq!(first.events.len(), 2);
    assert_eq!(first.discarded_stale, 1);
    let second = normalizer.drain(0);
    assert!(second.events.is_empty());
    assert_eq!(second.discarded_stale, 0);
}

#[test]
fn remove_discards_modifies_behind_other_events() {
    let mut normalizer = WatchBatchNormalizer::new();
    normalizer.push(raw_modify(3, "/a"));
    normalizer.push(raw_plain(RawWatchKind::Create, 3, vec!["/b"]));
    normalizer.push(raw_modify(3, "/a"));
    normalizer.push(raw_plain(RawWatchKind::Remove, 3, vec!["/a"]));
    let result = normalizer.drain(3);
    assert_eq!(
        result.events,
        vec![
            normalized(3, NormalizedWatchKind::Create { path: "/b".into() }),
            normalized(3, NormalizedWatchKind::Remove { path: "/a".into() }),
        ]
    );
}

#[test]
fn modifies_of_one_path_can_meet_after_a_remove_of_another() {
    let mut normalizer = WatchBatchNormalizer::new();
    normalizer.push(raw_modify(1, "/p"));
    normalizer.push(raw_modify(1, "/q"));
    normalizer.push(raw_modify(1, "/p"));
    normalizer.push(raw_plain(RawWatchKind::Remove, 1, vec!["/q"]));
    let result = normalizer.drain(1);
    assert_eq!(
        result.events,
        vec![
            normalized(1, NormalizedWatchKind::Modify { path: "/p".into() }),
            normalized(1, NormalizedWatchKind::Modify { path: "/p".into() }),
            normalized(1, NormalizedWatchKind::Remove { path: "/q".into() }),
        ]
    );
}

#[test]
fn rename_hint_from_without_paths_yields_nothing() {
    let mut normalizer = WatchBatchNormalizer::new();
    let mut event = raw_plain(RawWatchKind::Rename, 2, vec![]);
    event.rename_hint = Some(RenameHint::From);
    normalizer.push(event);
    let result = normalizer.drain(2);
    assert!(result.events.is_empty());
    assert_eq!(result.discarded_stale, 0);
}

#[test]
fn rename_with_single_path_and_no_hint_is_dropped() {
    let mut normalizer = WatchBatchNormalizer::new();
    normalizer.push(raw_plain(RawWatchKind::Rename, 2, vec!["/only"]));
    let result = normalizer.drain(2);
    assert!(result.events.is_empty());
}

#[test]
fn drained_events_carry_generations_of_current_events() {
    let mut normalizer = WatchBatchNormalizer::new();
    for (generation, path) in [(3u64, "/a"), (7, "/b"), (9, "/c"), (2, "/d")] {
        normalizer.push(RawWatchEvent {
            kind: RawWatchKind::Create,
            paths: vec![path.into()],
            rename_from: None,
            rename_to: None,
            rename_hint: None,
            generation,
        });
    }
    let result = normalizer.drain(5);
    assert_eq!(result.discarded_stale, 2);
    let generations: Vec<u64> = result.events.iter().map(|e| e.generation).collect();
    assert_eq!(generations, vec![7, 9]);
    assert_eq!(normalizer.drain(0), FlushResult { events: vec![], discarded_stale: 0 });
}
