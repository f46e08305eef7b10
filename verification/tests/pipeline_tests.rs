use rwatcher::filter::PathFilter;
use rwatcher::search_dir::{scan, File, FsNode, Snapshot};
use rwatcher::{
    ChannelOperation, Dispatch, NotifyFilters, PollObservation, PollStep, Poller, OPERATION,
};

fn file_node(path: &str, name: &str, modified: u64) -> FsNode {
    FsNode::FileEntry {
        file: File::new(path, Some(modified), Some(modified), Some(modified)),
        name: name.to_string(),
    }
}

#[test]
fn stop_request_wins_over_everything() {
    let mut poller = Poller::new(Snapshot::new(Vec::new(), Some(1)), NotifyFilters::last_write());
    let step = poller.poll_cycle(true, PollObservation::Unchanged);
    assert!(matches!(step, PollStep::Exit));
}

#[test]
fn unchanged_directory_is_an_idle_interval() {
    let mut poller = Poller::new(Snapshot::new(Vec::new(), Some(1)), NotifyFilters::last_write());
    let step = poller.poll_cycle(false, PollObservation::Unchanged);
    assert!(matches!(step, PollStep::Idle));
}

#[test]
fn vanished_root_aborts_with_one_error() {
    let mut poller = Poller::new(Snapshot::new(Vec::new(), Some(1)), NotifyFilters::last_write());
    let step = poller.poll_cycle(false, PollObservation::RootGone("root vanished".to_string()));
    match step {
        PollStep::Abort(OPERATION::ERROR(cause)) => assert_eq!(cause, "root vanished"),
        other => panic!("expected an abort, got {:?}", other),
    }
}

#[test]
fn unchanged_disk_across_many_polls_emits_nothing() {
    let tree = vec![file_node("a.txt", "a.txt", 1), file_node("b.txt", "b.txt", 2)];
    let filter = PathFilter::parse("*.txt").unwrap();
    let initial = Snapshot::new(scan(&tree, None, &filter), Some(1));
    let mut poller = Poller::new(initial, NotifyFilters::last_write());
    let mut emitted = 0;
    for _ in 0..5 {
        let latest = Snapshot::new(scan(&tree, None, &filter), Some(1));
        match poller.poll_cycle(false, PollObservation::Scanned(latest)) {
            PollStep::Emit(ops) => emitted += ops.len(),
            other => panic!("expected an emit step, got {:?}", other),
        }
    }
    assert_eq!(emitted, 0);
}

#[test]
fn operations_come_in_fixed_order() {
    // one creation, one change, one deletion in a single cycle
    let baseline = vec![
        File::new("changed.txt", Some(1), Some(1), Some(1)),
        File::new("gone.txt", Some(4), Some(4), Some(4)),
    ];
    let latest = vec![
        File::new("changed.txt", Some(2), Some(2), Some(1)),
        File::new("new.txt", Some(9), Some(9), Some(9)),
    ];
    let mut poller = Poller::new(Snapshot::new(baseline, Some(1)), NotifyFilters::last_write());
    let step = poller.poll_cycle(false, PollObservation::Scanned(Snapshot::new(latest, Some(2))));
    match step {
        PollStep::Emit(ops) => {
            assert_eq!(ops.len(), 3);
            assert!(matches!(ops[0], OPERATION::CREATE(_)));
            assert!(matches!(ops[1], OPERATION::CHANGE(_)));
            assert!(matches!(ops[2], OPERATION::DELETE(_)));
        },
        other => panic!("expected an emit step, got {:?}", other),
    }
}

#[test]
fn notifier_maps_messages_to_their_callback_slot() {
    let batch = vec![File::new("a.txt", Some(1), Some(1), Some(1))];
    let d = rwatcher::file_watcher::notifier_step(ChannelOperation::CONTINUE(OPERATION::CREATE(
        batch,
    )));
    match d {
        Dispatch::Created(args) => {
            assert_eq!(args.files().len(), 1);
            assert_eq!(args.files()[0].name(), "a.txt");
        },
        other => panic!("expected a created dispatch, got {:?}", other),
    }
    let stop = rwatcher::file_watcher::notifier_step(ChannelOperation::EXIT);
    assert!(matches!(stop, Dispatch::Stop));
}

#[test]
fn rename_is_delivered_as_exactly_one_batch() {
    // root has a.txt; after one interval it is renamed to b.txt without
    // touching content: one renamed batch, no created or deleted batch
    let filter = PathFilter::parse("*.txt").unwrap();
    let before = vec![file_node("a.txt", "a.txt", 100)];
    let after = vec![file_node("b.txt", "b.txt", 100)];
    let initial = Snapshot::new(scan(&before, None, &filter), Some(1));
    let mut poller = Poller::new(initial, NotifyFilters::last_write());
    let latest = Snapshot::new(scan(&after, None, &filter), Some(2));
    let step = poller.poll_cycle(false, PollObservation::Scanned(latest));
    match step {
        PollStep::Emit(ops) => {
            assert_eq!(ops.len(), 1);
            match &ops[0] {
                OPERATION::RENAME(pairs) => {
                    assert_eq!(pairs.len(), 1);
                    assert_eq!(pairs[0].name(), "b.txt");
                    assert_eq!(pairs[0].old_name(), "a.txt");
                },
                other => panic!("expected a rename batch, got {:?}", other),
            }
        },
        other => panic!("expected an emit step, got {:?}", other),
    }
}

#[test]
fn filtered_out_files_never_reach_a_batch() {
    let filter = PathFilter::parse("*.txt;*.pdf").unwrap();
    let before = vec![file_node("a.png", "a.png", 1), file_node("a.txt", "a.txt", 1)];
    let after = vec![
        file_node("a.png", "a.png", 50),
        file_node("b.png", "b.png", 60),
        file_node("a.txt", "a.txt", 70),
        file_node("b.txt", "b.txt", 80),
    ];
    let initial = Snapshot::new(scan(&before, None, &filter), Some(1));
    let mut poller = Poller::new(initial, NotifyFilters::last_write());
    let latest = Snapshot::new(scan(&after, None, &filter), Some(2));
    let step = poller.poll_cycle(false, PollObservation::Scanned(latest));
    let mut seen: Vec<String> = Vec::new();
    match step {
        PollStep::Emit(ops) => {
            for op in ops.iter() {
                match op {
                    OPERATION::CREATE(v) | OPERATION::CHANGE(v) | OPERATION::DELETE(v) => {
                        for f in v.iter() {
                            seen.push(f.name().to_string());
                        }
                    },
                    OPERATION::RENAME(v) => {
                        for p in v.iter() {
                            seen.push(p.name().to_string());
                            seen.push(p.old_name().to_string());
                        }
                    },
                    OPERATION::ERROR(_) => panic!("no error expected"),
                }
            }
        },
        other => panic!("expected an emit step, got {:?}", other),
    }
    assert!(seen.iter().any(|n| n == "b.txt"));
    assert!(seen.iter().any(|n| n == "a.txt"));
    assert!(!seen.iter().any(|n| n.ends_with(".png")));
}

#[test]
fn baseline_carries_across_cycles() {
    let filter = PathFilter::parse("*.txt").unwrap();
    let mask = NotifyFilters::last_write();
    let t1 = vec![file_node("a.txt", "a.txt", 1)];
    let t2 = vec![file_node("a.txt", "a.txt", 1), file_node("b.txt", "b.txt", 2)];
    let mut poller = Poller::new(Snapshot::new(scan(&t1, None, &filter), Some(1)), mask);
    // first cycle: b.txt appears
    match poller.poll_cycle(
        false,
        PollObservation::Scanned(Snapshot::new(scan(&t2, None, &filter), Some(2))),
    ) {
        PollStep::Emit(ops) => {
            assert_eq!(ops.len(), 1);
            assert!(matches!(ops[0], OPERATION::CREATE(_)));
        },
        other => panic!("expected an emit step, got {:?}", other),
    }
    // second cycle over the same tree: nothing new
    match poller.poll_cycle(
        false,
        PollObservation::Scanned(Snapshot::new(scan(&t2, None, &filter), Some(3))),
    ) {
        PollStep::Emit(ops) => assert!(ops.is_empty()),
        other => panic!("expected an emit step, got {:?}", other),
    }
}

#[test]
fn pre_check_asks_for_a_rescan_only_on_a_new_timestamp() {
    let poller = Poller::new(Snapshot::new(Vec::new(), Some(10)), NotifyFilters::last_write());
    assert!(!poller.should_rescan(Some(10)));
    assert!(poller.should_rescan(Some(11)));
    assert!(poller.should_rescan(None));
}

#[test]
fn pre_check_timestamp_advances_with_each_scan() {
    let mut poller = Poller::new(Snapshot::new(Vec::new(), Some(10)), NotifyFilters::last_write());
    let step =
        poller.poll_cycle(false, PollObservation::Scanned(Snapshot::new(Vec::new(), Some(11))));
    assert!(matches!(step, PollStep::Emit(_)));
    assert!(!poller.should_rescan(Some(11)));
}

#[test]
fn notifier_covers_every_message_kind() {
    let changed = vec![File::new("c.txt", Some(2), Some(2), Some(1))];
    match rwatcher::file_watcher::notifier_step(ChannelOperation::CONTINUE(OPERATION::CHANGE(
        changed,
    ))) {
        Dispatch::Changed(args) => assert_eq!(args.files()[0].name(), "c.txt"),
        other => panic!("expected a changed dispatch, got {:?}", other),
    }
    let deleted = vec![File::new("d.txt", Some(3), Some(3), Some(1))];
    match rwatcher::file_watcher::notifier_step(ChannelOperation::CONTINUE(OPERATION::DELETE(
        deleted,
    ))) {
        Dispatch::Deleted(args) => assert_eq!(args.files()[0].name(), "d.txt"),
        other => panic!("expected a deleted dispatch, got {:?}", other),
    }
    let renamed = vec![rwatcher::search_dir::RenamedFileEntry::new("new.txt", "old.txt")];
    match rwatcher::file_watcher::notifier_step(ChannelOperation::CONTINUE(OPERATION::RENAME(
        renamed,
    ))) {
        Dispatch::Renamed(args) => {
            assert_eq!(args.files()[0].name(), "new.txt");
            assert_eq!(args.files()[0].old_name(), "old.txt");
        }
        other => panic!("expected a renamed dispatch, got {:?}", other),
    }
    match rwatcher::file_watcher::notifier_step(ChannelOperation::CONTINUE(OPERATION::ERROR(
        "cause".to_string(),
    ))) {
        Dispatch::Failed(cause) => assert_eq!(cause, "cause"),
        other => panic!("expected a failed dispatch, got {:?}", other),
    }
}
