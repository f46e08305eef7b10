use rwatcher::detector::{diff, next_baseline};
use rwatcher::search_dir::File;
use rwatcher::NotifyFilters;

fn file(name: &str, modified: u64) -> File {
    File::new(name, Some(modified), Some(modified), Some(modified))
}

fn file_acc(name: &str, modified: u64, accessed: u64) -> File {
    File::new(name, Some(modified), Some(accessed), Some(1))
}

fn names(files: &Vec<File>) -> Vec<String> {
    files.iter().map(|f| f.name().to_string()).collect()
}

#[test]
fn created_changed_deleted_are_classified() {
    let baseline = vec![file("a.txt", 1), file("gone.txt", 4)];
    let latest = vec![file("a.txt", 2), file("b.txt", 5)];
    let out = diff(&baseline, &latest, NotifyFilters::last_write());
    assert_eq!(names(&out.created), vec!["b.txt".to_string()]);
    assert_eq!(names(&out.changed), vec!["a.txt".to_string()]);
    assert_eq!(out.changed[0].last_modified(), Some(2));
    // gone.txt (modified 4) and b.txt (modified 5) share no timestamp: the
    // vanished file stays deleted, not renamed
    assert_eq!(names(&out.deleted), vec!["gone.txt".to_string()]);
    assert!(out.renamed.is_empty());
}

#[test]
fn batches_are_pairwise_disjoint() {
    let baseline = vec![file("a.txt", 1), file("gone.txt", 4), file("same.txt", 9)];
    let latest = vec![file("a.txt", 2), file("b.txt", 5), file("same.txt", 9)];
    let out = diff(&baseline, &latest, NotifyFilters::last_write());
    for c in out.created.iter() {
        assert!(!out.changed.iter().any(|f| f.name() == c.name()));
        assert!(!out.deleted.iter().any(|f| f.name() == c.name()));
    }
    for c in out.changed.iter() {
        assert!(!out.deleted.iter().any(|f| f.name() == c.name()));
    }
}

#[test]
fn equal_timestamps_correlate_into_a_rename() {
    let baseline = vec![file("A", 100)];
    let latest = vec![file("B", 100)];
    let out = diff(&baseline, &latest, NotifyFilters::last_write());
    assert!(out.created.is_empty());
    assert!(out.deleted.is_empty());
    assert_eq!(out.renamed.len(), 1);
    assert_eq!(out.renamed[0].name(), "B");
    assert_eq!(out.renamed[0].old_name(), "A");
}

#[test]
fn rename_pairing_is_greedy_first_match() {
    // two deleted candidates share the created file's timestamp: the first
    // one in baseline order is consumed, the other stays deleted
    let baseline = vec![file("first.txt", 1), file("second.txt", 1)];
    let latest = vec![file("new.txt", 1)];
    let out = diff(&baseline, &latest, NotifyFilters::last_write());
    assert_eq!(out.renamed.len(), 1);
    assert_eq!(out.renamed[0].name(), "new.txt");
    assert_eq!(out.renamed[0].old_name(), "first.txt");
    assert_eq!(names(&out.deleted), vec!["second.txt".to_string()]);
    assert!(out.created.is_empty());
}

#[test]
fn last_write_mask_ignores_accessed_time() {
    let baseline = vec![file_acc("a.txt", 1, 10)];
    let latest = vec![file_acc("a.txt", 1, 20)];
    let out = diff(&baseline, &latest, NotifyFilters::last_write());
    assert!(out.changed.is_empty());
}

#[test]
fn last_access_mask_sees_accessed_time() {
    let baseline = vec![file_acc("a.txt", 1, 10)];
    let latest = vec![file_acc("a.txt", 1, 20)];
    let out = diff(&baseline, &latest, NotifyFilters::last_access());
    assert_eq!(names(&out.changed), vec!["a.txt".to_string()]);
}

#[test]
fn creation_time_mask_sees_created_time() {
    let baseline = vec![File::new("a.txt", Some(1), Some(1), Some(5))];
    let latest = vec![File::new("a.txt", Some(1), Some(1), Some(6))];
    let masked = diff(&baseline, &latest, NotifyFilters::creation_time());
    assert_eq!(names(&masked.changed), vec!["a.txt".to_string()]);
    let unmasked = diff(&baseline, &latest, NotifyFilters::last_write());
    assert!(unmasked.changed.is_empty());
}

#[test]
fn identical_snapshots_yield_no_events() {
    let baseline = vec![file("a.txt", 1), file("b.txt", 2)];
    let latest = vec![file("a.txt", 1), file("b.txt", 2)];
    let out = diff(&baseline, &latest, NotifyFilters::last_write());
    assert!(out.created.is_empty());
    assert!(out.changed.is_empty());
    assert!(out.deleted.is_empty());
    assert!(out.renamed.is_empty());
    let next = next_baseline(&baseline, &latest, NotifyFilters::last_write());
    assert_eq!(names(&next), names(&baseline));
}

#[test]
fn baseline_advances_to_the_latest_paths() {
    let baseline = vec![file("a.txt", 1), file("gone.txt", 4)];
    let latest = vec![file("a.txt", 2), file("b.txt", 5)];
    let next = next_baseline(&baseline, &latest, NotifyFilters::last_write());
    assert_eq!(names(&next), vec!["a.txt".to_string(), "b.txt".to_string()]);
    // the changed record is refreshed in place
    assert_eq!(next[0].last_modified(), Some(2));
}

#[test]
fn unqualifying_metadata_stays_stale_in_the_baseline() {
    // accessed time moved but only last-write is watched: the survivor keeps
    // its old record
    let baseline = vec![file_acc("a.txt", 1, 10)];
    let latest = vec![file_acc("a.txt", 1, 20)];
    let next = next_baseline(&baseline, &latest, NotifyFilters::last_write());
    assert_eq!(next.len(), 1);
    assert_eq!(next[0].last_accessed(), Some(10));
}

#[test]
fn combined_masks_watch_both_dimensions() {
    let mask = NotifyFilters::last_write().or(NotifyFilters::creation_time());
    assert!(mask.contains(NotifyFilters::last_write()));
    assert!(mask.contains(NotifyFilters::creation_time()));
    assert!(!mask.contains(NotifyFilters::last_access()));
    let baseline = vec![File::new("a.txt", Some(1), Some(1), Some(5))];
    let latest = vec![File::new("a.txt", Some(1), Some(1), Some(6))];
    let out = diff(&baseline, &latest, mask);
    assert_eq!(out.changed.len(), 1);
}
