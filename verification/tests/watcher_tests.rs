use rwatcher::{ConfigError, FileWatcher, FileWatcherOptions, NotifyFilters};

#[test]
fn it_works() {
    let folder = "D:\\Test";

    let mut fw =
        FileWatcher::new(folder, Some(String::from("*.txt")), 250, None, true).unwrap();

    let started = fw.start();
    assert!(started);
}

#[test]
fn start_twice_returns_true_then_false() {
    let mut fw = FileWatcher::new("root", None, 250, None, true).unwrap();
    assert!(fw.start());
    assert!(!fw.start());
}

#[test]
fn stop_twice_returns_true_then_false() {
    let mut fw = FileWatcher::new("root", None, 250, None, true).unwrap();
    assert!(fw.start());
    assert!(fw.stop());
    assert!(!fw.stop());
}

#[test]
fn stop_before_start_is_a_no_op() {
    let mut fw = FileWatcher::new("root", None, 250, None, true).unwrap();
    assert!(!fw.stop());
}

#[test]
fn missing_root_is_rejected() {
    let r = FileWatcher::new("nowhere", None, 250, None, false);
    assert_eq!(r.unwrap_err(), ConfigError::NotADirectory);
}

#[test]
fn malformed_filter_is_rejected() {
    let r = FileWatcher::new("root", Some(String::from("???")), 250, None, true);
    assert_eq!(r.unwrap_err(), ConfigError::BadFilter);
}

#[test]
fn getters_reflect_the_configuration() {
    let fw = FileWatcher::new("watched", Some(String::from("*.txt")), 100, Some(2), true)
        .unwrap();
    assert_eq!(fw.watched_dir(), "watched");
    assert_eq!(fw.filter(), Some("*.txt"));
    let bare = FileWatcher::new("watched", None, 100, None, true).unwrap();
    assert_eq!(bare.filter(), None);
}

#[test]
fn options_carry_over_into_the_watcher() {
    let mut op = FileWatcherOptions::new("D:\\Test");
    op.with_filter("*.txt;*.pdf;*.sql;*.jpg")
        .with_refresh_rate(250)
        .with_notify_filters(NotifyFilters::creation_time().or(NotifyFilters::last_write()))
        .with_directory_depth(4);

    let fw = FileWatcher::new_with_options(&op, true).unwrap();
    assert_eq!(fw.watched_dir(), "D:\\Test");
    assert_eq!(fw.filter(), Some("*.txt;*.pdf;*.sql;*.jpg"));
    assert_eq!(fw.refresh_rate_in_milliseconds, 250);
    assert_eq!(fw.dir_depth, Some(4));
    assert!(fw.notify_filters.creation_time);
    assert!(fw.notify_filters.last_write);
    assert!(!fw.notify_filters.last_access);
}

#[test]
fn options_default_to_last_write_and_250ms() {
    let op = FileWatcherOptions::new("somewhere");
    assert_eq!(op.refresh_rate_mils, 250);
    assert_eq!(op.filter, None);
    assert_eq!(op.dir_depth, None);
    assert_eq!(op.notify_filters, NotifyFilters::last_write());
}

#[test]
fn options_bad_filter_fails_construction() {
    let mut op = FileWatcherOptions::new("root");
    op.with_filter("not a filter");
    let r = FileWatcher::new_with_options(&op, true);
    assert_eq!(r.unwrap_err(), ConfigError::BadFilter);
}
