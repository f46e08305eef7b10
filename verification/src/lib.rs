//! A polling directory watcher: a filtered, depth-bounded scanner over an
//! in-memory directory tree, a snapshot-diff engine that classifies created,
//! changed, deleted and renamed files, a notify-filter evaluator, and the
//! poller/notifier state machines that drive event delivery.
pub mod detector;
pub mod events;
pub mod file_watcher;
pub mod filter;
pub mod notify;
pub mod search_dir;

pub use crate::file_watcher::{
    ChannelOperation, Dispatch, FileWatcher, FileWatcherOptions, PollObservation, PollStep, Poller,
    OPERATION,
};
pub use crate::filter::{ConfigError, PathFilter};
pub use crate::notify::NotifyFilters;
