//! The watcher: its configuration, its lifecycle flag, and the two
//! state machines that drive a run — the poller, which turns one observation
//! per cycle into the operations to publish and carries the detector's
//! baseline forward, and the notifier step, which maps one channel message to
//! the callback dispatch it calls for. The caller runs the loops, performs
//! the I/O and the sleeps, and owns the channel; every decision is here.
use vstd::prelude::*;

use crate::detector::{
    changed_of, created_of, deleted_of, diff, next_baseline, next_baseline_spec, renames_of,
    DiffOutcome,
};
use crate::events::{OnChangedEventArgs, OnCreatedEventArgs, OnDeletedEventArgs, OnRenamedEventArgs};
use crate::filter::{filter_expr_valid, spec_parse, ConfigError, FilterView, PathFilter};
use crate::notify::NotifyFilters;
use crate::search_dir::{unique_names, File, RenamedFileEntry, Snapshot};

verus! {

/// One classification of changes, as published on the channel: a batch of
/// files created, changed or deleted, a batch of renames, or a terminal
/// error carrying its cause.
#[derive(Debug)]
pub enum OPERATION {
    CREATE(Vec<File>),
    CHANGE(Vec<File>),
    DELETE(Vec<File>),
    RENAME(Vec<RenamedFileEntry>),
    ERROR(String),
}

/// Mathematical model of an `OPERATION`.
pub enum OperationView {
    Create(Seq<File>),
    Change(Seq<File>),
    Delete(Seq<File>),
    Rename(Seq<RenamedFileEntry>),
    Error(Seq<char>),
}

impl View for OPERATION {
    type V = OperationView;

    open spec fn view(&self) -> OperationView {
        match self {
            OPERATION::CREATE(v) => OperationView::Create(v@),
            OPERATION::CHANGE(v) => OperationView::Change(v@),
            OPERATION::DELETE(v) => OperationView::Delete(v@),
            OPERATION::RENAME(v) => OperationView::Rename(v@),
            OPERATION::ERROR(e) => OperationView::Error(e@),
        }
    }
}

pub open spec fn op_views(ops: Seq<OPERATION>) -> Seq<OperationView> {
    ops.map_values(|op: OPERATION| op@)
}

/// One message of the poller-to-notifier channel: a classification to
/// deliver, or the cooperative exit sentinel.
#[derive(Debug)]
pub enum ChannelOperation {
    CONTINUE(OPERATION),
    EXIT,
}

/// The view of an optional filter expression.
pub open spec fn opt_string_view(o: Option<String>) -> Option<Seq<char>> {
    match o {
        Option::Some(s) => Option::Some(s@),
        Option::None => Option::None,
    }
}

/// An optional filter expression is acceptable when absent or well formed.
pub open spec fn filter_opt_valid(o: Option<String>) -> bool {
    match o {
        Option::Some(s) => filter_expr_valid(s@),
        Option::None => true,
    }
}

/// The parsed form of an optional filter expression: absent means include
/// everything.
pub open spec fn filter_opt_parse(o: Option<String>) -> FilterView {
    match o {
        Option::Some(s) => spec_parse(s@),
        Option::None => FilterView {
            include_all: true,
            extensions: Seq::empty(),
            file_names: Seq::empty(),
        },
    }
}

/// Builder-style configuration: the watched directory, the filter
/// expression, the poll interval, the watched dimensions and the depth
/// bound. Callback registration lives with the embedding that owns the
/// callbacks and runs the threads.
#[derive(Debug, Clone)]
pub struct FileWatcherOptions {
    pub dir: String,
    pub filter: Option<String>,
    pub refresh_rate_mils: u64,
    pub notify_filters: NotifyFilters,
    pub dir_depth: Option<u8>,
}

impl FileWatcherOptions {
    /// Options for watching `directory`: by default no filter (everything is
    /// tracked), a 250 ms poll interval, the last-write dimension watched,
    /// and no depth bound.
    pub fn new(directory: &str) -> (r: FileWatcherOptions)
        ensures
            r.dir@ == directory@,
            r.filter is None,
            r.refresh_rate_mils == 250,
            r.notify_filters == (NotifyFilters {
                attributes: false,
                creation_time: false,
                directory_name: false,
                file_name: false,
                last_access: false,
                last_write: true,
                security: false,
                size: false,
            }),
            r.dir_depth is None,
    {
        FileWatcherOptions {
            dir: String::from_str(directory),
            filter: Option::None,
            refresh_rate_mils: 250,
            notify_filters: NotifyFilters::last_write(),
            dir_depth: Option::None,
        }
    }

    pub fn with_filter(&mut self, filter: &str) -> (r: &mut FileWatcherOptions)
        ensures
            opt_string_view((*r).filter) == Option::Some(filter@),
            *r == (FileWatcherOptions { filter: (*r).filter, ..*old(self) }),
            *final(self) == *final(r),
    {
        self.filter = Option::Some(String::from_str(filter));
        self
    }

    pub fn with_refresh_rate(&mut self, refresh_rate_in_milliseconds: u64) -> (r: &mut FileWatcherOptions)
        ensures
            *r == (FileWatcherOptions {
                refresh_rate_mils: refresh_rate_in_milliseconds,
                ..*old(self)
            }),
            *final(self) == *final(r),
    {
        self.refresh_rate_mils = refresh_rate_in_milliseconds;
        self
    }

    pub fn with_notify_filters(&mut self, filters: NotifyFilters) -> (r: &mut FileWatcherOptions)
        ensures
            *r == (FileWatcherOptions { notify_filters: filters, ..*old(self) }),
            *final(self) == *final(r),
    {
        self.notify_filters = filters;
        self
    }

    pub fn with_directory_depth(&mut self, depth: u8) -> (r: &mut FileWatcherOptions)
        ensures
            *r == (FileWatcherOptions { dir_depth: Option::Some(depth), ..*old(self) }),
            *final(self) == *final(r),
    {
        self.dir_depth = Option::Some(depth);
        self
    }
}

/// The watcher's configuration and lifecycle flag. The background units, the
/// channel and the callbacks live with the embedding; they read this
/// configuration by value at start time.
#[derive(Debug)]
pub struct FileWatcher {
    pub dir_path: String,
    pub filter: Option<String>,
    pub path_filter: PathFilter,
    pub refresh_rate_in_milliseconds: u64,
    pub notify_filters: NotifyFilters,
    pub dir_depth: Option<u8>,
    pub is_started: bool,
}

/// The lifecycle transition of `start`: the watcher runs afterwards, and the
/// call reports whether it was the one that started it.
pub open spec fn start_spec(w: FileWatcher) -> (FileWatcher, bool) {
    (FileWatcher { is_started: true, ..w }, !w.is_started)
}

/// The lifecycle transition of `stop`: the watcher is stopped afterwards,
/// and the call reports whether it was the one that requested the stop.
pub open spec fn stop_spec(w: FileWatcher) -> (FileWatcher, bool) {
    (FileWatcher { is_started: false, ..w }, w.is_started)
}

impl FileWatcher {
    /// Builds a watcher over `dir`. `root_is_dir` is the caller's probe of
    /// the root path: construction is rejected with
    /// `ConfigError::NotADirectory` exactly when the probe failed, and with
    /// `ConfigError::BadFilter` exactly when the filter expression is
    /// malformed. The watcher starts out stopped.
    pub fn new(
        dir: &str,
        filter: Option<String>,
        refresh_rate_in_milliseconds: u64,
        dir_depth: Option<u8>,
        root_is_dir: bool,
    ) -> (r: Result<FileWatcher, ConfigError>)
        ensures
            match r {
                Result::Ok(w) => {
                    &&& root_is_dir
                    &&& filter_opt_valid(filter)
                    &&& w.dir_path@ == dir@
                    &&& w.filter == filter
                    &&& w.path_filter@ == filter_opt_parse(filter)
                    &&& w.refresh_rate_in_milliseconds == refresh_rate_in_milliseconds
                    &&& w.notify_filters == (NotifyFilters {
                        attributes: false,
                        creation_time: false,
                        directory_name: false,
                        file_name: false,
                        last_access: false,
                        last_write: true,
                        security: false,
                        size: false,
                    })
                    &&& w.dir_depth == dir_depth
                    &&& !w.is_started
                },
                Result::Err(e) => {
                    &&& (e == ConfigError::NotADirectory <==> !root_is_dir)
                    &&& (e == ConfigError::BadFilter <==> (root_is_dir && !filter_opt_valid(
                        filter,
                    )))
                },
            },
    {
        if !root_is_dir {
            return Result::Err(ConfigError::NotADirectory);
        }
        let path_filter = match &filter {
            Option::Some(expr) => {
                match PathFilter::parse(expr.as_str()) {
                    Result::Ok(f) => f,
                    Result::Err(e) => {
                        return Result::Err(e);
                    },
                }
            },
            Option::None => PathFilter::include_all(),
        };
        Result::Ok(
            FileWatcher {
                dir_path: String::from_str(dir),
                filter,
                path_filter,
                refresh_rate_in_milliseconds,
                notify_filters: NotifyFilters::last_write(),
                dir_depth,
                is_started: false,
            },
        )
    }

    /// Builds a watcher from assembled options; `root_is_dir` as in `new`.
    pub fn new_with_options(op: &FileWatcherOptions, root_is_dir: bool) -> (r: Result<
        FileWatcher,
        ConfigError,
    >)
        ensures
            match r {
                Result::Ok(w) => {
                    &&& root_is_dir
                    &&& filter_opt_valid(op.filter)
                    &&& w.dir_path@ == op.dir@
                    &&& opt_string_view(w.filter) == opt_string_view(op.filter)
                    &&& w.path_filter@ == filter_opt_parse(op.filter)
                    &&& w.refresh_rate_in_milliseconds == op.refresh_rate_mils
                    &&& w.notify_filters == op.notify_filters
                    &&& w.dir_depth == op.dir_depth
                    &&& !w.is_started
                },
                Result::Err(e) => {
                    &&& (e == ConfigError::NotADirectory <==> !root_is_dir)
                    &&& (e == ConfigError::BadFilter <==> (root_is_dir && !filter_opt_valid(
                        op.filter,
                    )))
                },
            },
    {
        let filter: Option<String> = match &op.filter {
            Option::Some(s) => Option::Some(s.clone()),
            Option::None => Option::None,
        };
        let mut result = match FileWatcher::new(
            op.dir.as_str(),
            filter,
            op.refresh_rate_mils,
            op.dir_depth,
            root_is_dir,
        ) {
            Result::Ok(w) => w,
            Result::Err(e) => {
                return Result::Err(e);
            },
        };
        result.notify_filters = op.notify_filters;
        Result::Ok(result)
    }

    /// The watched directory's path.
    pub fn watched_dir(&self) -> (r: &str)
        ensures
            r@ == self.dir_path@,
    {
        self.dir_path.as_str()
    }

    /// The configured filter expression, if any.
    pub fn filter(&self) -> (r: Option<&str>)
        ensures
            match r {
                Option::Some(f) => self.filter is Some && Option::Some(f@) == opt_string_view(
                    self.filter,
                ),
                Option::None => self.filter is None,
            },
    {
        match &self.filter {
            Option::Some(f) => Option::Some(f.as_str()),
            Option::None => Option::None,
        }
    }

    /// Requests the running state. Returns false, as a no-op and not an
    /// error, when the watcher already runs.
    pub fn start(&mut self) -> (r: bool)
        ensures
            *final(self) == start_spec(*old(self)).0,
            r == start_spec(*old(self)).1,
    {
        let was_started = self.is_started;
        self.is_started = true;
        !was_started
    }

    /// Requests cooperative termination and returns immediately; it does not
    /// wait for the background units. Returns false when already stopped.
    pub fn stop(&mut self) -> (r: bool)
        ensures
            *final(self) == stop_spec(*old(self)).0,
            r == stop_spec(*old(self)).1,
    {
        let was_started = self.is_started;
        self.is_started = false;
        was_started
    }
}

/// Starting twice: the first call on a stopped watcher returns true, the
/// second returns false, and the watcher runs after both.
pub proof fn lemma_start_twice(w: FileWatcher)
    requires
        !w.is_started,
    ensures
        start_spec(w).1 == true,
        start_spec(start_spec(w).0).1 == false,
        start_spec(start_spec(w).0).0.is_started,
{
}

/// Stopping twice: the first call on a running watcher returns true, the
/// second returns false, and the watcher is stopped after both.
pub proof fn lemma_stop_twice(w: FileWatcher)
    requires
        w.is_started,
    ensures
        stop_spec(w).1 == true,
        stop_spec(stop_spec(w).0).1 == false,
        !stop_spec(stop_spec(w).0).0.is_started,
{
}

/// What one poll cycle observes, as handed in by the embedding: the cheap
/// directory-level pre-check found nothing, or a fresh scan of the tree, or
/// the root became unreadable.
#[derive(Debug)]
pub enum PollObservation {
    Unchanged,
    Scanned(Snapshot),
    RootGone(String),
}

/// What one poll cycle asks the embedding to do: terminate after signalling
/// exit, sleep one interval, publish these operations in order and then
/// sleep, or publish one terminal error and terminate.
#[derive(Debug)]
pub enum PollStep {
    Exit,
    Idle,
    Emit(Vec<OPERATION>),
    Abort(OPERATION),
}

/// The operations a cycle publishes: each non-empty classification, in the
/// fixed order created, changed, deleted, renamed.
pub open spec fn cycle_ops(base: Seq<File>, lat: Seq<File>, mask: NotifyFilters) -> Seq<
    OperationView,
> {
    (if created_of(base, lat).len() > 0 {
        seq![OperationView::Create(created_of(base, lat))]
    } else {
        Seq::empty()
    }) + (if changed_of(base, lat, mask).len() > 0 {
        seq![OperationView::Change(changed_of(base, lat, mask))]
    } else {
        Seq::empty()
    }) + (if deleted_of(base, lat).len() > 0 {
        seq![OperationView::Delete(deleted_of(base, lat))]
    } else {
        Seq::empty()
    }) + (if renames_of(base, lat).len() > 0 {
        seq![OperationView::Rename(renames_of(base, lat))]
    } else {
        Seq::empty()
    })
}

/// The poller's state: the detector's baseline — its running memory of the
/// last-published file set — the watched directory's last-seen modified
/// timestamp for the cheap pre-check, and the watched dimensions, captured
/// by value at start time.
#[derive(Debug)]
pub struct Poller {
    pub baseline: Vec<File>,
    pub last_dir_modified: Option<u64>,
    pub notify_filters: NotifyFilters,
}

impl Poller {
    /// A poller whose baseline is the initial snapshot; no events are
    /// published for the files already present.
    pub fn new(initial: Snapshot, notify_filters: NotifyFilters) -> (r: Poller)
        ensures
            r.baseline == initial.files,
            r.last_dir_modified == initial.dir_modified,
            r.notify_filters == notify_filters,
    {
        let Snapshot { files, dir_modified } = initial;
        Poller { baseline: files, last_dir_modified: dir_modified, notify_filters }
    }

    /// The directory-level pre-check: a full rescan is owed exactly when the
    /// directory's own modified timestamp differs from the last one seen —
    /// the cheap gate that skips the recursive walk on an idle tick.
    pub fn should_rescan(&self, observed_dir_modified: Option<u64>) -> (r: bool)
        ensures
            r == (observed_dir_modified != self.last_dir_modified),
    {
        !crate::notify::opt_eq(observed_dir_modified, self.last_dir_modified)
    }

    /// One cycle of the poll loop. A requested stop wins over everything: the
    /// cycle asks for exit and changes nothing. An unchanged directory is one
    /// idle interval. A scan is diffed against the baseline: the cycle asks to
    /// publish each non-empty classification in the fixed order created,
    /// changed, deleted, renamed, and the baseline advances to the surviving
    /// entries (changed records refreshed in place) plus the new files. A
    /// vanished root turns into one terminal error and exit.
    pub fn poll_cycle(&mut self, stop_requested: bool, obs: PollObservation) -> (r: PollStep)
        ensures
            stop_requested ==> r is Exit && *final(self) == *old(self),
            !stop_requested && obs is Unchanged ==> r is Idle && *final(self) == *old(self),
            !stop_requested ==> (match obs {
                PollObservation::RootGone(cause) => r matches PollStep::Abort(op) && op@
                    == OperationView::Error(cause@) && *final(self) == *old(self),
                _ => true,
            }),
            !stop_requested ==> (match obs {
                PollObservation::Scanned(snap) => {
                    &&& r matches PollStep::Emit(ops) && op_views(ops@) == cycle_ops(
                        old(self).baseline@,
                        snap.files@,
                        old(self).notify_filters,
                    )
                    &&& final(self).baseline@ == next_baseline_spec(
                        old(self).baseline@,
                        snap.files@,
                        old(self).notify_filters,
                    )
                    &&& final(self).last_dir_modified == snap.dir_modified
                    &&& final(self).notify_filters == old(self).notify_filters
                    &&& unique_names(old(self).baseline@) && unique_names(snap.files@)
                        ==> unique_names(final(self).baseline@)
                },
                _ => true,
            }),
    {
        if stop_requested {
            return PollStep::Exit;
        }
        match obs {
            PollObservation::Unchanged => PollStep::Idle,
            PollObservation::RootGone(cause) => PollStep::Abort(OPERATION::ERROR(cause)),
            PollObservation::Scanned(snap) => {
                let Snapshot { files: lat, dir_modified } = snap;
                let outcome = diff(&self.baseline, &lat, self.notify_filters);
                let new_baseline = next_baseline(&self.baseline, &lat, self.notify_filters);
                let ghost base0 = self.baseline@;
                self.baseline = new_baseline;
                self.last_dir_modified = dir_modified;
                let DiffOutcome { created, changed, deleted, renamed } = outcome;
                let mut ops: Vec<OPERATION> = Vec::new();
                let ghost mask = self.notify_filters;
                if created.len() > 0 {
                    ops.push(OPERATION::CREATE(created));
                }
                if changed.len() > 0 {
                    ops.push(OPERATION::CHANGE(changed));
                }
                if deleted.len() > 0 {
                    ops.push(OPERATION::DELETE(deleted));
                }
                if renamed.len() > 0 {
                    ops.push(OPERATION::RENAME(renamed));
                }
                proof {
                    assert(op_views(ops@) =~= cycle_ops(base0, lat@, mask));
                }
                PollStep::Emit(ops)
            },
        }
    }
}

/// What a channel message asks the notifier to do: invoke the matching
/// callback slot with the immutable batch, surface a terminal error, or
/// terminate.
#[derive(Debug)]
pub enum Dispatch {
    Created(OnCreatedEventArgs),
    Changed(OnChangedEventArgs),
    Deleted(OnDeletedEventArgs),
    Renamed(OnRenamedEventArgs),
    Failed(String),
    Stop,
}

/// The dispatch a published operation calls for: the payload is carried over
/// unchanged into the matching event argument.
pub open spec fn dispatch_matches(op: OPERATION, d: Dispatch) -> bool {
    match (op, d) {
        (OPERATION::CREATE(v), Dispatch::Created(a)) => a.args.files == v,
        (OPERATION::CHANGE(v), Dispatch::Changed(a)) => a.args.files == v,
        (OPERATION::DELETE(v), Dispatch::Deleted(a)) => a.args.files == v,
        (OPERATION::RENAME(v), Dispatch::Renamed(a)) => a.args.files == v,
        (OPERATION::ERROR(e), Dispatch::Failed(m)) => m == e,
        _ => false,
    }
}

/// One step of the notifier loop: the exit sentinel terminates it; any other
/// message is turned into the dispatch of the single callback slot matching
/// the message's kind, with the batch passed through unchanged.
pub fn notifier_step(msg: ChannelOperation) -> (r: Dispatch)
    ensures
        msg is EXIT ==> r is Stop,
        match msg {
            ChannelOperation::CONTINUE(op) => dispatch_matches(op, r),
            ChannelOperation::EXIT => true,
        },
{
    match msg {
        ChannelOperation::EXIT => Dispatch::Stop,
        ChannelOperation::CONTINUE(op) => match op {
            OPERATION::CREATE(v) => Dispatch::Created(OnCreatedEventArgs::new(v)),
            OPERATION::CHANGE(v) => Dispatch::Changed(OnChangedEventArgs::new(v)),
            OPERATION::DELETE(v) => Dispatch::Deleted(OnDeletedEventArgs::new(v)),
            OPERATION::RENAME(v) => Dispatch::Renamed(OnRenamedEventArgs::new(v)),
            OPERATION::ERROR(e) => Dispatch::Failed(e),
        },
    }
}

/// The events emitted across `n` consecutive polls whose scan each time
/// equals the then-current baseline — that is, polls across which nothing on
/// disk changed.
pub open spec fn noop_poll_events(base: Seq<File>, mask: NotifyFilters, n: nat) -> Seq<
    OperationView,
>
    decreases n,
{
    if n == 0 {
        Seq::empty()
    } else {
        cycle_ops(base, base, mask) + noop_poll_events(
            next_baseline_spec(base, base, mask),
            mask,
            (n - 1) as nat,
        )
    }
}

/// No-op stability: when nothing on disk changes across any number of
/// consecutive polls, not one event is emitted, and the baseline never
/// moves.
pub proof fn lemma_noop_stability(base: Seq<File>, mask: NotifyFilters, n: nat)
    requires
        unique_names(base),
    ensures
        noop_poll_events(base, mask, n) == Seq::<OperationView>::empty(),
        next_baseline_spec(base, base, mask) == base,
    decreases n,
{
    crate::detector::lemma_noop_cycle(base, mask);
    assert(cycle_ops(base, base, mask) =~= Seq::<OperationView>::empty());
    if n > 0 {
        lemma_noop_stability(base, mask, (n - 1) as nat);
        assert(noop_poll_events(base, mask, n) =~= Seq::<OperationView>::empty());
    } else {
        assert(noop_poll_events(base, mask, n) =~= Seq::<OperationView>::empty());
    }
}

} // verus!
