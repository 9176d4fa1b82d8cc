//! The cycle that keeps the store in step with the remote catalog.
//!
//! A cycle goes through its stages in a fixed order: the catalog's items
//! are pulled and stored, the files of the items that need it are listed
//! and stored, the files are aggregated into jobs, the daily statistics
//! are recomputed, and the jobs are indexed for the search. The cycle
//! decides; whoever runs it does what it asks for, a remote call, a
//! write to the store or a wait, and hands back what came of it.

use vstd::prelude::*;
use crate::database::{JobDelta, UpdateFilesJobArgs, UpdateJobArgs};
use crate::ia::{ItemDetails, ItemInfo, ItemInfoView};
use crate::jobs::{aggregate, aggregate_files, assignments, fits};
use crate::time::Timestamp;

verus! {

/// A cycle starts only where this many seconds have passed since the last
/// one was attempted: four hours.
pub const MIN_SPACING_SECS: i64 = 14_400;

/// Items are pulled again from this many seconds before the last cycle:
/// seven days, for entries that arrive late.
pub const OVERLAP_SECS: i64 = 604_800;

/// The seconds to wait after a cycle: six hours.
pub const CYCLE_SLEEP_SECS: u64 = 21_600;

/// The milliseconds to wait after each item's listing.
pub const PAUSE_MILLIS: u64 = 500;

/// Where a cycle stands.
#[derive(Debug)]
pub enum Phase {
    /// Between cycles: the clock and the watermark have been asked for.
    Idle,
    /// A page of the catalog has been asked for.
    FetchingItems { after_date: Timestamp },
    /// A page of the catalog is being stored; `cursor` is where the
    /// catalog goes on, if it does.
    StoringItems { after_date: Timestamp, cursor: Option<String> },
    /// A page of items that need their files listed has been asked for.
    SelectingItems,
    /// The listing of item `at` of the page `ids` has been asked for.
    FetchingFiles { ids: Vec<String>, at: usize },
    /// The listing of item `at` is being stored.
    StoringFiles { ids: Vec<String>, at: usize },
    /// Item `at` is being marked as listed.
    StampingItem { ids: Vec<String>, at: usize },
    /// The wait after item `at`.
    Pausing { ids: Vec<String>, at: usize },
    /// A page of files without a job has been asked for.
    SelectingFiles,
    /// What a page of files amounts to is being written; `last_id` and
    /// `last_filename` are the key of the page's last file.
    WritingJobs { last_id: String, last_filename: String },
    /// The daily statistics are being recomputed.
    RecomputingStats,
    /// A page of jobs that are not indexed has been asked for.
    SelectingJobs,
    /// A page of jobs is being indexed; `last` is its last job.
    IndexingJobs { last: String },
    /// The watermark is being set to the present.
    WritingWatermark,
    /// The wait between cycles.
    Sleeping,
    /// The watermark could not be read or written: no more cycles.
    Stopped,
}

/// What the cycle asks for next.
#[derive(Debug)]
pub enum Action {
    /// Read the clock and the watermark.
    ReadClock,
    /// Fetch one page of the items added since `after_date`, from `cursor`
    /// on.
    FetchItems { after_date: Timestamp, cursor: Option<String> },
    /// Store the items.
    StoreItems { items: Vec<ItemInfo> },
    /// Read a page of the items after `after_id` that need their files
    /// listed.
    SelectItems { after_id: String },
    /// Fetch the file listing of the item.
    FetchItemFiles { identifier: String },
    /// Store the files of the item.
    StoreFiles { identifier: String, files: ItemDetails },
    /// Mark the item as listed now.
    StampRefresh { identifier: String },
    /// Wait.
    Pause { millis: u64 },
    /// Read a page of the files without a job after this key.
    SelectFiles { after_id: String, after_filename: String },
    /// Add the amounts to the jobs and assign the files, in one
    /// transaction.
    WriteJobs { jobs: Vec<UpdateJobArgs>, assigned: Vec<UpdateFilesJobArgs> },
    /// Recompute the daily statistics.
    RecomputeStats,
    /// Read a page of the jobs after `after_id` that are not indexed.
    SelectJobs { after_id: String },
    /// Give each of the jobs a row of the search index.
    IndexJobs { job_ids: Vec<String> },
    /// Set the watermark to the present.
    WriteWatermark,
    /// Wait between cycles.
    Sleep { secs: u64 },
    /// Give up.
    Stop,
}

/// What came of the last action.
#[derive(Debug)]
pub enum Event {
    /// The present, and when the last cycle was attempted.
    Clock { now: Timestamp, last_update: Timestamp },
    /// A page of the catalog, and where the catalog goes on, if it does.
    Items { items: Vec<ItemInfo>, cursor: Option<String> },
    /// A page of item identifiers.
    Identifiers { ids: Vec<String> },
    /// The file listing of an item.
    Files { files: ItemDetails },
    /// A page of files, each as item, name and size.
    FileRows { rows: Vec<(String, String, i64)> },
    /// A page of job identifiers.
    JobIds { ids: Vec<String> },
    /// The action is done and has nothing to tell.
    Done,
    /// The action failed.
    Failed,
}

/// The mathematical value of a [`Phase`].
pub ghost enum PhaseView {
    Idle,
    FetchingItems { after_date: Timestamp },
    StoringItems { after_date: Timestamp, cursor: Option<Seq<char>> },
    SelectingItems,
    FetchingFiles { ids: Seq<Seq<char>>, at: int },
    StoringFiles { ids: Seq<Seq<char>>, at: int },
    StampingItem { ids: Seq<Seq<char>>, at: int },
    Pausing { ids: Seq<Seq<char>>, at: int },
    SelectingFiles,
    WritingJobs { last_id: Seq<char>, last_filename: Seq<char> },
    RecomputingStats,
    SelectingJobs,
    IndexingJobs { last: Seq<char> },
    WritingWatermark,
    Sleeping,
    Stopped,
}

/// The mathematical value of an [`Action`].
pub ghost enum ActionView {
    ReadClock,
    FetchItems { after_date: Timestamp, cursor: Option<Seq<char>> },
    StoreItems { items: Seq<ItemInfoView> },
    SelectItems { after_id: Seq<char> },
    FetchItemFiles { identifier: Seq<char> },
    StoreFiles { identifier: Seq<char>, files: Seq<(Seq<char>, i64)> },
    StampRefresh { identifier: Seq<char> },
    Pause { millis: u64 },
    SelectFiles { after_id: Seq<char>, after_filename: Seq<char> },
    WriteJobs { jobs: Seq<JobDelta>, assigned: Seq<(Seq<char>, Seq<char>, Seq<char>)> },
    RecomputeStats,
    SelectJobs { after_id: Seq<char> },
    IndexJobs { job_ids: Seq<Seq<char>> },
    WriteWatermark,
    Sleep { secs: u64 },
    Stop,
}

/// The mathematical value of an [`Event`].
pub ghost enum EventView {
    Clock { now: Timestamp, last_update: Timestamp },
    Items { items: Seq<ItemInfoView>, cursor: Option<Seq<char>> },
    Identifiers { ids: Seq<Seq<char>> },
    Files { files: Seq<(Seq<char>, i64)> },
    FileRows { rows: Seq<(Seq<char>, Seq<char>, i64)> },
    JobIds { ids: Seq<Seq<char>> },
    Done,
    Failed,
}

impl DeepView for Phase {
    type V = PhaseView;

    open spec fn deep_view(&self) -> PhaseView {
        match self {
            Phase::Idle => PhaseView::Idle,
            Phase::FetchingItems { after_date } => PhaseView::FetchingItems { after_date: *after_date },
            Phase::StoringItems { after_date, cursor } => PhaseView::StoringItems {
                after_date: *after_date,
                cursor: cursor.deep_view(),
            },
            Phase::SelectingItems => PhaseView::SelectingItems,
            Phase::FetchingFiles { ids, at } => PhaseView::FetchingFiles { ids: ids.deep_view(), at: *at as int },
            Phase::StoringFiles { ids, at } => PhaseView::StoringFiles { ids: ids.deep_view(), at: *at as int },
            Phase::StampingItem { ids, at } => PhaseView::StampingItem { ids: ids.deep_view(), at: *at as int },
            Phase::Pausing { ids, at } => PhaseView::Pausing { ids: ids.deep_view(), at: *at as int },
            Phase::SelectingFiles => PhaseView::SelectingFiles,
            Phase::WritingJobs { last_id, last_filename } => PhaseView::WritingJobs {
                last_id: last_id@,
                last_filename: last_filename@,
            },
            Phase::RecomputingStats => PhaseView::RecomputingStats,
            Phase::SelectingJobs => PhaseView::SelectingJobs,
            Phase::IndexingJobs { last } => PhaseView::IndexingJobs { last: last@ },
            Phase::WritingWatermark => PhaseView::WritingWatermark,
            Phase::Sleeping => PhaseView::Sleeping,
            Phase::Stopped => PhaseView::Stopped,
        }
    }
}

impl DeepView for Action {
    type V = ActionView;

    open spec fn deep_view(&self) -> ActionView {
        match self {
            Action::ReadClock => ActionView::ReadClock,
            Action::FetchItems { after_date, cursor } => ActionView::FetchItems {
                after_date: *after_date,
                cursor: cursor.deep_view(),
            },
            Action::StoreItems { items } => ActionView::StoreItems { items: items.deep_view() },
            Action::SelectItems { after_id } => ActionView::SelectItems { after_id: after_id@ },
            Action::FetchItemFiles { identifier } => ActionView::FetchItemFiles { identifier: identifier@ },
            Action::StoreFiles { identifier, files } => ActionView::StoreFiles {
                identifier: identifier@,
                files: files.deep_view(),
            },
            Action::StampRefresh { identifier } => ActionView::StampRefresh { identifier: identifier@ },
            Action::Pause { millis } => ActionView::Pause { millis: *millis },
            Action::SelectFiles { after_id, after_filename } => ActionView::SelectFiles {
                after_id: after_id@,
                after_filename: after_filename@,
            },
            Action::WriteJobs { jobs, assigned } => ActionView::WriteJobs {
                jobs: jobs.deep_view(),
                assigned: assigned.deep_view(),
            },
            Action::RecomputeStats => ActionView::RecomputeStats,
            Action::SelectJobs { after_id } => ActionView::SelectJobs { after_id: after_id@ },
            Action::IndexJobs { job_ids } => ActionView::IndexJobs { job_ids: job_ids.deep_view() },
            Action::WriteWatermark => ActionView::WriteWatermark,
            Action::Sleep { secs } => ActionView::Sleep { secs: *secs },
            Action::Stop => ActionView::Stop,
        }
    }
}

impl DeepView for Event {
    type V = EventView;

    open spec fn deep_view(&self) -> EventView {
        match self {
            Event::Clock { now, last_update } => EventView::Clock { now: *now, last_update: *last_update },
            Event::Items { items, cursor } => EventView::Items {
                items: items.deep_view(),
                cursor: cursor.deep_view(),
            },
            Event::Identifiers { ids } => EventView::Identifiers { ids: ids.deep_view() },
            Event::Files { files } => EventView::Files { files: files.deep_view() },
            Event::FileRows { rows } => EventView::FileRows { rows: rows.deep_view() },
            Event::JobIds { ids } => EventView::JobIds { ids: ids.deep_view() },
            Event::Done => EventView::Done,
            Event::Failed => EventView::Failed,
        }
    }
}

/// Less than the minimum spacing has passed between `last_update` and
/// `now`.
pub open spec fn too_soon(now: Timestamp, last_update: Timestamp) -> bool {
    now.total_nanos() - last_update.total_nanos() < MIN_SPACING_SECS * 1_000_000_000
}

/// A stage has failed, or the last stage is done: the watermark is set.
pub open spec fn wind_up() -> (PhaseView, ActionView) {
    (PhaseView::WritingWatermark, ActionView::WriteWatermark)
}

/// The listing of item `at` of the page `ids` is asked for; after the
/// last item of the page, the next page of items.
pub open spec fn list_item(ids: Seq<Seq<char>>, at: int) -> (PhaseView, ActionView) {
    if 0 <= at < ids.len() {
        (PhaseView::FetchingFiles { ids, at }, ActionView::FetchItemFiles { identifier: ids[at] })
    } else if ids.len() > 0 && at == ids.len() {
        (PhaseView::SelectingItems, ActionView::SelectItems { after_id: ids.last() })
    } else {
        wind_up()
    }
}

/// What the cycle does in phase `phase` when `event` comes: the phase it
/// goes to and the action it asks for.
pub open spec fn step_of(phase: PhaseView, event: EventView) -> (PhaseView, ActionView) {
    match phase {
        PhaseView::Idle => match event {
            EventView::Clock { now, last_update } => if too_soon(now, last_update) {
                (PhaseView::Sleeping, ActionView::Sleep { secs: CYCLE_SLEEP_SECS })
            } else {
                let after_date = last_update.earlier(OVERLAP_SECS as int);
                (PhaseView::FetchingItems { after_date }, ActionView::FetchItems { after_date, cursor: None })
            },
            _ => (PhaseView::Stopped, ActionView::Stop),
        },
        PhaseView::FetchingItems { after_date } => match event {
            EventView::Items { items, cursor } => (
                PhaseView::StoringItems { after_date, cursor },
                ActionView::StoreItems { items },
            ),
            _ => wind_up(),
        },
        PhaseView::StoringItems { after_date, cursor } => match event {
            EventView::Done => match cursor {
                Some(c) => (
                    PhaseView::FetchingItems { after_date },
                    ActionView::FetchItems { after_date, cursor: Some(c) },
                ),
                None => (PhaseView::SelectingItems, ActionView::SelectItems { after_id: Seq::empty() }),
            },
            _ => wind_up(),
        },
        PhaseView::SelectingItems => match event {
            EventView::Identifiers { ids } => if ids.len() == 0 {
                (
                    PhaseView::SelectingFiles,
                    ActionView::SelectFiles { after_id: Seq::empty(), after_filename: Seq::empty() },
                )
            } else {
                list_item(ids, 0)
            },
            _ => wind_up(),
        },
        PhaseView::FetchingFiles { ids, at } => match event {
            EventView::Files { files } => if 0 <= at < ids.len() {
                (PhaseView::StoringFiles { ids, at }, ActionView::StoreFiles { identifier: ids[at], files })
            } else {
                wind_up()
            },
            _ => wind_up(),
        },
        PhaseView::StoringFiles { ids, at } => match event {
            EventView::Done => if 0 <= at < ids.len() {
                (PhaseView::StampingItem { ids, at }, ActionView::StampRefresh { identifier: ids[at] })
            } else {
                wind_up()
            },
            _ => wind_up(),
        },
        PhaseView::StampingItem { ids, at } => match event {
            EventView::Done => (PhaseView::Pausing { ids, at }, ActionView::Pause { millis: PAUSE_MILLIS }),
            _ => wind_up(),
        },
        PhaseView::Pausing { ids, at } => match event {
            EventView::Done => if 0 <= at < ids.len() {
                list_item(ids, at + 1)
            } else {
                wind_up()
            },
            _ => wind_up(),
        },
        PhaseView::SelectingFiles => match event {
            EventView::FileRows { rows } => if rows.len() == 0 {
                (PhaseView::RecomputingStats, ActionView::RecomputeStats)
            } else if fits(aggregate(rows)) {
                (
                    PhaseView::WritingJobs { last_id: rows.last().0, last_filename: rows.last().1 },
                    ActionView::WriteJobs { jobs: aggregate(rows), assigned: assignments(rows) },
                )
            } else {
                wind_up()
            },
            _ => wind_up(),
        },
        PhaseView::WritingJobs { last_id, last_filename } => match event {
            EventView::Done => (
                PhaseView::SelectingFiles,
                ActionView::SelectFiles { after_id: last_id, after_filename: last_filename },
            ),
            _ => wind_up(),
        },
        PhaseView::RecomputingStats => match event {
            EventView::Done => (PhaseView::SelectingJobs, ActionView::SelectJobs { after_id: Seq::empty() }),
            _ => wind_up(),
        },
        PhaseView::SelectingJobs => match event {
            EventView::JobIds { ids } => if ids.len() == 0 {
                wind_up()
            } else {
                (PhaseView::IndexingJobs { last: ids.last() }, ActionView::IndexJobs { job_ids: ids })
            },
            _ => wind_up(),
        },
        PhaseView::IndexingJobs { last } => match event {
            EventView::Done => (PhaseView::SelectingJobs, ActionView::SelectJobs { after_id: last }),
            _ => wind_up(),
        },
        PhaseView::WritingWatermark => match event {
            EventView::Done => (PhaseView::Sleeping, ActionView::Sleep { secs: CYCLE_SLEEP_SECS }),
            _ => (PhaseView::Stopped, ActionView::Stop),
        },
        PhaseView::Sleeping => (PhaseView::Idle, ActionView::ReadClock),
        PhaseView::Stopped => (PhaseView::Stopped, ActionView::Stop),
    }
}

fn wind_up_now() -> (r: (Phase, Action))
    ensures
        (r.0.deep_view(), r.1.deep_view()) == wind_up(),
{
    (Phase::WritingWatermark, Action::WriteWatermark)
}

fn list_item_now(ids: Vec<String>, at: usize) -> (r: (Phase, Action))
    ensures
        (r.0.deep_view(), r.1.deep_view()) == list_item(ids.deep_view(), at as int),
{
    if at < ids.len() {
        let identifier = ids[at].clone();
        assert(ids.deep_view()[at as int] == identifier@);
        (Phase::FetchingFiles { ids, at }, Action::FetchItemFiles { identifier })
    } else if ids.len() > 0 && at == ids.len() {
        let after_id = ids[ids.len() - 1].clone();
        assert(ids.deep_view().last() == after_id@);
        (Phase::SelectingItems, Action::SelectItems { after_id })
    } else {
        wind_up_now()
    }
}

impl Phase {
    /// The phase and the action that a run begins with.
    pub fn start() -> (r: (Phase, Action))
        ensures
            r.0.deep_view() == PhaseView::Idle,
            r.1.deep_view() == ActionView::ReadClock,
    {
        (Phase::Idle, Action::ReadClock)
    }

    /// Whether the run may be ended here: between cycles, never within a
    /// stage.
    pub fn interruptible(&self) -> (r: bool)
        ensures
            r == (self.deep_view() is Idle || self.deep_view() is Sleeping || self.deep_view() is Stopped),
    {
        match self {
            Phase::Idle => true,
            Phase::Sleeping => true,
            Phase::Stopped => true,
            _ => false,
        }
    }

    /// Takes in what came of the last action: returns the phase that the
    /// cycle goes to and the action that it asks for next.
    ///
    /// The watermark that comes with the clock must lie at least seven days
    /// after the earliest instant that can be written down.
    pub fn step(self, event: Event) -> (r: (Phase, Action))
        requires
            self.deep_view() is Idle ==> (event.deep_view() matches EventView::Clock { last_update, .. }
                ==> last_update.secs - OVERLAP_SECS >= i64::MIN),
        ensures
            (r.0.deep_view(), r.1.deep_view()) == step_of(self.deep_view(), event.deep_view()),
    {
        match self {
            Phase::Idle => match event {
                Event::Clock { now, last_update } => {
                    if now.within(&last_update, MIN_SPACING_SECS) {
                        (Phase::Sleeping, Action::Sleep { secs: CYCLE_SLEEP_SECS })
                    } else {
                        let after_date = last_update.minus_secs(OVERLAP_SECS);
                        (Phase::FetchingItems { after_date }, Action::FetchItems { after_date, cursor: None })
                    }
                },
                _ => (Phase::Stopped, Action::Stop),
            },
            Phase::FetchingItems { after_date } => match event {
                Event::Items { items, cursor } => (
                    Phase::StoringItems { after_date, cursor },
                    Action::StoreItems { items },
                ),
                _ => wind_up_now(),
            },
            Phase::StoringItems { after_date, cursor } => match event {
                Event::Done => match cursor {
                    Some(c) => (
                        Phase::FetchingItems { after_date },
                        Action::FetchItems { after_date, cursor: Some(c) },
                    ),
                    None => (Phase::SelectingItems, Action::SelectItems { after_id: String::new() }),
                },
                _ => wind_up_now(),
            },
            Phase::SelectingItems => match event {
                Event::Identifiers { ids } => {
                    if ids.len() == 0 {
                        (
                            Phase::SelectingFiles,
                            Action::SelectFiles { after_id: String::new(), after_filename: String::new() },
                        )
                    } else {
                        list_item_now(ids, 0)
                    }
                },
                _ => wind_up_now(),
            },
            Phase::FetchingFiles { ids, at } => match event {
                Event::Files { files } => {
                    if at < ids.len() {
                        let identifier = ids[at].clone();
                        assert(ids.deep_view()[at as int] == identifier@);
                        (Phase::StoringFiles { ids, at }, Action::StoreFiles { identifier, files })
                    } else {
                        wind_up_now()
                    }
                },
                _ => wind_up_now(),
            },
            Phase::StoringFiles { ids, at } => match event {
                Event::Done => {
                    if at < ids.len() {
                        let identifier = ids[at].clone();
                        assert(ids.deep_view()[at as int] == identifier@);
                        (Phase::StampingItem { ids, at }, Action::StampRefresh { identifier })
                    } else {
                        wind_up_now()
                    }
                },
                _ => wind_up_now(),
            },
            Phase::StampingItem { ids, at } => match event {
                Event::Done => (Phase::Pausing { ids, at }, Action::Pause { millis: PAUSE_MILLIS }),
                _ => wind_up_now(),
            },
            Phase::Pausing { ids, at } => match event {
                Event::Done => {
                    if at < ids.len() {
                        list_item_now(ids, at + 1)
                    } else {
                        wind_up_now()
                    }
                },
                _ => wind_up_now(),
            },
            Phase::SelectingFiles => match event {
                Event::FileRows { rows } => {
                    if rows.len() == 0 {
                        (Phase::RecomputingStats, Action::RecomputeStats)
                    } else {
                        match aggregate_files(&rows) {
                            Some((jobs, assigned)) => {
                                let last = &rows[rows.len() - 1];
                                assert(rows.deep_view().last() == last.deep_view());
                                (
                                    Phase::WritingJobs {
                                        last_id: last.0.clone(),
                                        last_filename: last.1.clone(),
                                    },
                                    Action::WriteJobs { jobs, assigned },
                                )
                            },
                            None => wind_up_now(),
                        }
                    }
                },
                _ => wind_up_now(),
            },
            Phase::WritingJobs { last_id, last_filename } => match event {
                Event::Done => (
                    Phase::SelectingFiles,
                    Action::SelectFiles { after_id: last_id, after_filename: last_filename },
                ),
                _ => wind_up_now(),
            },
            Phase::RecomputingStats => match event {
                Event::Done => (Phase::SelectingJobs, Action::SelectJobs { after_id: String::new() }),
                _ => wind_up_now(),
            },
            Phase::SelectingJobs => match event {
                Event::JobIds { ids } => {
                    if ids.len() == 0 {
                        wind_up_now()
                    } else {
                        let last = ids[ids.len() - 1].clone();
                        assert(ids.deep_view().last() == last@);
                        (Phase::IndexingJobs { last }, Action::IndexJobs { job_ids: ids })
                    }
                },
                _ => wind_up_now(),
            },
            Phase::IndexingJobs { last } => match event {
                Event::Done => (Phase::SelectingJobs, Action::SelectJobs { after_id: last }),
                _ => wind_up_now(),
            },
            Phase::WritingWatermark => match event {
                Event::Done => (Phase::Sleeping, Action::Sleep { secs: CYCLE_SLEEP_SECS }),
                _ => (Phase::Stopped, Action::Stop),
            },
            Phase::Sleeping => (Phase::Idle, Action::ReadClock),
            Phase::Stopped => (Phase::Stopped, Action::Stop),
        }
    }
}

/// The stage that a phase belongs to, in the order of the cycle: the
/// items, the files, the jobs, the statistics, the search index, and the
/// watermark at the end. The phases between cycles count as 0.
pub open spec fn stage_of(phase: PhaseView) -> int {
    match phase {
        PhaseView::Idle => 0,
        PhaseView::FetchingItems { .. } => 1,
        PhaseView::StoringItems { .. } => 1,
        PhaseView::SelectingItems => 2,
        PhaseView::FetchingFiles { .. } => 2,
        PhaseView::StoringFiles { .. } => 2,
        PhaseView::StampingItem { .. } => 2,
        PhaseView::Pausing { .. } => 2,
        PhaseView::SelectingFiles => 3,
        PhaseView::WritingJobs { .. } => 3,
        PhaseView::RecomputingStats => 4,
        PhaseView::SelectingJobs => 5,
        PhaseView::IndexingJobs { .. } => 5,
        PhaseView::WritingWatermark => 6,
        PhaseView::Sleeping => 0,
        PhaseView::Stopped => 0,
    }
}

/// The phase stands within one of the five stages.
pub open spec fn in_stage(phase: PhaseView) -> bool {
    1 <= stage_of(phase) <= 5
}

/// The item that the phase works on is one of its page.
pub open spec fn phase_wf(phase: PhaseView) -> bool {
    match phase {
        PhaseView::FetchingFiles { ids, at } => 0 <= at < ids.len(),
        PhaseView::StoringFiles { ids, at } => 0 <= at < ids.len(),
        PhaseView::StampingItem { ids, at } => 0 <= at < ids.len(),
        PhaseView::Pausing { ids, at } => 0 <= at < ids.len(),
        _ => true,
    }
}

/// A cycle begins only where four hours have passed since the last one was
/// attempted: then the items added since seven days before it are asked
/// for, from the beginning of the catalog. Otherwise no stage runs, and
/// nothing is written: the run waits for six hours.
pub proof fn law_cycle_spacing(now: Timestamp, last_update: Timestamp)
    ensures
        too_soon(now, last_update) ==> step_of(PhaseView::Idle, EventView::Clock { now, last_update }) == (
            PhaseView::Sleeping,
            ActionView::Sleep { secs: CYCLE_SLEEP_SECS },
        ),
        !too_soon(now, last_update) ==> step_of(PhaseView::Idle, EventView::Clock { now, last_update }) == (
            PhaseView::FetchingItems { after_date: last_update.earlier(OVERLAP_SECS as int) },
            ActionView::FetchItems { after_date: last_update.earlier(OVERLAP_SECS as int), cursor: None },
        ),
{
}

/// Whatever fails within a stage, the stages after it are passed over and
/// the watermark is set.
pub proof fn law_failure_ends_cycle(phase: PhaseView)
    requires
        in_stage(phase),
    ensures
        step_of(phase, EventView::Failed) == wind_up(),
{
}

/// Once the watermark is set the run waits six hours, and then begins
/// again with the clock; where the watermark cannot be set, the run stops.
pub proof fn law_cycle_ends(event: EventView)
    ensures
        step_of(PhaseView::WritingWatermark, EventView::Done) == (
            PhaseView::Sleeping,
            ActionView::Sleep { secs: CYCLE_SLEEP_SECS },
        ),
        !(event is Done) ==> step_of(PhaseView::WritingWatermark, event) == (PhaseView::Stopped, ActionView::Stop),
        step_of(PhaseView::Sleeping, event) == (PhaseView::Idle, ActionView::ReadClock),
{
}

/// Within a cycle the stages follow each other in their order: no step
/// leads back to an earlier stage, and every step keeps the item it works
/// on within its page.
pub proof fn law_stages_in_order(phase: PhaseView, event: EventView)
    requires
        in_stage(phase),
        phase_wf(phase),
    ensures
        stage_of(phase) <= stage_of(step_of(phase, event).0) <= 6,
        phase_wf(step_of(phase, event).0),
{
}

/// The watermark is written in no stage: only at the end of a cycle.
pub proof fn law_watermark_at_end(phase: PhaseView, event: EventView)
    requires
        step_of(phase, event).1 is WriteWatermark,
    ensures
        step_of(phase, event).0 is WritingWatermark,
        in_stage(phase),
{
}

/// Every page is asked for from the key of the last row of the page
/// before: the files of the items, the files without a job and the jobs
/// without an index row alike.
pub proof fn law_pages_follow(
    ids: Seq<Seq<char>>,
    last_id: Seq<char>,
    last_filename: Seq<char>,
    last: Seq<char>,
)
    requires
        ids.len() > 0,
    ensures
        step_of(PhaseView::Pausing { ids, at: ids.len() - 1 }, EventView::Done) == (
            PhaseView::SelectingItems,
            ActionView::SelectItems { after_id: ids.last() },
        ),
        step_of(PhaseView::WritingJobs { last_id, last_filename }, EventView::Done) == (
            PhaseView::SelectingFiles,
            ActionView::SelectFiles { after_id: last_id, after_filename: last_filename },
        ),
        step_of(PhaseView::IndexingJobs { last }, EventView::Done) == (
            PhaseView::SelectingJobs,
            ActionView::SelectJobs { after_id: last },
        ),
{
}

} // verus!
