//! Fetching each job's address and initiator from its metadata document.
//!
//! The enrichment stands apart from the cycle: it costs one remote fetch
//! per job, so it is run on its own. It goes through the metadata files whose
//! job has no address yet, page by page in the order of their keys, and
//! waits after each file.

use vstd::prelude::*;
use crate::ia::JsonMetadata;
use crate::sync::PAUSE_MILLIS;

verus! {

/// Where the enrichment stands.
#[derive(Debug)]
pub enum EnrichPhase {
    /// A page of metadata files has been asked for.
    Selecting,
    /// File `at` of the page `rows`, each row an item, a file name and a
    /// job, has been asked for.
    Fetching { rows: Vec<(String, String, String)>, at: usize },
    /// What file `at` says is being stored.
    Storing { rows: Vec<(String, String, String)>, at: usize },
    /// The wait after file `at`.
    Pausing { rows: Vec<(String, String, String)>, at: usize },
    /// The enrichment has ended.
    Finished,
}

/// What the enrichment asks for next.
#[derive(Debug)]
pub enum EnrichAction {
    /// Read a page of the metadata files after this key whose job has no
    /// address.
    SelectMetadata { after_id: String, after_filename: String },
    /// Fetch the file and read it as a metadata document.
    FetchDocument { identifier: String, filename: String },
    /// Give the job its address and initiator.
    StoreUrl { job_id: String, url: String, started_by: String },
    /// Wait.
    Pause { millis: u64 },
    /// Nothing more: the enrichment went through all files, or it failed.
    Finish { complete: bool },
}

/// What came of the last action.
#[derive(Debug)]
pub enum EnrichEvent {
    /// A page of metadata files, each as item, name and job.
    Rows { rows: Vec<(String, String, String)> },
    /// A metadata document.
    Document { document: JsonMetadata },
    /// The action is done and has nothing to tell.
    Done,
    /// The action failed.
    Failed,
}

/// The mathematical value of an [`EnrichPhase`].
pub ghost enum EnrichPhaseView {
    Selecting,
    Fetching { rows: Seq<(Seq<char>, Seq<char>, Seq<char>)>, at: int },
    Storing { rows: Seq<(Seq<char>, Seq<char>, Seq<char>)>, at: int },
    Pausing { rows: Seq<(Seq<char>, Seq<char>, Seq<char>)>, at: int },
    Finished,
}

/// The mathematical value of an [`EnrichAction`].
pub ghost enum EnrichActionView {
    SelectMetadata { after_id: Seq<char>, after_filename: Seq<char> },
    FetchDocument { identifier: Seq<char>, filename: Seq<char> },
    StoreUrl { job_id: Seq<char>, url: Seq<char>, started_by: Seq<char> },
    Pause { millis: u64 },
    Finish { complete: bool },
}

/// The mathematical value of an [`EnrichEvent`].
pub ghost enum EnrichEventView {
    Rows { rows: Seq<(Seq<char>, Seq<char>, Seq<char>)> },
    Document { url: Option<Seq<char>>, started_by: Option<Seq<char>> },
    Done,
    Failed,
}

impl DeepView for EnrichPhase {
    type V = EnrichPhaseView;

    open spec fn deep_view(&self) -> EnrichPhaseView {
        match self {
            EnrichPhase::Selecting => EnrichPhaseView::Selecting,
            EnrichPhase::Fetching { rows, at } => EnrichPhaseView::Fetching {
                rows: rows.deep_view(),
                at: *at as int,
            },
            EnrichPhase::Storing { rows, at } => EnrichPhaseView::Storing {
                rows: rows.deep_view(),
                at: *at as int,
            },
            EnrichPhase::Pausing { rows, at } => EnrichPhaseView::Pausing {
                rows: rows.deep_view(),
                at: *at as int,
            },
            EnrichPhase::Finished => EnrichPhaseView::Finished,
        }
    }
}

impl DeepView for EnrichAction {
    type V = EnrichActionView;

    open spec fn deep_view(&self) -> EnrichActionView {
        match self {
            EnrichAction::SelectMetadata { after_id, after_filename } => EnrichActionView::SelectMetadata {
                after_id: after_id@,
                after_filename: after_filename@,
            },
            EnrichAction::FetchDocument { identifier, filename } => EnrichActionView::FetchDocument {
                identifier: identifier@,
                filename: filename@,
            },
            EnrichAction::StoreUrl { job_id, url, started_by } => EnrichActionView::StoreUrl {
                job_id: job_id@,
                url: url@,
                started_by: started_by@,
            },
            EnrichAction::Pause { millis } => EnrichActionView::Pause { millis: *millis },
            EnrichAction::Finish { complete } => EnrichActionView::Finish { complete: *complete },
        }
    }
}

impl DeepView for EnrichEvent {
    type V = EnrichEventView;

    open spec fn deep_view(&self) -> EnrichEventView {
        match self {
            EnrichEvent::Rows { rows } => EnrichEventView::Rows { rows: rows.deep_view() },
            EnrichEvent::Document { document } => EnrichEventView::Document {
                url: document.url.deep_view(),
                started_by: document.started_by.deep_view(),
            },
            EnrichEvent::Done => EnrichEventView::Done,
            EnrichEvent::Failed => EnrichEventView::Failed,
        }
    }
}

/// The text, or the empty text where there is none.
pub open spec fn or_empty(text: Option<Seq<char>>) -> Seq<char> {
    match text {
        Some(t) => t,
        None => Seq::empty(),
    }
}

/// The enrichment has failed.
pub open spec fn give_up() -> (EnrichPhaseView, EnrichActionView) {
    (EnrichPhaseView::Finished, EnrichActionView::Finish { complete: false })
}

/// File `at` of the page is asked for; after the last file of the page,
/// the next page.
pub open spec fn fetch_row(rows: Seq<(Seq<char>, Seq<char>, Seq<char>)>, at: int) -> (
    EnrichPhaseView,
    EnrichActionView,
) {
    if 0 <= at < rows.len() {
        (
            EnrichPhaseView::Fetching { rows, at },
            EnrichActionView::FetchDocument { identifier: rows[at].0, filename: rows[at].1 },
        )
    } else if rows.len() > 0 && at == rows.len() {
        (
            EnrichPhaseView::Selecting,
            EnrichActionView::SelectMetadata { after_id: rows.last().0, after_filename: rows.last().1 },
        )
    } else {
        give_up()
    }
}

/// What the enrichment does in phase `phase` when `event` comes: the phase it
/// goes to and the action it asks for.
pub open spec fn enrich_step_of(phase: EnrichPhaseView, event: EnrichEventView) -> (
    EnrichPhaseView,
    EnrichActionView,
) {
    match phase {
        EnrichPhaseView::Selecting => match event {
            EnrichEventView::Rows { rows } => if rows.len() == 0 {
                (EnrichPhaseView::Finished, EnrichActionView::Finish { complete: true })
            } else {
                fetch_row(rows, 0)
            },
            _ => give_up(),
        },
        EnrichPhaseView::Fetching { rows, at } => match event {
            EnrichEventView::Document { url, started_by } => if 0 <= at < rows.len() {
                (
                    EnrichPhaseView::Storing { rows, at },
                    EnrichActionView::StoreUrl {
                        job_id: rows[at].2,
                        url: or_empty(url),
                        started_by: or_empty(started_by),
                    },
                )
            } else {
                give_up()
            },
            _ => give_up(),
        },
        EnrichPhaseView::Storing { rows, at } => match event {
            EnrichEventView::Done => (
                EnrichPhaseView::Pausing { rows, at },
                EnrichActionView::Pause { millis: PAUSE_MILLIS },
            ),
            _ => give_up(),
        },
        EnrichPhaseView::Pausing { rows, at } => match event {
            EnrichEventView::Done => if 0 <= at < rows.len() {
                fetch_row(rows, at + 1)
            } else {
                give_up()
            },
            _ => give_up(),
        },
        EnrichPhaseView::Finished => give_up(),
    }
}

fn give_up_now() -> (r: (EnrichPhase, EnrichAction))
    ensures
        (r.0.deep_view(), r.1.deep_view()) == give_up(),
{
    (EnrichPhase::Finished, EnrichAction::Finish { complete: false })
}

fn fetch_row_now(rows: Vec<(String, String, String)>, at: usize) -> (r: (EnrichPhase, EnrichAction))
    ensures
        (r.0.deep_view(), r.1.deep_view()) == fetch_row(rows.deep_view(), at as int),
{
    if at < rows.len() {
        let identifier = rows[at].0.clone();
        let filename = rows[at].1.clone();
        assert(rows.deep_view()[at as int] == rows[at as int].deep_view());
        (EnrichPhase::Fetching { rows, at }, EnrichAction::FetchDocument { identifier, filename })
    } else if rows.len() > 0 && at == rows.len() {
        let after_id = rows[rows.len() - 1].0.clone();
        let after_filename = rows[rows.len() - 1].1.clone();
        assert(rows.deep_view().last() == rows[rows.len() - 1].deep_view());
        (EnrichPhase::Selecting, EnrichAction::SelectMetadata { after_id, after_filename })
    } else {
        give_up_now()
    }
}

impl EnrichPhase {
    /// The phase and the action that the enrichment begins with.
    pub fn start() -> (r: (EnrichPhase, EnrichAction))
        ensures
            r.0.deep_view() == EnrichPhaseView::Selecting,
            r.1.deep_view() == (EnrichActionView::SelectMetadata {
                after_id: Seq::empty(),
                after_filename: Seq::empty(),
            }),
    {
        (
            EnrichPhase::Selecting,
            EnrichAction::SelectMetadata { after_id: String::new(), after_filename: String::new() },
        )
    }

    /// Takes in what came of the last action: returns the phase that the
    /// enrichment goes to and the action that it asks for next.
    pub fn step(self, event: EnrichEvent) -> (r: (EnrichPhase, EnrichAction))
        ensures
            (r.0.deep_view(), r.1.deep_view()) == enrich_step_of(self.deep_view(), event.deep_view()),
    {
        match self {
            EnrichPhase::Selecting => match event {
                EnrichEvent::Rows { rows } => {
                    if rows.len() == 0 {
                        (EnrichPhase::Finished, EnrichAction::Finish { complete: true })
                    } else {
                        fetch_row_now(rows, 0)
                    }
                },
                _ => give_up_now(),
            },
            EnrichPhase::Fetching { rows, at } => match event {
                EnrichEvent::Document { document } => {
                    if at < rows.len() {
                        let job_id = rows[at].2.clone();
                        assert(rows.deep_view()[at as int] == rows[at as int].deep_view());
                        let url = document.url_or_empty();
                        let started_by = document.started_by_or_empty();
                        (EnrichPhase::Storing { rows, at }, EnrichAction::StoreUrl { job_id, url, started_by })
                    } else {
                        give_up_now()
                    }
                },
                _ => give_up_now(),
            },
            EnrichPhase::Storing { rows, at } => match event {
                EnrichEvent::Done => (
                    EnrichPhase::Pausing { rows, at },
                    EnrichAction::Pause { millis: PAUSE_MILLIS },
                ),
                _ => give_up_now(),
            },
            EnrichPhase::Pausing { rows, at } => match event {
                EnrichEvent::Done => {
                    if at < rows.len() {
                        fetch_row_now(rows, at + 1)
                    } else {
                        give_up_now()
                    }
                },
                _ => give_up_now(),
            },
            EnrichPhase::Finished => give_up_now(),
        }
    }
}

} // verus!
