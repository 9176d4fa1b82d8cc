//! What the pages need beside the store: paging, the defaults of a search
//! request, the running total of the statistics, and the status that an
//! empty listing or a failure is answered with.

use vstd::prelude::*;
use crate::text::same_text;
use crate::time::Date;

verus! {

/// Number of rows on one listing page.
pub const PAGE_LIMIT: i64 = 1000;

/// The parameters of a search request.
#[derive(Debug, Clone)]
pub struct SearchQuery {
    /// What is looked for.
    pub q: String,
    /// Which columns are searched: `"full"` for domains and addresses,
    /// anything else for domains alone.
    pub match_mode: String,
}

impl SearchQuery {
    /// The columns that a request searches when it does not say: the
    /// domains.
    pub fn match_default() -> (r: String)
        ensures
            r@ == "domain"@,
    {
        "domain".to_owned()
    }
}

/// A one-based page number taken from a request.
#[derive(Debug, Clone, Copy, PartialEq, Eq)]
pub struct Pagination {
    pub page: i32,
}

impl Pagination {
    /// The rows before this page: a thousand for every page before it.
    pub open spec fn spec_offset(self) -> int {
        (self.page as int - 1) * 1000
    }

    /// Row offset of the first entry of this page.
    pub fn offset(&self) -> (r: i64)
        ensures
            r as int == self.spec_offset(),
    {
        let page: i64 = self.page as i64;
        (page - 1) * PAGE_LIMIT
    }
}

/// What the backend does while the pages are served.
#[derive(Debug, Clone, Copy, PartialEq, Eq, Structural)]
pub enum BackendAction {
    /// Keep the store in step with the remote catalog.
    Live,
    /// Load the test data.
    Dev,
    /// Leave the store as it is.
    Disabled,
}

impl BackendAction {
    /// The action that `name` names.
    pub open spec fn named(name: Seq<char>) -> Option<BackendAction> {
        if name == "live"@ {
            Some(BackendAction::Live)
        } else if name == "dev"@ {
            Some(BackendAction::Dev)
        } else if name == "none"@ {
            Some(BackendAction::Disabled)
        } else {
            None
        }
    }

    /// The name of the action.
    pub open spec fn spec_name(self) -> Seq<char> {
        match self {
            BackendAction::Live => "live"@,
            BackendAction::Dev => "dev"@,
            BackendAction::Disabled => "none"@,
        }
    }

    /// The action that `value` names, if it names one.
    pub fn parse(value: &str) -> (r: Option<BackendAction>)
        ensures
            r == BackendAction::named(value@),
    {
        if same_text(value, "live") {
            Some(BackendAction::Live)
        } else if same_text(value, "dev") {
            Some(BackendAction::Dev)
        } else if same_text(value, "none") {
            Some(BackendAction::Disabled)
        } else {
            None
        }
    }

    /// The name of the action.
    pub fn name(&self) -> (r: &'static str)
        ensures
            r@ == self.spec_name(),
    {
        match self {
            BackendAction::Live => "live",
            BackendAction::Dev => "dev",
            BackendAction::Disabled => "none",
        }
    }
}

/// Every action is the one that its name names.
pub proof fn law_action_names(action: BackendAction)
    ensures
        BackendAction::named(action.spec_name()) == Some(action),
{
    reveal_strlit("live");
    reveal_strlit("dev");
    reveal_strlit("none");
    assert("dev"@.len() == 3);
    assert("live"@.len() == 4);
    assert("none"@[0] == 'n');
    assert("live"@[0] == 'l');
}

/// Why a page could not be served.
#[derive(Debug, Clone, Copy, PartialEq, Eq, Structural)]
pub struct HandlerError {
    /// The core failed.
    pub failed: bool,
    /// The status to answer with, where there is one.
    pub status_code: Option<u16>,
}

impl HandlerError {
    /// The error that answers with `status_code`.
    pub fn new_status_code(status_code: u16) -> (r: HandlerError)
        ensures
            r == (HandlerError { failed: false, status_code: Some(status_code) }),
    {
        HandlerError { failed: false, status_code: Some(status_code) }
    }

    /// The status that the error is answered with: 500 where the core
    /// failed or no status was given, else the status given.
    pub fn status(&self) -> (r: u16)
        ensures
            r == if self.failed {
                500u16
            } else {
                match self.status_code {
                    Some(code) => code,
                    None => 500u16,
                }
            },
    {
        if self.failed {
            500
        } else {
            match self.status_code {
                Some(code) => code,
                None => 500,
            }
        }
    }
}

/// The status of a listing with `count` rows: an empty listing is not
/// found.
pub fn listing_status(count: usize) -> (r: u16)
    ensures
        r == if count == 0 {
            404u16
        } else {
            200u16
        },
{
    if count == 0 {
        404
    } else {
        200
    }
}

/// The bytes of the first `n` days.
pub open spec fn total_upto(rows: Seq<(Date, i64)>, n: int) -> int
    decreases n,
{
    if n <= 0 {
        0
    } else {
        total_upto(rows, n - 1) + rows[n - 1].1
    }
}

/// Every running total of the first `n` days fits a 64-bit integer.
pub open spec fn totals_fit(rows: Seq<(Date, i64)>, n: int) -> bool {
    forall|k: int| 0 <= k <= n ==> i64::MIN <= #[trigger] total_upto(rows, k) <= i64::MAX
}

/// The daily statistics with their running total: each day with its bytes
/// and the bytes of all days up to it. `None` where a running total does
/// not fit a 64-bit integer.
pub fn running_totals(rows: &Vec<(Date, i64)>) -> (r: Option<Vec<(Date, i64, i64)>>)
    ensures
        r is Some <==> totals_fit(rows@, rows.len() as int),
        r matches Some(out) ==> out.len() == rows.len() && forall|i: int|
            0 <= i < out.len() ==> (#[trigger] out[i]) == (rows[i].0, rows[i].1, total_upto(rows@, i + 1) as i64),
{
    let mut out: Vec<(Date, i64, i64)> = Vec::new();
    let mut total: i64 = 0;
    let mut i: usize = 0;
    while i < rows.len()
        invariant
            i <= rows.len(),
            out.len() == i,
            total == total_upto(rows@, i as int),
            totals_fit(rows@, i as int),
            forall|j: int|
                0 <= j < i ==> (#[trigger] out[j]) == (rows[j].0, rows[j].1, total_upto(rows@, j + 1) as i64),
        decreases rows.len() - i,
    {
        let row = rows[i];
        let sum: i128 = total as i128 + row.1 as i128;
        if sum < -0x8000_0000_0000_0000i128 || sum > 0x7fff_ffff_ffff_ffffi128 {
            assert(!(i64::MIN <= total_upto(rows@, i + 1) <= i64::MAX));
            return None;
        }
        total = sum as i64;
        out.push((row.0, row.1, total));
        assert forall|k: int| 0 <= k <= i + 1 implies i64::MIN <= #[trigger] total_upto(rows@, k)
            <= i64::MAX by {
            if k <= i {
                assert(totals_fit(rows@, i as int));
            }
        }
        i += 1;
    }
    Some(out)
}

} // verus!
