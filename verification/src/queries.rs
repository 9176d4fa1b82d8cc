//! Reading the metadata store: listings, audits and searches.

use vstd::prelude::*;
use crate::database::{Database, StoreError};
use crate::fts::{contains_phrase, listed, tokens, words};
use crate::model::{
    bytes_of_nick, domain_hit, domains_of, file_columns, first_match, full_hit, holds_row, id_and_domain,
    id_and_url, in_domain, item_identifier, job_columns, lacks_jsons, lacks_warcs, leaderboard, name_job_size,
    named_by, nick_of, nicks_of, of_item, of_job, rank_place, search_rows, short_of, stat_columns,
};
use crate::records::{FileRecord, ItemRecord, JobRecord, JobView};
use crate::model::{file_of, item_of, job_of};
use crate::table::locate;
use crate::table::{ascending, insert_absent, keys_of, lemma_filter_none, lemma_filter_step, window, window_of, lemma_window_views};
use crate::text::{chars_of, lower, same_text};
use crate::time::Date;

verus! {

/// The first match is the first row that `keep` holds of.
proof fn lemma_first_match<V>(rows: Seq<V>, keep: spec_fn(V) -> bool, i: int)
    requires
        0 <= i <= rows.len(),
        forall|j: int| 0 <= j < i ==> !keep(#[trigger] rows[j]),
        i < rows.len() ==> keep(rows[i]),
    ensures
        first_match(rows, keep) == if i < rows.len() {
            Some(rows[i])
        } else {
            None
        },
    decreases rows.len(),
{
    if rows.len() > 0 && i > 0 {
        let rest = rows.drop_first();
        assert(!keep(rows[0]));
        assert forall|j: int| 0 <= j < i - 1 implies !keep(#[trigger] rest[j]) by {
            assert(rest[j] == rows[j + 1]);
        }
        lemma_first_match(rest, keep, i - 1);
    }
}

/// The position of the job that holds the index row `row`.
fn holder_of(jobs: &Vec<JobRecord>, row: i64) -> (r: Option<usize>)
    ensures
        match r {
            Some(i) => i < jobs.len() && first_match(jobs.deep_view(), holds_row(row)) == Some(
                jobs.deep_view()[i as int],
            ),
            None => first_match(jobs.deep_view(), holds_row(row)) is None,
        },
{
    let ghost rows = jobs.deep_view();
    let mut i: usize = 0;
    while i < jobs.len()
        invariant
            i <= jobs.len(),
            rows == jobs.deep_view(),
            forall|j: int| 0 <= j < i ==> !holds_row(row)(#[trigger] rows[j]),
        decreases jobs.len() - i,
    {
        assert(rows[i as int] == jobs[i as int].deep_view());
        if jobs[i].search_id == Some(row) {
            proof {
                lemma_first_match(rows, holds_row(row), i as int);
            }
            return Some(i);
        }
        i += 1;
    }
    proof {
        lemma_first_match(rows, holds_row(row), i as int);
    }
    None
}

/// The name under which the bytes of a job started by `started_by` count.
fn nick(started_by: &str) -> (r: String)
    ensures
        r@ == nick_of(started_by@),
{
    let v = chars_of(started_by);
    let n: usize = if v.len() > 4 {
        4
    } else {
        v.len()
    };
    let ghost head = if v@.len() > 4 {
        v@.take(4)
    } else {
        v@
    };
    let mut r = String::new();
    let mut i: usize = 0;
    while i < n
        invariant
            i <= n <= v.len(),
            n == head.len(),
            head =~= v@.take(n as int),
            r@ =~= crate::text::ascii_lowered(head).take(i as int),
        decreases n - i,
    {
        r.push(lower(v[i]));
        i += 1;
    }
    assert(crate::text::ascii_lowered(head).take(i as int) =~= crate::text::ascii_lowered(head));
    r
}

/// A board did not fill up to position `n` will not fill up any further.
proof fn lemma_leaderboard_fails(jobs: Seq<JobView>, nicks: Seq<Seq<char>>, n: int, m: int)
    requires
        0 <= n <= m,
        leaderboard(jobs, nicks, n) is None,
    ensures
        leaderboard(jobs, nicks, m) is None,
    decreases m - n,
{
    if n < m {
        lemma_leaderboard_fails(jobs, nicks, n, m - 1);
    }
}

/// The place of a row on the board is where the rows with no fewer bytes
/// end.
proof fn lemma_rank_place(board: Seq<(Seq<char>, i64)>, size: i64, p: int)
    requires
        0 <= p <= board.len(),
        forall|j: int| 0 <= j < p ==> (#[trigger] board[j]).1 >= size,
        p < board.len() ==> board[p].1 < size,
    ensures
        rank_place(board, size) == p,
    decreases board.len(),
{
    if board.len() > 0 && p > 0 {
        let rest = board.drop_first();
        assert(board[0].1 >= size);
        assert forall|j: int| 0 <= j < p - 1 implies (#[trigger] rest[j]).1 >= size by {
            assert(rest[j] == board[j + 1]);
        }
        lemma_rank_place(rest, size, p - 1);
    }
}

/// The bytes of the jobs that count under `name`, where they fit a 64-bit
/// integer.
fn nick_total(jobs: &Vec<JobRecord>, name: &str) -> (r: Option<i64>)
    ensures
        match r {
            Some(t) => t == bytes_of_nick(jobs.deep_view(), name@),
            None => {
                let t = bytes_of_nick(jobs.deep_view(), name@);
                t < i64::MIN || t > i64::MAX
            },
        },
{
    let ghost rows = jobs.deep_view();
    let mut total: i128 = 0;
    let mut i: usize = 0;
    while i < jobs.len()
        invariant
            i <= jobs.len(),
            rows == jobs.deep_view(),
            total == bytes_of_nick(rows.take(i as int), name@),
            -i * 0x8000_0000_0000_0000 <= total <= i * 0x8000_0000_0000_0000,
        decreases jobs.len() - i,
    {
        let job = &jobs[i];
        proof {
            assert(rows.take(i + 1).drop_last() =~= rows.take(i as int));
            assert(rows.take(i + 1).last() == job.deep_view());
        }
        let who = nick(job.started_by.as_str());
        if same_text(who.as_str(), name) {
            total = total + job.size as i128;
        }
        i += 1;
    }
    assert(rows.take(i as int) =~= rows);
    if total < -0x8000_0000_0000_0000i128 || total > 0x7fff_ffff_ffff_ffffi128 {
        None
    } else {
        Some(total as i64)
    }
}

/// The short identifier that a query names a job by beside the query
/// itself: its first five characters, or all of it where it is shorter.
/// `None` where the query holds a character outside ASCII: it names no job
/// then.
pub fn short_query(query: &str) -> (r: Option<String>)
    ensures
        r.deep_view() == if vstd::utf8::is_ascii_chars(query@) {
            Some(short_of(query@))
        } else {
            None
        },
{
    if !query.is_ascii() {
        return None;
    }
    let n: usize = query.unicode_len();
    if n > 5 {
        Some(query.substring_char(0, 5).to_owned())
    } else {
        Some(query.to_owned())
    }
}

/// The jobs among `jobs` that lack a kind of file, as identifier and domain.
fn lacking(jobs: &Vec<JobRecord>, jsons: bool) -> (r: Vec<(String, String)>)
    ensures
        r.deep_view() == jobs.deep_view().filter(
            if jsons {
                lacks_jsons()
            } else {
                lacks_warcs()
            },
        ).map_values(id_and_domain()),
{
    let ghost keep = if jsons {
        lacks_jsons()
    } else {
        lacks_warcs()
    };
    let ghost rows = jobs.deep_view();
    let mut out: Vec<(String, String)> = Vec::new();
    let mut i: usize = 0;
    proof {
        lemma_filter_none(keep);
        assert(rows.take(0) =~= Seq::empty());
    }
    while i < jobs.len()
        invariant
            i <= jobs.len(),
            rows == jobs.deep_view(),
            keep == if jsons {
                lacks_jsons()
            } else {
                lacks_warcs()
            },
            out.deep_view() =~= rows.take(i as int).filter(keep).map_values(id_and_domain()),
        decreases jobs.len() - i,
    {
        let job = &jobs[i];
        proof {
            lemma_filter_step(rows, keep, i as int);
            assert(rows[i as int] == job.deep_view());
        }
        let ghost picked = rows.take(i as int).filter(keep);
        let lacks = if jsons {
            job.jsons == 0
        } else {
            job.warcs == 0
        };
        if lacks {
            out.push((job.id.clone(), job.domain.clone()));
            assert(picked.push(rows[i as int]).map_values(id_and_domain()) =~= picked.map_values(
                id_and_domain(),
            ).push((rows[i as int].id, rows[i as int].domain)));
        }
        i += 1;
    }
    assert(rows.take(i as int) =~= rows);
    out
}

impl Database {
    /// The jobs without a metadata document, as identifier and domain.
    pub fn get_no_json_jobs(&self) -> (r: Vec<(String, String)>)
        ensures
            r.deep_view() == self@.no_json_jobs(),
    {
        proof {
            self.lemma_view();
        }
        lacking(&self.jobs, true)
    }

    /// The jobs without an archive, as identifier and domain.
    pub fn get_no_warc_jobs(&self) -> (r: Vec<(String, String)>)
        ensures
            r.deep_view() == self@.no_warc_jobs(),
    {
        proof {
            self.lemma_view();
        }
        lacking(&self.jobs, false)
    }

    /// The statistics, as day and bytes, ascending by day.
    pub fn get_daily_stats(&self) -> (r: Vec<(Date, i64)>)
        ensures
            r@ == self@.daily_stat_rows(),
    {
        proof {
            self.lemma_view();
        }
        let mut out: Vec<(Date, i64)> = Vec::new();
        let mut i: usize = 0;
        while i < self.daily_stats.len()
            invariant
                i <= self.daily_stats.len(),
                out@ =~= self.daily_stats@.take(i as int).map_values(stat_columns()),
            decreases self.daily_stats.len() - i,
        {
            let stat = self.daily_stats[i];
            out.push((stat.date, stat.size));
            i += 1;
        }
        assert(self.daily_stats@.take(i as int) =~= self.daily_stats@);
        out
    }

    /// The jobs of domain `domain`, as identifier and address.
    pub fn get_jobs_by_domain(&self, domain: &str) -> (r: Vec<(String, String)>)
        ensures
            r.deep_view() == self@.jobs_by_domain(domain@),
    {
        proof {
            self.lemma_view();
        }
        let ghost keep = in_domain(domain@);
        let ghost rows = self.jobs.deep_view();
        let mut out: Vec<(String, String)> = Vec::new();
        let mut i: usize = 0;
        proof {
            lemma_filter_none(keep);
            assert(rows.take(0) =~= Seq::empty());
        }
        while i < self.jobs.len()
            invariant
                i <= self.jobs.len(),
                rows == self.jobs.deep_view(),
                keep == in_domain(domain@),
                out.deep_view() =~= rows.take(i as int).filter(keep).map_values(id_and_url()),
            decreases self.jobs.len() - i,
        {
            let job = &self.jobs[i];
            proof {
                lemma_filter_step(rows, keep, i as int);
                assert(rows[i as int] == job.deep_view());
            }
            let ghost picked = rows.take(i as int).filter(keep);
            if same_text(job.domain.as_str(), domain) {
                out.push((job.id.clone(), job.url.clone()));
                assert(picked.push(rows[i as int]).map_values(id_and_url()) =~= picked.map_values(
                    id_and_url(),
                ).push((rows[i as int].id, rows[i as int].url)));
            }
            i += 1;
        }
        assert(rows.take(i as int) =~= rows);
        out
    }

    /// The files of job `job_id`, as item, name and size.
    pub fn get_files_by_job(&self, job_id: &str) -> (r: Vec<(String, String, i64)>)
        ensures
            r.deep_view() == self@.files_by_job(job_id@),
    {
        proof {
            self.lemma_view();
        }
        let ghost keep = of_job(job_id@);
        let ghost rows = self.files.deep_view();
        let mut out: Vec<(String, String, i64)> = Vec::new();
        let mut i: usize = 0;
        proof {
            lemma_filter_none(keep);
            assert(rows.take(0) =~= Seq::empty());
        }
        while i < self.files.len()
            invariant
                i <= self.files.len(),
                rows == self.files.deep_view(),
                keep == of_job(job_id@),
                out.deep_view() =~= rows.take(i as int).filter(keep).map_values(file_columns()),
            decreases self.files.len() - i,
        {
            let file = &self.files[i];
            proof {
                lemma_filter_step(rows, keep, i as int);
                assert(rows[i as int] == file.deep_view());
            }
            let ghost picked = rows.take(i as int).filter(keep);
            let of_it = match &file.job_id {
                Some(job) => same_text(job.as_str(), job_id),
                None => false,
            };
            if of_it {
                out.push((file.ia_item_id.clone(), file.filename.clone(), file.size));
                assert(picked.push(rows[i as int]).map_values(file_columns()) =~= picked.map_values(
                    file_columns(),
                ).push((rows[i as int].ia_item_id, rows[i as int].filename, rows[i as int].size)));
            }
            i += 1;
        }
        assert(rows.take(i as int) =~= rows);
        out
    }

    /// The files of item `identifier`, as name, job and size; the job of a
    /// file that has none is the empty text.
    pub fn get_files_by_item(&self, identifier: &str) -> (r: Vec<(String, String, i64)>)
        ensures
            r.deep_view() == self@.files_by_item(identifier@),
    {
        proof {
            self.lemma_view();
        }
        let ghost keep = of_item(identifier@);
        let ghost rows = self.files.deep_view();
        let mut out: Vec<(String, String, i64)> = Vec::new();
        let mut i: usize = 0;
        proof {
            lemma_filter_none(keep);
            assert(rows.take(0) =~= Seq::empty());
        }
        while i < self.files.len()
            invariant
                i <= self.files.len(),
                rows == self.files.deep_view(),
                keep == of_item(identifier@),
                out.deep_view() =~= rows.take(i as int).filter(keep).map_values(name_job_size()),
            decreases self.files.len() - i,
        {
            let file = &self.files[i];
            proof {
                lemma_filter_step(rows, keep, i as int);
                assert(rows[i as int] == file.deep_view());
            }
            let ghost picked = rows.take(i as int).filter(keep);
            if same_text(file.ia_item_id.as_str(), identifier) {
                let job = match &file.job_id {
                    Some(job) => job.clone(),
                    None => String::new(),
                };
                out.push((file.filename.clone(), job, file.size));
                assert(picked.push(rows[i as int]).map_values(name_job_size()) =~= picked.map_values(
                    name_job_size(),
                ).push(name_job_size()(rows[i as int])));
            }
            i += 1;
        }
        assert(rows.take(i as int) =~= rows);
        out
    }

    /// A window of the items' identifiers, ascending.
    pub fn get_items(&self, limit: i64, offset: i64) -> (r: Vec<String>)
        ensures
            r.deep_view() == self@.item_ids(limit, offset),
    {
        proof {
            self.lemma_view();
        }
        let ghost rows = self.items.deep_view();
        let mut out: Vec<String> = Vec::new();
        let mut i: usize = 0;
        while i < self.items.len()
            invariant
                i <= self.items.len(),
                rows == self.items.deep_view(),
                out.deep_view() =~= rows.take(i as int).map_values(item_identifier()),
            decreases self.items.len() - i,
        {
            assert(rows[i as int] == self.items[i as int].deep_view());
            let ghost before = out.deep_view();
            out.push(self.items[i].identifier.clone());
            assert(out.deep_view() =~= before.push(rows[i as int].identifier));
            i += 1;
        }
        assert(rows.take(i as int) =~= rows);
        let ghost all = out;
        let kept = window_of(out, limit, offset);
        proof {
            lemma_window_views(all, kept, limit, offset);
        }
        kept
    }

    /// A window of the jobs, as identifier, domain and address, ascending
    /// by identifier.
    pub fn get_jobs(&self, limit: i64, offset: i64) -> (r: Vec<(String, String, String)>)
        ensures
            r.deep_view() == self@.job_rows(limit, offset),
    {
        proof {
            self.lemma_view();
        }
        let ghost rows = self.jobs.deep_view();
        let mut out: Vec<(String, String, String)> = Vec::new();
        let mut i: usize = 0;
        while i < self.jobs.len()
            invariant
                i <= self.jobs.len(),
                rows == self.jobs.deep_view(),
                out.deep_view() =~= rows.take(i as int).map_values(job_columns()),
            decreases self.jobs.len() - i,
        {
            let job = &self.jobs[i];
            assert(rows[i as int] == job.deep_view());
            let ghost before = out.deep_view();
            out.push((job.id.clone(), job.domain.clone(), job.url.clone()));
            assert(out.deep_view() =~= before.push((rows[i as int].id, rows[i as int].domain, rows[i as int].url)));
            i += 1;
        }
        assert(rows.take(i as int) =~= rows);
        let ghost all = out;
        let kept = window_of(out, limit, offset);
        proof {
            lemma_window_views(all, kept, limit, offset);
        }
        kept
    }

    /// A window of the jobs that `query` names by their identifier, or by
    /// their short identifier with its first five characters, ascending by
    /// identifier. A query with a character outside ASCII names none.
    pub fn search_job_id(&self, query: &str, offset: i64, limit: i64) -> (r: Vec<(String, String, String)>)
        ensures
            r.deep_view() == self@.search_job_id(query@, offset, limit),
    {
        proof {
            self.lemma_view();
        }
        let short_id = match short_query(query) {
            Some(short) => short,
            None => {
                let out: Vec<(String, String, String)> = Vec::new();
                assert(out.deep_view() =~= Seq::empty());
                return out;
            },
        };
        let short = short_id.as_str();
        let ghost keep = named_by(query@);
        let ghost rows = self.jobs.deep_view();
        let mut out: Vec<(String, String, String)> = Vec::new();
        let mut i: usize = 0;
        proof {
            lemma_filter_none(keep);
            assert(rows.take(0) =~= Seq::empty());
        }
        while i < self.jobs.len()
            invariant
                i <= self.jobs.len(),
                rows == self.jobs.deep_view(),
                keep == named_by(query@),
                short@ == short_of(query@),
                out.deep_view() =~= rows.take(i as int).filter(keep).map_values(job_columns()),
            decreases self.jobs.len() - i,
        {
            let job = &self.jobs[i];
            proof {
                lemma_filter_step(rows, keep, i as int);
                assert(rows[i as int] == job.deep_view());
            }
            let ghost picked = rows.take(i as int).filter(keep);
            if same_text(job.id.as_str(), query) || same_text(job.short_id.as_str(), short) {
                out.push((job.id.clone(), job.domain.clone(), job.url.clone()));
                assert(picked.push(rows[i as int]).map_values(job_columns()) =~= picked.map_values(
                    job_columns(),
                ).push((rows[i as int].id, rows[i as int].domain, rows[i as int].url)));
            }
            i += 1;
        }
        assert(rows.take(i as int) =~= rows);
        let ghost all = out;
        let kept = window_of(out, limit, offset);
        proof {
            lemma_window_views(all, kept, limit, offset);
        }
        kept
    }

    /// The rows of the search index whose domain matches `domain` or, where
    /// `url` is given, whose address matches it, each with the job that
    /// holds it.
    fn hits(&self, domain: &str, url: Option<&str>) -> (r: Vec<(String, String, String)>)
        ensures
            r.deep_view() == search_rows(
                self@.jobs,
                self@.search_index,
                match url {
                    Some(u) => full_hit(domain@, u@),
                    None => domain_hit(domain@),
                },
            ),
    {
        proof {
            self.lemma_view();
        }
        let ghost hit = match url {
            Some(u) => full_hit(domain@, u@),
            None => domain_hit(domain@),
        };
        let ghost jobs = self.jobs.deep_view();
        let ghost index = self.search_index.deep_view();
        let domain_words = words(domain);
        let url_words = match url {
            Some(u) => Some(words(u)),
            None => None,
        };
        let mut out: Vec<(String, String, String)> = Vec::new();
        let mut i: usize = 0;
        while i < self.search_index.len()
            invariant
                i <= self.search_index.len(),
                jobs == self.jobs.deep_view(),
                index == self.search_index.deep_view(),
                hit == match url {
                    Some(u) => full_hit(domain@, u@),
                    None => domain_hit(domain@),
                },
                listed(domain_words) == tokens(domain@),
                match url {
                    Some(u) => url_words is Some && listed(url_words->0) == tokens(u@),
                    None => url_words is None,
                },
                out.deep_view() =~= search_rows(jobs, index.take(i as int), hit),
            decreases self.search_index.len() - i,
        {
            let entry = &self.search_index[i];
            proof {
                assert(index.take(i + 1).drop_last() =~= index.take(i as int));
                assert(index.take(i + 1).last() == entry.deep_view());
            }
            let mut found = contains_phrase(&words(entry.domain.as_str()), &domain_words);
            if !found {
                found = match &url_words {
                    Some(w) => contains_phrase(&words(entry.url.as_str()), w),
                    None => false,
                };
            }
            assert(found == hit(entry.deep_view()));
            if found {
                match holder_of(&self.jobs, entry.rowid) {
                    Some(at) => {
                        let ghost before = out.deep_view();
                        assert(jobs[at as int] == self.jobs[at as int].deep_view());
                        out.push((self.jobs[at].id.clone(), entry.domain.clone(), entry.url.clone()));
                        assert(out.deep_view() =~= before.push(
                            (jobs[at as int].id, entry.domain@, entry.url@),
                        ));
                    },
                    None => {},
                }
            }
            i += 1;
        }
        assert(index.take(i as int) =~= index);
        out
    }

    /// A window of the jobs whose indexed domain matches `query`, in the
    /// order of the index.
    pub fn search_domain(&self, query: &str, offset: i64, limit: i64) -> (r: Vec<(String, String, String)>)
        ensures
            r.deep_view() == self@.search_domain(query@, offset, limit),
    {
        let out = self.hits(query, None);
        let ghost all = out;
        let kept = window_of(out, limit, offset);
        proof {
            lemma_window_views(all, kept, limit, offset);
        }
        kept
    }

    /// A window of the jobs whose indexed domain matches `query_domain` or
    /// whose indexed address matches `query_url`, in the order of the
    /// index.
    pub fn search_full(&self, query_domain: &str, query_url: &str, offset: i64, limit: i64) -> (r: Vec<
        (String, String, String),
    >)
        ensures
            r.deep_view() == self@.search_full(query_domain@, query_url@, offset, limit),
    {
        let out = self.hits(query_domain, Some(query_url));
        let ghost all = out;
        let kept = window_of(out, limit, offset);
        proof {
            lemma_window_views(all, kept, limit, offset);
        }
        kept
    }

    /// A window of the jobs' domains, each once, ascending.
    pub fn get_domains(&self, limit: i64, offset: i64) -> (r: Vec<String>)
        ensures
            r.deep_view() == self@.domains(limit, offset),
    {
        proof {
            self.lemma_view();
        }
        let ghost rows = self.jobs.deep_view();
        let mut out: Vec<String> = Vec::new();
        let mut i: usize = 0;
        assert(rows.take(0) =~= Seq::empty());
        assert(out.deep_view() =~= Seq::empty());
        assert(keys_of::<String>(out.deep_view()) =~= Seq::empty());
        while i < self.jobs.len()
            invariant
                i <= self.jobs.len(),
                rows == self.jobs.deep_view(),
                out.deep_view() == domains_of(rows.take(i as int)),
                ascending(keys_of::<String>(out.deep_view())),
            decreases self.jobs.len() - i,
        {
            proof {
                assert(rows.take(i + 1).drop_last() =~= rows.take(i as int));
                assert(rows.take(i + 1).last() == self.jobs[i as int].deep_view());
            }
            insert_absent(&mut out, self.jobs[i].domain.clone());
            i += 1;
        }
        assert(rows.take(i as int) =~= rows);
        let ghost all = out;
        let kept = window_of(out, limit, offset);
        proof {
            lemma_window_views(all, kept, limit, offset);
        }
        kept
    }

    /// The bytes of the jobs by the first four characters of who started
    /// them, in lower case, the most bytes first; names with the same
    /// bytes ascend. Fails where the bytes of a name do not fit a 64-bit
    /// integer.
    pub fn get_cost_leaderboard(&self) -> (r: Result<Vec<(String, i64)>, StoreError>)
        ensures
            match r {
                Ok(board) => self@.cost_leaderboard() == Some(board.deep_view()),
                Err(e) => e == StoreError::OutOfRange && self@.cost_leaderboard() is None,
            },
    {
        proof {
            self.lemma_view();
        }
        let ghost rows = self.jobs.deep_view();
        let mut nicks: Vec<String> = Vec::new();
        let mut i: usize = 0;
        assert(rows.take(0) =~= Seq::empty());
        assert(nicks.deep_view() =~= Seq::empty());
        assert(keys_of::<String>(nicks.deep_view()) =~= Seq::empty());
        while i < self.jobs.len()
            invariant
                i <= self.jobs.len(),
                rows == self.jobs.deep_view(),
                nicks.deep_view() == nicks_of(rows.take(i as int)),
                ascending(keys_of::<String>(nicks.deep_view())),
            decreases self.jobs.len() - i,
        {
            proof {
                assert(rows.take(i + 1).drop_last() =~= rows.take(i as int));
                assert(rows.take(i + 1).last() == self.jobs[i as int].deep_view());
            }
            insert_absent(&mut nicks, nick(self.jobs[i].started_by.as_str()));
            i += 1;
        }
        assert(rows.take(i as int) =~= rows);
        let ghost names = nicks.deep_view();
        let mut board: Vec<(String, i64)> = Vec::new();
        let mut n: usize = 0;
        assert(board.deep_view() =~= Seq::empty());
        while n < nicks.len()
            invariant
                n <= nicks.len(),
                rows == self.jobs.deep_view(),
                names == nicks.deep_view(),
                names == nicks_of(rows),
                self@.jobs == rows,
                leaderboard(rows, names, n as int) == Some(board.deep_view()),
            decreases nicks.len() - n,
        {
            let name = &nicks[n];
            assert(names[n as int] == name@);
            let total = match nick_total(&self.jobs, name.as_str()) {
                Some(total) => total,
                None => {
                    proof {
                        assert(leaderboard(rows, names, n + 1) is None);
                        lemma_leaderboard_fails(rows, names, n + 1, names.len() as int);
                    }
                    return Err(StoreError::OutOfRange);
                },
            };
            let ghost before = board.deep_view();
            let mut p: usize = 0;
            while p < board.len() && board[p].1 >= total
                invariant
                    p <= board.len(),
                    before == board.deep_view(),
                    forall|j: int| 0 <= j < p ==> (#[trigger] before[j]).1 >= total,
                decreases board.len() - p,
            {
                assert(before[p as int] == board[p as int].deep_view());
                p += 1;
            }
            proof {
                if p < board.len() {
                    assert(before[p as int] == board[p as int].deep_view());
                }
                lemma_rank_place(before, total, p as int);
            }
            board.insert(p, (name.clone(), total));
            assert(board.deep_view() =~= before.insert(p as int, (name@, total)));
            n += 1;
        }
        Ok(board)
    }

    /// The item with identifier `identifier`, if the store holds it.
    pub fn item(&self, identifier: &str) -> (r: Option<ItemRecord>)
        requires
            self.wf(),
        ensures
            r.deep_view() == item_of(self@.items, identifier@),
    {
        proof {
            self.lemma_view();
            reveal_strlit("");
            assert(""@ =~= Seq::<char>::empty());
        }
        let (at, found) = locate(&self.items, identifier, "");
        if found {
            let v = &self.items[at];
            assert(self.items.deep_view()[at as int] == v.deep_view());
            Some(
                ItemRecord {
                    identifier: v.identifier.clone(),
                    added_date: v.added_date,
                    public_date: v.public_date,
                    image_count: v.image_count,
                    refresh_date: v.refresh_date,
                },
            )
        } else {
            None
        }
    }

    /// The file named `filename` of item `identifier`, if the store holds
    /// it.
    pub fn file(&self, identifier: &str, filename: &str) -> (r: Option<FileRecord>)
        requires
            self.wf(),
        ensures
            r.deep_view() == file_of(self@.files, identifier@, filename@),
    {
        proof {
            self.lemma_view();
        }
        let (at, found) = locate(&self.files, identifier, filename);
        if found {
            let v = &self.files[at];
            assert(self.files.deep_view()[at as int] == v.deep_view());
            Some(
                FileRecord {
                    ia_item_id: v.ia_item_id.clone(),
                    filename: v.filename.clone(),
                    size: v.size,
                    job_id: match &v.job_id {
                        Some(job) => Some(job.clone()),
                        None => None,
                    },
                },
            )
        } else {
            None
        }
    }

    /// The job with identifier `id`, if the store holds it.
    pub fn job(&self, id: &str) -> (r: Option<JobRecord>)
        requires
            self.wf(),
        ensures
            r.deep_view() == job_of(self@.jobs, id@),
    {
        proof {
            self.lemma_view();
            reveal_strlit("");
            assert(""@ =~= Seq::<char>::empty());
        }
        let (at, found) = locate(&self.jobs, id, "");
        if found {
            let v = &self.jobs[at];
            assert(self.jobs.deep_view()[at as int] == v.deep_view());
            Some(
                JobRecord {
                    id: v.id.clone(),
                    short_id: v.short_id.clone(),
                    domain: v.domain.clone(),
                    url: v.url.clone(),
                    started_by: v.started_by.clone(),
                    aborts: v.aborts,
                    warcs: v.warcs,
                    jsons: v.jsons,
                    size: v.size,
                    search_id: v.search_id,
                },
            )
        } else {
            None
        }
    }
}

} // verus!
