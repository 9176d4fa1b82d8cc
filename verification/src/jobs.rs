//! Deriving jobs from file names.
//!
//! Every file whose name follows the grammar belongs to the job named by its
//! date, time and identifier. A page of files is summed up per job before
//! anything is written.

use vstd::prelude::*;
use crate::database::{JobDelta, UpdateFilesJobArgs, UpdateJobArgs};
use crate::filename::{parse_filename, parsed, FilenameFields, FilenameParts};
use crate::text::same_text;

verus! {

/// The identifier of the job a file with these fields belongs to.
pub open spec fn job_id_of(f: FilenameFields) -> Seq<char> {
    f.date + f.time + f.ident
}

/// What a single file with these fields and this size adds to its job: one
/// abort if the name says so, one archive or one metadata document by its
/// extension, and its bytes if it is an archive.
pub open spec fn delta_of(f: FilenameFields, size: int) -> JobDelta {
    let warc = f.extension == "warc.gz"@;
    JobDelta {
        short_id: f.ident,
        job_id: job_id_of(f),
        domain: f.domain,
        aborts: if f.aborted.len() > 0 { 1 } else { 0 },
        warcs: if warc { 1 } else { 0 },
        jsons: if f.extension == "json"@ { 1 } else { 0 },
        size: if warc { size } else { 0 },
    }
}

/// The position of job `id` among `deltas`, or their number where it is not
/// among them.
pub open spec fn job_index(deltas: Seq<JobDelta>, id: Seq<char>) -> int
    decreases deltas.len(),
{
    if deltas.len() == 0 {
        0
    } else if deltas[0].job_id == id {
        0
    } else {
        1 + job_index(deltas.drop_first(), id)
    }
}

/// `acc` with `d` added to the entry of its job; a job seen for the first
/// time gets a new entry at the end, with the short identifier and domain
/// of `d`.
pub open spec fn merge(acc: Seq<JobDelta>, d: JobDelta) -> Seq<JobDelta> {
    let i = job_index(acc, d.job_id);
    if i < acc.len() {
        acc.update(
            i,
            JobDelta {
                aborts: acc[i].aborts + d.aborts,
                warcs: acc[i].warcs + d.warcs,
                jsons: acc[i].jsons + d.jsons,
                size: acc[i].size + d.size,
                ..acc[i]
            },
        )
    } else {
        acc.push(d)
    }
}

/// What a page of files, each given as item, name and size, adds to each
/// job: one entry per job, in the order in which the jobs first occur.
/// Files whose names do not follow the grammar add nothing.
pub open spec fn aggregate(files: Seq<(Seq<char>, Seq<char>, i64)>) -> Seq<JobDelta>
    decreases files.len(),
{
    if files.len() == 0 {
        Seq::empty()
    } else {
        let rest = aggregate(files.drop_last());
        match parsed(files.last().1) {
            Some(f) => merge(rest, delta_of(f, files.last().2 as int)),
            None => rest,
        }
    }
}

/// The job of each file of the page whose name follows the grammar, as item,
/// name and job, in the order of the page.
pub open spec fn assignments(files: Seq<(Seq<char>, Seq<char>, i64)>) -> Seq<
    (Seq<char>, Seq<char>, Seq<char>),
>
    decreases files.len(),
{
    if files.len() == 0 {
        Seq::empty()
    } else {
        let rest = assignments(files.drop_last());
        match parsed(files.last().1) {
            Some(f) => rest.push((files.last().0, files.last().1, job_id_of(f))),
            None => rest,
        }
    }
}

/// The number of files of the page whose names do not follow the grammar.
pub open spec fn unparsed(files: Seq<(Seq<char>, Seq<char>, i64)>) -> nat
    decreases files.len(),
{
    if files.len() == 0 {
        0
    } else {
        unparsed(files.drop_last()) + if parsed(files.last().1) is None {
            1nat
        } else {
            0nat
        }
    }
}

/// Every amount fits the store's 64-bit counters.
pub open spec fn fits(deltas: Seq<JobDelta>) -> bool {
    forall|i: int|
        0 <= i < deltas.len() ==> {
            &&& i64::MIN <= (#[trigger] deltas[i]).aborts <= i64::MAX
            &&& i64::MIN <= deltas[i].warcs <= i64::MAX
            &&& i64::MIN <= deltas[i].jsons <= i64::MAX
            &&& i64::MIN <= deltas[i].size <= i64::MAX
        }
}

/// The running sums of one job while a page is read.
struct Tally {
    short_id: String,
    job_id: String,
    domain: String,
    aborts: i128,
    warcs: i128,
    jsons: i128,
    size: i128,
}

impl DeepView for Tally {
    type V = JobDelta;

    closed spec fn deep_view(&self) -> JobDelta {
        JobDelta {
            short_id: self.short_id@,
            job_id: self.job_id@,
            domain: self.domain@,
            aborts: self.aborts as int,
            warcs: self.warcs as int,
            jsons: self.jsons as int,
            size: self.size as int,
        }
    }
}

proof fn lemma_job_index(deltas: Seq<JobDelta>, id: Seq<char>, i: int)
    requires
        0 <= i <= deltas.len(),
        forall|j: int| 0 <= j < i ==> (#[trigger] deltas[j]).job_id != id,
        i < deltas.len() ==> deltas[i].job_id == id,
    ensures
        job_index(deltas, id) == i,
    decreases deltas.len(),
{
    if deltas.len() > 0 && i > 0 {
        assert(deltas[0].job_id != id);
        let rest = deltas.drop_first();
        assert forall|j: int| 0 <= j < i - 1 implies (#[trigger] rest[j]).job_id != id by {
            assert(rest[j] == deltas[j + 1]);
        }
        lemma_job_index(rest, id, i - 1);
    }
}

/// The position of job `id` among the tallies, or their number.
fn find_tally(tallies: &Vec<Tally>, id: &str) -> (i: usize)
    ensures
        i == job_index(tallies.deep_view(), id@),
        i <= tallies.len(),
{
    let mut i: usize = 0;
    while i < tallies.len()
        invariant
            i <= tallies.len(),
            forall|j: int| 0 <= j < i ==> (#[trigger] tallies.deep_view()[j]).job_id != id@,
        decreases tallies.len() - i,
    {
        if same_text(tallies[i].job_id.as_str(), id) {
            proof {
                lemma_job_index(tallies.deep_view(), id@, i as int);
            }
            return i;
        }
        i += 1;
    }
    proof {
        lemma_job_index(tallies.deep_view(), id@, i as int);
    }
    i
}

/// The identifier of the job that a file with these fields belongs to: its
/// date, its time and, where it has one, its identifier, put together.
pub fn job_id(parts: &FilenameParts) -> (r: String)
    ensures
        r@ == job_id_of(parts@),
{
    let r = parts.date.clone();
    let r = r.concat(parts.time.as_str());
    r.concat(parts.ident.as_str())
}

/// How far an amount is from zero after `n` files at most.
spec fn bounded(t: Tally, n: int) -> bool {
    &&& 0 <= t.aborts <= n
    &&& 0 <= t.warcs <= n
    &&& 0 <= t.jsons <= n
    &&& -n * 0x8000_0000_0000_0000 <= t.size <= n * 0x8000_0000_0000_0000
}

/// Adds one file's amounts to the tallies.
fn add_to_tallies(tallies: &mut Vec<Tally>, parts: FilenameParts, id: String, size: i64, Ghost(n): Ghost<int>)
    requires
        id@ == job_id_of(parts@),
        0 <= n < usize::MAX,
        forall|j: int| 0 <= j < old(tallies).len() ==> bounded(#[trigger] old(tallies)@[j], n),
    ensures
        final(tallies).deep_view() == merge(old(tallies).deep_view(), delta_of(parts@, size as int)),
        forall|j: int| 0 <= j < final(tallies).len() ==> bounded(#[trigger] final(tallies)@[j], n + 1),
{
    let aborted = !parts.aborted.as_str().is_empty();
    let is_warc = same_text(parts.extension.as_str(), "warc.gz");
    let is_json = same_text(parts.extension.as_str(), "json");
    let aborts: i128 = if aborted { 1 } else { 0 };
    let warcs: i128 = if is_warc { 1 } else { 0 };
    let jsons: i128 = if is_json { 1 } else { 0 };
    let bytes: i128 = if is_warc { size as i128 } else { 0 };
    let at: usize = find_tally(tallies, id.as_str());
    if at < tallies.len() {
        let ghost before = tallies.deep_view();
        let ghost was = tallies@;
        let entry = &mut tallies[at];
        entry.aborts = entry.aborts + aborts;
        entry.warcs = entry.warcs + warcs;
        entry.jsons = entry.jsons + jsons;
        entry.size = entry.size + bytes;
        assert(tallies.deep_view() =~= merge(before, delta_of(parts@, size as int)));
        assert forall|j: int| 0 <= j < tallies.len() implies bounded(#[trigger] tallies@[j], n + 1) by {
            if j != at {
                assert(tallies@[j] == was[j]);
            }
        }
    } else {
        let ghost before = tallies.deep_view();
        let ghost was = tallies@;
        tallies.push(
            Tally {
                short_id: parts.ident,
                job_id: id,
                domain: parts.domain,
                aborts,
                warcs,
                jsons,
                size: bytes,
            },
        );
        assert(tallies.deep_view() =~= merge(before, delta_of(parts@, size as int)));
        assert forall|j: int| 0 <= j < tallies.len() implies bounded(#[trigger] tallies@[j], n + 1) by {
            if j < was.len() {
                assert(tallies@[j] == was[j]);
            }
        }
    }
}

/// The amount as a store counter, where it fits one.
fn narrow(x: i128) -> (r: Option<i64>)
    ensures
        match r {
            Some(y) => y == x,
            None => x < i64::MIN || x > i64::MAX,
        },
{
    if x < -0x8000_0000_0000_0000i128 || x > 0x7fff_ffff_ffff_ffffi128 {
        None
    } else {
        Some(x as i64)
    }
}

/// The tallies as arguments for the store, where every amount fits.
fn finish(tallies: &Vec<Tally>) -> (r: Option<Vec<UpdateJobArgs>>)
    ensures
        r is Some <==> fits(tallies.deep_view()),
        r matches Some(jobs) ==> jobs.deep_view() == tallies.deep_view(),
{
    let mut jobs: Vec<UpdateJobArgs> = Vec::new();
    let mut i: usize = 0;
    while i < tallies.len()
        invariant
            i <= tallies.len(),
            jobs.deep_view() =~= tallies.deep_view().take(i as int),
            fits(jobs.deep_view()),
        decreases tallies.len() - i,
    {
        let t = &tallies[i];
        assert(tallies.deep_view()[i as int] == t.deep_view());
        match (narrow(t.aborts), narrow(t.warcs), narrow(t.jsons), narrow(t.size)) {
            (Some(abort_inc), Some(warc_inc), Some(json_inc), Some(size_inc)) => {
                let ghost before = jobs.deep_view();
                jobs.push(
                    UpdateJobArgs {
                        short_id: t.short_id.clone(),
                        job_id: t.job_id.clone(),
                        domain: t.domain.clone(),
                        abort_inc,
                        warc_inc,
                        json_inc,
                        size_inc,
                    },
                );
                assert(jobs.deep_view() =~= before.push(t.deep_view()));
                assert(tallies.deep_view().take(i + 1) =~= tallies.deep_view().take(i as int).push(
                    t.deep_view(),
                ));
            },
            _ => {
                return None;
            },
        }
        i += 1;
    }
    assert(tallies.deep_view().take(i as int) =~= tallies.deep_view());
    Some(jobs)
}

/// Sums up one page of files, each given as item, name and size, per job.
///
/// Returns the amounts to add to each job, one entry per job in the order in
/// which the jobs first occur on the page, and the job of each file whose
/// name follows the grammar, in the order of the page. Files with other
/// names are passed over. Returns `None` where an amount does not fit the
/// store's counters; nothing may then be written for the page.
pub fn aggregate_files(files: &Vec<(String, String, i64)>) -> (r: Option<
    (Vec<UpdateJobArgs>, Vec<UpdateFilesJobArgs>),
>)
    ensures
        r is Some <==> fits(aggregate(files.deep_view())),
        r matches Some((jobs, assigned)) ==> {
            &&& jobs.deep_view() == aggregate(files.deep_view())
            &&& assigned.deep_view() == assignments(files.deep_view())
        },
{
    let mut tallies: Vec<Tally> = Vec::new();
    let mut assigned: Vec<UpdateFilesJobArgs> = Vec::new();
    let ghost page = files.deep_view();
    let mut i: usize = 0;
    while i < files.len()
        invariant
            i <= files.len(),
            page == files.deep_view(),
            tallies.deep_view() == aggregate(page.take(i as int)),
            assigned.deep_view() =~= assignments(page.take(i as int)),
            forall|j: int| 0 <= j < tallies.len() ==> bounded(#[trigger] tallies@[j], i as int),
        decreases files.len() - i,
    {
        let file = &files[i];
        proof {
            assert(page.take(i + 1).drop_last() =~= page.take(i as int));
            assert(page.take(i + 1).last() == page[i as int]);
            assert(page[i as int] == file.deep_view());
        }
        match parse_filename(file.1.as_str()) {
            Some(parts) => {
                let id = job_id(&parts);
                assigned.push(
                    UpdateFilesJobArgs {
                        ia_item_id: file.0.clone(),
                        filename: file.1.clone(),
                        job_id: id.clone(),
                    },
                );
                add_to_tallies(&mut tallies, parts, id, file.2, Ghost(i as int));
            },
            None => {
                assert forall|j: int| 0 <= j < tallies.len() implies bounded(
                    #[trigger] tallies@[j],
                    i + 1,
                ) by {
                    assert(bounded(tallies@[j], i as int));
                }
            },
        }
        i += 1;
    }
    assert(page.take(i as int) =~= page);
    match finish(&tallies) {
        Some(jobs) => Some((jobs, assigned)),
        None => None,
    }
}

/// Counts the files of a page that aggregation passes over: those whose
/// names do not follow the grammar. They stay without a job.
pub fn skipped_files(files: &Vec<(String, String, i64)>) -> (n: usize)
    ensures
        n == unparsed(files.deep_view()),
{
    let ghost page = files.deep_view();
    let mut n: usize = 0;
    let mut i: usize = 0;
    while i < files.len()
        invariant
            i <= files.len(),
            page == files.deep_view(),
            n == unparsed(page.take(i as int)),
            n <= i,
        decreases files.len() - i,
    {
        proof {
            assert(page.take(i + 1).drop_last() =~= page.take(i as int));
            assert(page.take(i + 1).last() == files[i as int].deep_view());
        }
        if parse_filename(files[i].1.as_str()).is_none() {
            n += 1;
        }
        i += 1;
    }
    assert(page.take(i as int) =~= page);
    n
}

} // verus!
