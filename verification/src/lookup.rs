//! What a search is sure to find: every index row that the query matches
//! and that a job holds; a text matches itself; the case of ASCII letters
//! plays no part; and a link finds the jobs of its host, whatever its
//! path.

use vstd::prelude::*;
use crate::fts::{is_token_char, phrase_at, scan, text_matches, tokens};
use crate::model::{domain_hit, first_match, full_hit, holds_row, search_rows, DatabaseView};
use crate::records::{JobView, SearchEntryView};
use crate::search::{bare_link, host_of, lemma_host_ends, link_domain};
use crate::table::window;
use crate::text::{ascii_lower, ascii_lowered};

verus! {

/// What a search returns for the index row `e` that job `j` holds.
pub open spec fn found_row(j: JobView, e: SearchEntryView) -> (Seq<char>, Seq<char>, Seq<char>) {
    (j.id, e.domain, e.url)
}

/// A search returns every index row that it looks for and that a job
/// holds, under the job that holds it.
pub proof fn law_search_finds(
    jobs: Seq<JobView>,
    index: Seq<SearchEntryView>,
    hit: spec_fn(SearchEntryView) -> bool,
    i: int,
)
    requires
        0 <= i < index.len(),
        hit(index[i]),
        first_match(jobs, holds_row(index[i].rowid)) is Some,
    ensures
        search_rows(jobs, index, hit).contains(
            found_row(first_match(jobs, holds_row(index[i].rowid))->0, index[i]),
        ),
    decreases index.len(),
{
    let row = found_row(first_match(jobs, holds_row(index[i].rowid))->0, index[i]);
    let rest = search_rows(jobs, index.drop_last(), hit);
    let all = search_rows(jobs, index, hit);
    if i == index.len() - 1 {
        assert(all == rest.push(row));
        assert(all[all.len() - 1] == row);
    } else {
        assert(index.drop_last()[i] == index[i]);
        law_search_finds(jobs, index.drop_last(), hit, i);
        let k = choose|k: int| 0 <= k < rest.len() && rest[k] == row;
        if all != rest {
            assert(all[k] == row);
        }
    }
}

/// A text that holds a word matches itself.
pub proof fn law_text_matches_itself(text: Seq<char>)
    requires
        tokens(text).len() > 0,
    ensures
        text_matches(text, text),
{
    assert(phrase_at(tokens(text), tokens(text), 0));
}

/// The words of a text are those of the text in lower case.
pub proof fn lemma_scan_lowered(text: Seq<char>)
    ensures
        scan(ascii_lowered(text)) == scan(text),
    decreases text.len(),
{
    if text.len() > 0 {
        lemma_scan_lowered(text.drop_last());
        assert(ascii_lowered(text).drop_last() =~= ascii_lowered(text.drop_last()));
        let c = text.last();
        assert(ascii_lowered(text).last() == ascii_lower(c));
        assert(is_token_char(ascii_lower(c)) == is_token_char(c));
        assert(ascii_lower(ascii_lower(c)) == ascii_lower(c));
    } else {
        assert(ascii_lowered(text) =~= text);
    }
}

/// Whether a query matches a text does not depend on the case of the ASCII
/// letters of either.
pub proof fn law_matching_ignores_case(text: Seq<char>, query: Seq<char>)
    ensures
        text_matches(ascii_lowered(text), query) == text_matches(text, query),
        text_matches(text, ascii_lowered(query)) == text_matches(text, query),
{
    lemma_scan_lowered(text);
    lemma_scan_lowered(query);
}

/// The host of a link is what stands before its first slash, whatever
/// path comes after it.
pub proof fn law_path_plays_no_part(host: Seq<char>, path: Seq<char>)
    requires
        forall|k: int| 0 <= k < host.len() ==> host[k] != '/',
    ensures
        host_of(host) == host,
        host_of(host + seq!['/'] + path) == host,
{
    let link = host + seq!['/'] + path;
    lemma_host_ends(host, host.len() as int);
    assert(host.take(host.len() as int) =~= host);
    assert forall|k: int| 0 <= k < host.len() implies link[k] != '/' by {
        assert(link[k] == host[k]);
    }
    assert(link[host.len() as int] == '/');
    lemma_host_ends(link, host.len() as int);
    assert(link.take(host.len() as int) =~= host);
}

/// A link that is looked for with every row asked for finds each job
/// whose indexed domain is the ASCII form of the link's host, where that
/// form holds a word: by its domain alone, and in full mode, whatever
/// path the link has.
pub proof fn law_link_finds_its_domain(db: DatabaseView, query: Seq<char>, i: int)
    requires
        0 <= i < db.search_index.len(),
        db.search_index[i].domain == link_domain(host_of(bare_link(query))),
        tokens(link_domain(host_of(bare_link(query)))).len() > 0,
        first_match(db.jobs, holds_row(db.search_index[i].rowid)) is Some,
    ensures
        ({
            let row = found_row(first_match(db.jobs, holds_row(db.search_index[i].rowid))->0, db.search_index[i]);
            let domain = link_domain(host_of(bare_link(query)));
            &&& db.search_domain(domain, 0, -1i64).contains(row)
            &&& db.search_full(domain, bare_link(query), 0, -1i64).contains(row)
        }),
{
    let domain = link_domain(host_of(bare_link(query)));
    let row = found_row(first_match(db.jobs, holds_row(db.search_index[i].rowid))->0, db.search_index[i]);
    law_text_matches_itself(domain);
    law_search_finds(db.jobs, db.search_index, domain_hit(domain), i);
    law_search_finds(db.jobs, db.search_index, full_hit(domain, bare_link(query)), i);
    let by_domain = search_rows(db.jobs, db.search_index, domain_hit(domain));
    let in_full = search_rows(db.jobs, db.search_index, full_hit(domain, bare_link(query)));
    assert(window(by_domain, -1i64, 0) =~= by_domain);
    assert(window(in_full, -1i64, 0) =~= in_full);
}

/// A link that is looked for in full mode with every row asked for finds
/// each job whose indexed address the link matches once its scheme and
/// `www.` are taken off, whatever the case of its ASCII letters.
pub proof fn law_link_finds_its_address(db: DatabaseView, query: Seq<char>, i: int)
    requires
        0 <= i < db.search_index.len(),
        text_matches(db.search_index[i].url, ascii_lowered(bare_link(query))),
        first_match(db.jobs, holds_row(db.search_index[i].rowid)) is Some,
    ensures
        db.search_full(link_domain(host_of(bare_link(query))), bare_link(query), 0, -1i64).contains(
            found_row(first_match(db.jobs, holds_row(db.search_index[i].rowid))->0, db.search_index[i]),
        ),
{
    let domain = link_domain(host_of(bare_link(query)));
    law_matching_ignores_case(db.search_index[i].url, bare_link(query));
    law_search_finds(db.jobs, db.search_index, full_hit(domain, bare_link(query)), i);
    let in_full = search_rows(db.jobs, db.search_index, full_hit(domain, bare_link(query)));
    assert(window(in_full, -1i64, 0) =~= in_full);
}

} // verus!
