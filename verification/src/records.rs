//! The rows of the metadata store, each with its mathematical value and,
//! where the table is ordered by it, its key.

use vstd::prelude::*;
use crate::table::{Key, Keyed};
use crate::time::{Date, Timestamp};

verus! {

/// A catalog item as the store keeps it.
#[derive(Debug, Clone)]
pub struct ItemRecord {
    pub identifier: String,
    pub added_date: Timestamp,
    pub public_date: Timestamp,
    pub image_count: Option<i64>,
    /// When the item's file listing was last fetched.
    pub refresh_date: Option<Timestamp>,
}

/// The mathematical value of an [`ItemRecord`].
pub ghost struct ItemView {
    pub identifier: Seq<char>,
    pub added_date: Timestamp,
    pub public_date: Timestamp,
    pub image_count: Option<i64>,
    pub refresh_date: Option<Timestamp>,
}

impl DeepView for ItemRecord {
    type V = ItemView;

    open spec fn deep_view(&self) -> ItemView {
        ItemView {
            identifier: self.identifier@,
            added_date: self.added_date,
            public_date: self.public_date,
            image_count: self.image_count,
            refresh_date: self.refresh_date,
        }
    }
}

impl Keyed for ItemRecord {
    open spec fn key_of(v: ItemView) -> Key {
        (v.identifier, Seq::empty())
    }

    fn key_texts(&self) -> (r: (&str, &str)) {
        proof {
            reveal_strlit("");
        }
        assert(""@ =~= Seq::<char>::empty());
        (self.identifier.as_str(), "")
    }
}

/// A file of an item as the store keeps it.
#[derive(Debug, Clone)]
pub struct FileRecord {
    pub ia_item_id: String,
    pub filename: String,
    pub size: i64,
    /// The job the file belongs to, once aggregation has assigned one.
    pub job_id: Option<String>,
}

/// The mathematical value of a [`FileRecord`].
pub ghost struct FileView {
    pub ia_item_id: Seq<char>,
    pub filename: Seq<char>,
    pub size: i64,
    pub job_id: Option<Seq<char>>,
}

impl DeepView for FileRecord {
    type V = FileView;

    open spec fn deep_view(&self) -> FileView {
        FileView {
            ia_item_id: self.ia_item_id@,
            filename: self.filename@,
            size: self.size,
            job_id: self.job_id.deep_view(),
        }
    }
}

impl Keyed for FileRecord {
    open spec fn key_of(v: FileView) -> Key {
        (v.ia_item_id, v.filename)
    }

    fn key_texts(&self) -> (r: (&str, &str)) {
        (self.ia_item_id.as_str(), self.filename.as_str())
    }
}

/// A job as the store keeps it.
#[derive(Debug, Clone)]
pub struct JobRecord {
    pub id: String,
    pub short_id: String,
    pub domain: String,
    /// The address the crawl started from; empty until it is known.
    pub url: String,
    /// Who started the crawl; empty until it is known.
    pub started_by: String,
    pub aborts: i64,
    pub warcs: i64,
    pub jsons: i64,
    pub size: i64,
    /// The row of the search index that stands for the job, once it has one.
    pub search_id: Option<i64>,
}

/// The mathematical value of a [`JobRecord`].
pub ghost struct JobView {
    pub id: Seq<char>,
    pub short_id: Seq<char>,
    pub domain: Seq<char>,
    pub url: Seq<char>,
    pub started_by: Seq<char>,
    pub aborts: i64,
    pub warcs: i64,
    pub jsons: i64,
    pub size: i64,
    pub search_id: Option<i64>,
}

impl DeepView for JobRecord {
    type V = JobView;

    open spec fn deep_view(&self) -> JobView {
        JobView {
            id: self.id@,
            short_id: self.short_id@,
            domain: self.domain@,
            url: self.url@,
            started_by: self.started_by@,
            aborts: self.aborts,
            warcs: self.warcs,
            jsons: self.jsons,
            size: self.size,
            search_id: self.search_id,
        }
    }
}

impl Keyed for JobRecord {
    open spec fn key_of(v: JobView) -> Key {
        (v.id, Seq::empty())
    }

    fn key_texts(&self) -> (r: (&str, &str)) {
        proof {
            reveal_strlit("");
        }
        assert(""@ =~= Seq::<char>::empty());
        (self.id.as_str(), "")
    }
}

impl Keyed for String {
    open spec fn key_of(v: Seq<char>) -> Key {
        (v, Seq::empty())
    }

    fn key_texts(&self) -> (r: (&str, &str)) {
        proof {
            reveal_strlit("");
        }
        assert(""@ =~= Seq::<char>::empty());
        (self.as_str(), "")
    }
}

/// The bytes of all files of the items that became public on one day.
#[derive(Debug, Clone, Copy, PartialEq, Eq, Structural)]
pub struct DailyStat {
    pub date: Date,
    pub size: i64,
}

/// One row of the search index: the domain and address of a job, under a
/// row number of its own.
#[derive(Debug, Clone)]
pub struct SearchIndexEntry {
    pub rowid: i64,
    pub domain: String,
    pub url: String,
}

/// The mathematical value of a [`SearchIndexEntry`].
pub ghost struct SearchEntryView {
    pub rowid: i64,
    pub domain: Seq<char>,
    pub url: Seq<char>,
}

impl DeepView for SearchIndexEntry {
    type V = SearchEntryView;

    open spec fn deep_view(&self) -> SearchEntryView {
        SearchEntryView { rowid: self.rowid, domain: self.domain@, url: self.url@ }
    }
}

} // verus!
