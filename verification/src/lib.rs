//! The verified core of the ArchiveBot viewer.
//!
//! The viewer mirrors the metadata of a remote catalog into a store of its
//! own, derives from the names of the archived files the crawl jobs that
//! made them, and serves both for browsing and search. This library holds
//! what that takes apart from the calls to the outside: the grammar of
//! file names ([`filename`], [`grammar`]), the aggregation of files into
//! jobs ([`jobs`]), the store ([`database`], [`queries`], over [`model`],
//! [`records`] and [`table`]), the stages that work on the store
//! ([`backend`], [`stages`]), the cycle that sequences them ([`sync`],
//! [`enrich`]), the search ([`search`], [`fts`]), and what holds of all of
//! it ([`laws`], [`counters`], [`indexing`], [`lookup`], [`fixture`]).

pub mod backend;
pub mod counters;
pub mod database;
pub mod enrich;
pub mod filename;
pub mod fixture;
pub mod fts;
pub mod grammar;
pub mod ia;
pub mod idgen;
pub mod indexing;
pub mod jobs;
pub mod laws;
pub mod lookup;
pub mod model;
pub mod queries;
pub mod records;
pub mod search;
pub mod stages;
pub mod sync;
pub mod table;
pub mod text;
pub mod time;
pub mod web;
