//! An in-memory search index over a corpus of post records.
//!
//! Records get dense ids from a [`db::Db`], which keeps the set of live ids
//! and an [`index::Index`] in step with the records. The indexes of the
//! posts are in [`post_index`]: an equality or an ordered index for each
//! field ([`field_index`], over [`key_index`] and [`range_index`]) and the
//! index of the tags ([`tag`]), which keeps a database of the tags beside it
//! ([`tag_db`], with an n-gram index of the names, [`ngram`]).
//!
//! Posting lists are packed bitsets ([`bitset`]), handed out as
//! [`posting::Queryable`]. A query text is read by [`parser`] into a tree
//! ([`query`]) whose terms the index turns into postings; the tree is
//! evaluated over the live ids, and the result ([`result`]) gives pages of
//! matches in an order that an ordered index supplies. [`routes`] and
//! [`sync`] hold what the service around the index asks of it: searches by
//! request, and the changes that the store of the posts reports.

pub mod bitset;
pub mod db;
pub mod field;
pub mod field_index;
pub mod index;
pub mod key;
pub mod key_index;
pub mod names;
pub mod ngram;
pub mod num;
pub mod parser;
pub mod post;
pub mod post_index;
pub mod posting;
pub mod query;
pub mod range_index;
pub mod result;
pub mod routes;
pub mod sync;
pub mod tag;
pub mod tag_db;
pub mod text;
pub mod value;
