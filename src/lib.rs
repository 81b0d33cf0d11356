//! An object heap: a store that maps 64-bit page ids to byte blobs, kept in
//! immutable heap files and found through a page-location index.
//!
//! The modules hold the store's logic, each step stated and proved:
//! the record format ([`codec`]), heap file names ([`file_name`]), the
//! registry of published files ([`registry`]), the layout of a batch write
//! ([`writer`]), the read path ([`reader`]), crash recovery ([`recovery`]),
//! compaction ([`maintenance`]) and the index's byte formats ([`index_format`],
//! [`index_log`]).

pub mod codec;
pub mod config;
pub mod error;
pub mod file_name;
pub mod index_format;
pub mod index_log;
pub mod maintenance;
pub mod page_index;
pub mod reader;
pub mod recovery;
pub mod registry;
pub mod writer;
