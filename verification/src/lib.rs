//! Deduplication of user records that share a phone number.
//!
//! For every phone number held by more than one record, the newest record is
//! kept as the master, the accounts of all duplicates are gathered into it,
//! fields it lacks are filled in from the others, and the others are deleted.

pub mod batch;
pub mod batch_laws;
pub mod coordinator;
pub mod error;
pub mod finder;
pub mod finder_laws;
pub mod merge_laws;
pub mod merger;
pub mod persist;
pub mod record;
pub mod report;
pub mod report_laws;
pub mod store;
pub mod store_laws;
pub mod text;
pub mod value;
pub mod window;
