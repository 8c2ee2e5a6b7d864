//! Batch-download planning for an object store.
//!
//! The library turns a list of raw directives of the form
//! `store://BUCKET/KEY:DEST` into a verified work plan: it parses each
//! directive, groups the work by bucket, computes the destination
//! directories that must exist, and lays the whole run out as an ordered
//! command list.  The surrounding binary only has to execute the commands
//! in order; every decision about what to fetch and where to put it is
//! made, and proved correct, here.

pub mod bytes;
pub mod directive;
pub mod error;
pub mod lifecycle;
pub mod plan;
pub mod schedule;
