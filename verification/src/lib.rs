//! An offset-indexed flat-file store of text records.
//!
//! Every record is a handful of fixed fields and a list of text parts. The
//! bytes of all parts live in one flat raw store; an index holds, for each
//! part, the offset and the length of its bytes. This crate holds the index
//! and the raw store, cuts pages out of the index, reads the text of a page
//! back from the raw store, and lays the raw store out anew in a shuffled
//! record order with an index that points into the new layout.

pub mod index;
pub mod page;
pub mod service;
pub mod shuffle;
pub mod store;
