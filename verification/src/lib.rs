//! Core of a slice-sticky reverse proxy: a fixed number of logical slices is
//! partitioned among a set of worker addresses; requests are routed by the
//! slice of their user key; a shared assignment table is updated with
//! optimistic concurrency; an overloaded worker sheds its largest slice.
pub mod addr;
pub mod assignments;
pub mod balance;
pub mod digits;
pub mod discovery;
pub mod health;
pub mod parse;
pub mod select;
pub mod store;
pub mod table;
