//! Squad formation: postings invite people to commit a window of
//! availability, and once enough have committed everyone is told.
//!
//! The store keeps squads, postings, member sets, member records and channel
//! sets as time-bounded records; a squad's status is derived from them, stale
//! records are reconciled away when observed, and a periodic pass renders
//! postings and tells the members of squads that have just become full.
pub mod ttl_table;
pub mod store;
pub mod laws;
pub mod text;
pub mod input;
pub mod reconcile;
pub mod keys;
