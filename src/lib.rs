//! Content-hash change detection: which files under a set of watched
//! directories changed, appeared or vanished since the last recorded snapshot.
pub mod text;
pub mod digest;
pub mod rules;
pub mod snapshot;
pub mod laws;
pub mod store;
pub mod walker;
pub mod pipeline;
