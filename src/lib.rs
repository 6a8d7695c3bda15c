//! Keeps the per-character inventory snapshots of several game accounts in
//! step: snapshots are extracted from one account's saved database and merged
//! into the databases of its sibling accounts.
//!
//! - `value`: the values of the saved table text, and lookups in tables.
//! - `inventory`: a character's snapshot and its table form.
//! - `topology`: accounts, realms and characters found at startup.
//! - `database`: a decoded database, extraction and merging.
//! - `propagation`: what a propagation keeps, changes and repeats.
//! - `sync`: the startup fold, the sync cycle and the change filter.

pub mod value;
pub mod inventory;
pub mod topology;
pub mod database;
pub mod propagation;
pub mod sync;
