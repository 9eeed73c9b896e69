//! Cached, incrementally refreshed size aggregates for directory trees, and
//! the log of edits to the environment of a user.
//!
//! For every path beneath a set of roots the store holds how many bytes and
//! how many script-like files lie beneath it. A refresh first takes out of
//! the store what has changed on disk and then walks the roots again,
//! entering only what the store no longer holds.
//!
//! Nothing here touches the disk, the clock or the shell. The algorithms read
//! a [`fsview::FsSnapshot`] that their caller fills: where they need a path
//! that it lacks they stop with [`fault::WalkError::Unknown`] and change
//! nothing, so the caller can look at that path and call again.
//!
//! The contracts speak of mathematical maps and sequences, and the code is
//! proved against them; the few functions that call into another crate, or
//! into a part of the standard library that has no contract yet, say so.
//! `laws`, `nesting`, `recount` and `roundtrip` hold what follows for every
//! store and snapshot.

pub mod deep;
pub mod env;
pub mod fault;
pub mod fsview;
pub mod laws;
pub mod manager;
pub mod nesting;
pub mod path;
pub mod persist;
pub mod policy;
pub mod recount;
pub mod record;
pub mod recorder;
pub mod resolve;
pub mod roundtrip;
pub mod shake;
pub mod shared;
pub mod state;
pub mod storage;
pub mod store;
pub mod task;
pub mod text;
pub mod walk;
pub mod workers;
