//! Verified semantics of a filesystem-free, generation-pinned Git reader.
//!
//! The rules the reader applies to repository metadata and to decoded Git objects
//! live in this crate as plain values and small state machines: the surrounding
//! program performs the reads a machine asks for and hands the replies back.

pub mod archive;
pub mod blame;
pub mod cancel;
pub mod charge;
pub mod commit_graph;
pub mod compare;
pub mod diff;
pub mod directory;
pub mod entry;
pub mod error;
pub mod hex;
pub mod history;
pub mod id_map;
pub mod identity;
pub mod inventory;
pub mod lcs;
pub mod limits;
pub mod lines;
pub mod memory;
pub mod model;
pub mod names;
pub mod nesting;
pub mod oid;
pub mod open;
pub mod path;
pub mod path_history;
pub mod path_probe;
pub mod peel;
pub mod reach;
pub mod refs;
pub mod replies;
pub mod repository;
pub mod snapshot;
pub mod sort;
pub mod visibility;
