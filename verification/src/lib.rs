//! A file-backed hierarchical record store for a personal organizing tool.
//!
//! Each record links an item (`what`) to a container (`location`) through a
//! shared namespace of integer identifiers, forming a forest.  The library
//! holds the verified core: deriving the hierarchy context from the record
//! sequence, compacting identifiers to a dense order-preserving range,
//! the insert/edit/remove engine with token resolution and rename
//! propagation, and the rotating backup chain.  File and terminal I/O live
//! outside the library and hand it plain values.
//!
//! The store is single-user and synchronous: there is no locking, and two
//! concurrent invocations against the same file can race.  An edit may
//! make a location point at its own descendant; the store accepts such a
//! cycle, and walks over the forest guard against it with a visited set
//! instead of rejecting the edit.

pub mod backup;
pub mod compact;
pub mod csv_io;
pub mod data;
pub mod edit;
pub mod errors;
pub mod matches;
pub mod query;
pub mod text;
