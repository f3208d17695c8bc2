//! A doubly linked list with arena-backed storage.
//!
//! The list owns every node; the nodes refer to one another by slot index
//! rather than by pointer, and interior positions are addressed through
//! generation-tagged handles, so a stale handle is detected instead of
//! touching freed storage.

pub mod laws;
pub mod list;
