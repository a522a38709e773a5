//! Locates duplicate files across two directory trees — a reference tree
//! and a candidate tree — without relying on filenames: a cheap
//! bounded-prefix fingerprint filters candidate pairs, and an exact
//! byte-level comparison confirms every reported duplicate, so a
//! fingerprint collision alone is never a false positive.
//!
//! The pieces, leaf first: [`reader`] models a byte-readable source with
//! short reads and read errors; [`hash`] computes the rolling fingerprint
//! over a bounded prefix; [`compare`] decides byte-exact equality of two
//! streams; [`fs`] holds the in-memory snapshot of a directory tree;
//! [`search`] walks a tree breadth-first through an explicit queue;
//! [`index`] maps each fingerprint to the reference paths producing it; and
//! [`matcher`] drives the whole detection pass. [`traverse`] is the same
//! breadth-first walk as a step-by-step machine, for walking a tree that
//! lives on a real filesystem.

pub mod bytes;
pub mod compare;
pub mod fs;
pub mod hash;
pub mod index;
pub mod matcher;
pub mod reader;
pub mod search;
pub mod traverse;
