//! Structural comparison of two password-database snapshots.
//!
//! A snapshot is a tree of groups and entries ([`model`]). The diff engine
//! ([`diff`]) aligns two such trees by identifier and classifies every node
//! as added, removed, modified or unchanged, with field-level changes from
//! [`fields`]. The renderer ([`render`]) turns the result into styled lines,
//! tracking where it is with a [`stack`]. [`laws`] states what every
//! rendering guarantees.
use vstd::prelude::*;

pub mod model;
pub mod fields;
pub mod diff;
pub mod stack;
pub mod render;
pub mod laws;

verus! {

} // verus!
