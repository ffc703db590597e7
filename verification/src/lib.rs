//! Resolution of icon names to files inside installed icon themes.
//!
//! A theme is a directory of size-qualified subdirectories described by an
//! index document. This crate holds the decisions of a lookup: which theme
//! directories form the catalog, which subdirectories fit a requested size,
//! in which order they are tried, and which file is picked. Reading the file
//! system is left to the caller, who hands in what it found as plain values.
use vstd::prelude::*;

pub mod theme;

verus! {

/// How subdirectories are ranked when none fits the requested size exactly.
#[derive(Clone, Copy, Debug, PartialEq, Eq, Structural)]
pub enum SizeScheme {
    /// The smallest absolute distance first.
    Closest,
    /// Subdirectories larger than the request first, nearest first.
    LargerClosest,
    /// Subdirectories smaller than the request first, nearest first.
    SmallerClosest,
}

} // verus!
