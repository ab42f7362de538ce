//! A growable list whose elements lie packed, one after another, in a single
//! byte buffer, each behind its own length.
//!
//! The elements of a list are of one type, which need not have one size:
//! a list of `str` holds texts, a list of `[u16]` holds runs of numbers.
//! [`List`] owns the buffer and appends to it. Reading goes by views: a view
//! gives its first element and the view of the rest.
use vstd::prelude::*;

pub mod copyable;
pub mod laws;
pub mod list;
pub mod listing;
pub mod native;
pub mod record;

pub use copyable::{CopyableUnsized, ThinCopy};
pub use list::{List, ListSlice, ListSliceTail, ListSliceTailMut};

verus! {

/// Sum of two sizes.
pub fn add(left: usize, right: usize) -> (sum: usize)
    requires
        left + right <= usize::MAX,
    ensures
        sum == left + right,
{
    left + right
}

} // verus!
