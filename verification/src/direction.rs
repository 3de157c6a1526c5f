//! Orientation of a word slot.

use vstd::prelude::*;

verus! {

/// The two orientations a slot can have.  A horizontal slot runs
/// left-to-right within a row; a vertical slot runs top-to-bottom
/// within a column.
#[derive(Clone, Copy, PartialEq, Eq, Structural, Debug)]
pub enum Direction {
    Horizontal,
    Vertical,
}

} // verus!
