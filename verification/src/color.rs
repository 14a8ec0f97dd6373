//! The colour of a cell.

use vstd::prelude::*;

verus! {

/// The colour of one cell, with a mark for cells that an insertion
/// synthesized. Two colours are equal if their channels are; the mark does
/// not count.
#[derive(Clone, Copy, Debug)]
pub struct CustomColor {
    pub r: u8,
    pub g: u8,
    pub b: u8,
    pub is_inserted: bool,
}

impl PartialEq for CustomColor {
    /// Whether the three channels are equal.
    fn eq(&self, other: &Self) -> (same: bool) {
        self.r == other.r && self.g == other.g && self.b == other.b
    }
}

impl vstd::std_specs::cmp::PartialEqSpecImpl for CustomColor {
    /// `==` on colours is what `eq_spec` says.
    open spec fn obeys_eq_spec() -> bool {
        true
    }

    /// Whether the three channels are equal.
    open spec fn eq_spec(&self, other: &Self) -> bool {
        self.r == other.r && self.g == other.g && self.b == other.b
    }
}

} // verus!
