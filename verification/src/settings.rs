//! The tunable costs of the search.

use vstd::prelude::*;

verus! {

pub const DEFAULT_WIRE_COST: usize = 1;

pub const DEFAULT_STRIP_COST: usize = 2;

pub const DEFAULT_VIA_COST: usize = 3;

pub const DEFAULT_CUT_COST: usize = 4;

/// What each element of a layout costs.
#[derive(Clone, Copy, PartialEq, Eq, Structural, Debug)]
pub struct Settings {
    /// One step along a row on the wire layer, and one pass through a committed jumper.
    pub wire_cost: usize,
    /// One step along a column on the strip layer.
    pub strip_cost: usize,
    /// One change of layer.
    pub via_cost: usize,
    /// One cut in a strip.
    pub cut_cost: usize,
}

impl Settings {
    pub fn new() -> (s: Self)
        ensures
            s.wire_cost == 1,
            s.strip_cost == 2,
            s.via_cost == 3,
            s.cut_cost == 4,
    {
        Self {
            wire_cost: DEFAULT_WIRE_COST,
            strip_cost: DEFAULT_STRIP_COST,
            via_cost: DEFAULT_VIA_COST,
            cut_cost: DEFAULT_CUT_COST,
        }
    }

    /// The largest of the three step costs.
    pub open spec fn spec_max_step_cost(&self) -> int {
        let a = if self.wire_cost >= self.strip_cost { self.wire_cost } else { self.strip_cost };
        if a >= self.via_cost { a as int } else { self.via_cost as int }
    }

    /// The largest of the three step costs.
    pub fn max_step_cost(&self) -> (m: usize)
        ensures
            m == self.spec_max_step_cost(),
    {
        let a: usize = if self.wire_cost >= self.strip_cost { self.wire_cost } else { self.strip_cost };
        if a >= self.via_cost { a } else { self.via_cost }
    }
}

} // verus!
