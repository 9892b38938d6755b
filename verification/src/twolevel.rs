use vstd::prelude::*;

use crate::Label;

verus! {

/// The two-point lattice: public data below secret data.
#[derive(Clone, Debug, PartialEq, Eq, Structural)]
pub enum TwoLevel {
    Low,
    High,
}

impl TwoLevel {
    /// The least upper bound: high as soon as either side is.
    pub fn join(&self, rhs: &Self) -> (r: Self)
        ensures
            r == (if *self == TwoLevel::High || *rhs == TwoLevel::High {
                TwoLevel::High
            } else {
                TwoLevel::Low
            }),
    {
        match (self, rhs) {
            (TwoLevel::High, _) => TwoLevel::High,
            (_, TwoLevel::High) => TwoLevel::High,
            _ => TwoLevel::Low,
        }
    }

    /// The greatest lower bound: low as soon as either side is.
    pub fn meet(&self, rhs: &Self) -> (r: Self)
        ensures
            r == (if *self == TwoLevel::Low || *rhs == TwoLevel::Low {
                TwoLevel::Low
            } else {
                TwoLevel::High
            }),
    {
        match (self, rhs) {
            (TwoLevel::Low, _) => TwoLevel::Low,
            (_, TwoLevel::Low) => TwoLevel::Low,
            _ => TwoLevel::High,
        }
    }

    /// Data flows up: low flows anywhere, high only to high.
    pub fn can_flow_to(&self, rhs: &Self) -> (r: bool)
        ensures
            r == (*self == TwoLevel::Low || *rhs == TwoLevel::High),
    {
        match (self, rhs) {
            (TwoLevel::High, TwoLevel::High) => true,
            (TwoLevel::Low, _) => true,
            _ => false,
        }
    }
}

impl Label for TwoLevel {
    open spec fn lwf(&self) -> bool {
        true
    }

    fn join(&self, rhs: &Self) -> (r: Self) {
        TwoLevel::join(self, rhs)
    }

    fn meet(&self, rhs: &Self) -> (r: Self) {
        TwoLevel::meet(self, rhs)
    }

    fn can_flow_to(&self, rhs: &Self) -> bool {
        TwoLevel::can_flow_to(self, rhs)
    }
}

} // verus!
