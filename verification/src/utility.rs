//! Power lines and heat mains.

use vstd::prelude::*;

verus! {

/// Which network a line belongs to.
#[derive(Debug, Clone, Copy, PartialEq, Eq, Structural, Hash, PartialOrd, Ord)]
pub enum Utility {
    /// Current, from a power station.
    Power,
    /// Hot water, from a boiler house.
    Heat,
}

/// What a line of each network is called.
pub open spec fn utility_name(u: Utility) -> Seq<char> {
    match u {
        Utility::Power => "power line"@,
        Utility::Heat => "heat main"@,
    }
}

impl Utility {
    /// What a line of this network is called where the player reads it.
    pub fn name(self) -> (s: &'static str)
        ensures
            s@ == utility_name(self),
    {
        match self {
            Utility::Power => "power line",
            Utility::Heat => "heat main",
        }
    }
}

/// A stable handle to a line under construction.
#[derive(Debug, Clone, Copy, PartialEq, Eq, Structural, Hash, PartialOrd, Ord)]
pub struct LineSiteId(pub u32);

} // verus!
