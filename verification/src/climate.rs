//! Which sky a republic was posted under.

use vstd::prelude::*;

verus! {

/// Which climate a republic was posted to.
#[derive(Debug, Clone, Copy, PartialEq, Eq, Structural, Hash, PartialOrd, Ord)]
pub enum ClimateId {
    Plains,
    Taiga,
    Steppe,
    Maritime,
}

impl ClimateId {
    /// Every climate, in a fixed order.
    pub fn all() -> (r: [ClimateId; 4])
        ensures
            r@ == seq![ClimateId::Plains, ClimateId::Taiga, ClimateId::Steppe, ClimateId::Maritime],
    {
        let r = [ClimateId::Plains, ClimateId::Taiga, ClimateId::Steppe, ClimateId::Maritime];
        assert(r@ =~= seq![ClimateId::Plains, ClimateId::Taiga, ClimateId::Steppe, ClimateId::Maritime]);
        r
    }
}

} // verus!
