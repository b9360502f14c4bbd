//! The two blocs across the border, and the posts where goods cross it.

use crate::resource::Resource;
use crate::units::Tonnes;
use vstd::prelude::*;

verus! {

/// A bloc the republic trades with. Each settles in its own currency.
#[derive(Debug, Clone, Copy, PartialEq, Eq, Structural, Hash, PartialOrd, Ord)]
pub enum Market {
    East,
    West,
}

impl Market {
    /// Every bloc, in a fixed order.
    pub fn all() -> (r: [Market; 2])
        ensures
            r@ == seq![Market::East, Market::West],
    {
        let r = [Market::East, Market::West];
        assert(r@ =~= seq![Market::East, Market::West]);
        r
    }

    /// What the bloc is called where the player reads it.
    pub fn name(self) -> (s: &'static str)
        ensures
            s@ == market_name(self),
    {
        match self {
            Market::East => "Eastern Bloc",
            Market::West => "Western Bloc",
        }
    }
}

/// What a bloc is called.
pub open spec fn market_name(m: Market) -> Seq<char> {
    match m {
        Market::East => "Eastern Bloc"@,
        Market::West => "Western Bloc"@,
    }
}

/// What a standing instruction at the customs houses does with a resource.
#[derive(Debug, Clone, Copy, PartialEq, Eq, Structural)]
pub enum TradeAction {
    /// Import until the stock at the crossing is back up to `up_to`.
    Buy { up_to: Tonnes },
    /// Export whatever of it reaches the crossing.
    Sell,
}

/// One standing instruction: a resource, the bloc it is traded with, and
/// which way it goes.
#[derive(Debug, Clone, Copy, PartialEq, Eq, Structural)]
pub struct TradeRule {
    pub resource: Resource,
    pub market: Market,
    pub action: TradeAction,
}

/// A stable handle to a frontier post.
#[derive(Debug, Clone, Copy, PartialEq, Eq, Structural, Hash, PartialOrd, Ord)]
pub struct CrossingId(pub u32);

} // verus!
