//! What the republic makes, moves and sells.
//!
//! The ids and the chains they form. Chains run downwards: what a thing is
//! made from sits above it.

use crate::geology::Mineral;
use crate::units::Tonnes;
use vstd::prelude::*;

verus! {

/// Everything the economy handles.
///
/// The order is logical and part of the definition: iteration order is part
/// of the simulation wherever an accumulation follows [`Resource::all`].
#[derive(Debug, Clone, Copy, PartialEq, Eq, Structural, Hash, PartialOrd, Ord)]
pub enum Resource {
    Coal,
    IronOre,
    Steel,
    Oil,
    Fuel,
    Bitumen,
    Chemicals,
    Wood,
    Planks,
    Gravel,
    Bricks,
    Cement,
    Concrete,
    PrefabPanel,
    Asphalt,
    Crops,
    Food,
    Clothes,
    Alcohol,
    Machinery,
    Electronics,
    Waste,
}

/// Price per tonne selling to the east, in kopecks.
pub open spec fn price_east_of(r: Resource) -> u64 {
    match r {
        Resource::Coal => 250,
        Resource::IronOre => 300,
        Resource::Steel => 1400,
        Resource::Oil => 500,
        Resource::Fuel => 1000,
        Resource::Bitumen => 400,
        Resource::Chemicals => 2600,
        Resource::Wood => 200,
        Resource::Planks => 500,
        Resource::Gravel => 150,
        Resource::Bricks => 600,
        Resource::Cement => 800,
        Resource::Concrete => 1200,
        Resource::PrefabPanel => 3000,
        Resource::Asphalt => 1300,
        Resource::Crops => 200,
        Resource::Food => 450,
        Resource::Clothes => 900,
        Resource::Alcohol => 4500,
        Resource::Machinery => 8000,
        Resource::Electronics => 14000,
        Resource::Waste => 20,
    }
}

/// Price per tonne buying from the west, in cents.
pub open spec fn price_west_of(r: Resource) -> u64 {
    match r {
        Resource::Coal => 100,
        Resource::IronOre => 150,
        Resource::Steel => 800,
        Resource::Oil => 300,
        Resource::Fuel => 600,
        Resource::Bitumen => 220,
        Resource::Chemicals => 1600,
        Resource::Wood => 100,
        Resource::Planks => 250,
        Resource::Gravel => 70,
        Resource::Bricks => 300,
        Resource::Cement => 450,
        Resource::Concrete => 700,
        Resource::PrefabPanel => 1800,
        Resource::Asphalt => 750,
        Resource::Crops => 100,
        Resource::Food => 200,
        Resource::Clothes => 500,
        Resource::Alcohol => 3000,
        Resource::Machinery => 5000,
        Resource::Electronics => 9500,
        Resource::Waste => 10,
    }
}

impl Resource {
    /// Price per tonne selling to the east, in kopecks.
    ///
    /// The manufactured end of the table is dear on purpose: that gap is the
    /// industrialisation incentive. Rubbish is priced too — every resource is
    /// priced on both sides, so an unpriced one would be a hole in the table.
    pub fn price_east(self) -> (p: u64)
        ensures
            p == price_east_of(self),
    {
        match self {
            Resource::Coal => 250,
            Resource::IronOre => 300,
            Resource::Steel => 1400,
            Resource::Oil => 500,
            Resource::Fuel => 1000,
            Resource::Bitumen => 400,
            Resource::Chemicals => 2600,
            Resource::Wood => 200,
            Resource::Planks => 500,
            Resource::Gravel => 150,
            Resource::Bricks => 600,
            Resource::Cement => 800,
            Resource::Concrete => 1200,
            Resource::PrefabPanel => 3000,
            Resource::Asphalt => 1300,
            Resource::Crops => 200,
            Resource::Food => 450,
            Resource::Clothes => 900,
            Resource::Alcohol => 4500,
            Resource::Machinery => 8000,
            Resource::Electronics => 14000,
            Resource::Waste => 20,
        }
    }

    /// Price per tonne buying from the west, in cents.
    pub fn price_west(self) -> (p: u64)
        ensures
            p == price_west_of(self),
    {
        match self {
            Resource::Coal => 100,
            Resource::IronOre => 150,
            Resource::Steel => 800,
            Resource::Oil => 300,
            Resource::Fuel => 600,
            Resource::Bitumen => 220,
            Resource::Chemicals => 1600,
            Resource::Wood => 100,
            Resource::Planks => 250,
            Resource::Gravel => 70,
            Resource::Bricks => 300,
            Resource::Cement => 450,
            Resource::Concrete => 700,
            Resource::PrefabPanel => 1800,
            Resource::Asphalt => 750,
            Resource::Crops => 100,
            Resource::Food => 200,
            Resource::Clothes => 500,
            Resource::Alcohol => 3000,
            Resource::Machinery => 5000,
            Resource::Electronics => 9500,
            Resource::Waste => 10,
        }
    }
}

/// Every resource is priced on both sides of the border, and the two markets
/// never price it the same: the asymmetry the whole trade game rests on.
pub proof fn every_resource_is_priced_on_both_sides_of_the_border(r: Resource)
    ensures
        price_east_of(r) > 0,
        price_west_of(r) > 0,
        price_east_of(r) != price_west_of(r),
{
}

/// A comfort is worth exporting: it fetches more in the west than steel does.
pub proof fn a_comfort_is_worth_selling(r: Resource)
    requires
        r == Resource::Alcohol || r == Resource::Electronics,
    ensures
        price_west_of(r) > price_west_of(Resource::Steel),
{
}

/// What shape a resource comes in, and therefore what will hold it.
#[derive(Debug, Clone, Copy, PartialEq, Eq, Structural, Hash, PartialOrd, Ord)]
pub enum Form {
    /// Heaps of loose stuff. Tipped, scraped up, and none the worse for rain.
    Aggregate,
    /// Anything that has to be pumped and will run away if it is not contained.
    Liquid,
    /// Powder and grain: it flows, and it spoils wet.
    Bulk,
    /// Solid goods that survive outdoors.
    Open,
    /// Solid goods that want a roof.
    Covered,
}

impl Resource {
    /// Every resource, in the declared order.
    pub open spec fn roster() -> Seq<Resource> {
        seq![
                Resource::Coal,
                Resource::IronOre,
                Resource::Steel,
                Resource::Oil,
                Resource::Fuel,
                Resource::Bitumen,
                Resource::Chemicals,
                Resource::Wood,
                Resource::Planks,
                Resource::Gravel,
                Resource::Bricks,
                Resource::Cement,
                Resource::Concrete,
                Resource::PrefabPanel,
                Resource::Asphalt,
                Resource::Crops,
                Resource::Food,
                Resource::Clothes,
                Resource::Alcohol,
                Resource::Machinery,
                Resource::Electronics,
                Resource::Waste,
        ]
    }

    /// The name a panel shows.
    pub open spec fn name_spec(self) -> Seq<char> {
        match self {
            Resource::Coal => "Coal"@,
            Resource::IronOre => "Iron Ore"@,
            Resource::Steel => "Steel"@,
            Resource::Oil => "Oil"@,
            Resource::Fuel => "Fuel"@,
            Resource::Bitumen => "Bitumen"@,
            Resource::Chemicals => "Chemicals"@,
            Resource::Wood => "Wood"@,
            Resource::Planks => "Planks"@,
            Resource::Gravel => "Gravel"@,
            Resource::Bricks => "Bricks"@,
            Resource::Cement => "Cement"@,
            Resource::Concrete => "Concrete"@,
            Resource::PrefabPanel => "Prefab Panels"@,
            Resource::Asphalt => "Asphalt"@,
            Resource::Crops => "Crops"@,
            Resource::Food => "Food"@,
            Resource::Clothes => "Clothes"@,
            Resource::Alcohol => "Alcohol"@,
            Resource::Machinery => "Machinery"@,
            Resource::Electronics => "Electronics"@,
            Resource::Waste => "Waste"@,
        }
    }

    /// What will hold it.
    pub open spec fn form_spec(self) -> Form {
        match self {
            Resource::Coal => Form::Aggregate,
            Resource::IronOre => Form::Aggregate,
            Resource::Steel => Form::Open,
            Resource::Oil => Form::Liquid,
            Resource::Fuel => Form::Liquid,
            Resource::Bitumen => Form::Liquid,
            Resource::Chemicals => Form::Liquid,
            Resource::Wood => Form::Open,
            Resource::Planks => Form::Open,
            Resource::Gravel => Form::Aggregate,
            Resource::Bricks => Form::Open,
            Resource::Cement => Form::Bulk,
            Resource::Concrete => Form::Open,
            Resource::PrefabPanel => Form::Open,
            Resource::Asphalt => Form::Aggregate,
            Resource::Crops => Form::Bulk,
            Resource::Food => Form::Covered,
            Resource::Clothes => Form::Covered,
            Resource::Alcohol => Form::Liquid,
            Resource::Machinery => Form::Open,
            Resource::Electronics => Form::Covered,
            Resource::Waste => Form::Aggregate,
        }
    }

    /// Every resource, in a fixed order — iteration order is part of the
    /// simulation's definition wherever a draw or an accumulation follows it.
    pub fn all() -> (r: Vec<Resource>)
        ensures
            r@ == Resource::roster(),
    {
        let r = vec![
            Resource::Coal,
            Resource::IronOre,
            Resource::Steel,
            Resource::Oil,
            Resource::Fuel,
            Resource::Bitumen,
            Resource::Chemicals,
            Resource::Wood,
            Resource::Planks,
            Resource::Gravel,
            Resource::Bricks,
            Resource::Cement,
            Resource::Concrete,
            Resource::PrefabPanel,
            Resource::Asphalt,
            Resource::Crops,
            Resource::Food,
            Resource::Clothes,
            Resource::Alcohol,
            Resource::Machinery,
            Resource::Electronics,
            Resource::Waste,
        ];
        assert(r@ =~= Resource::roster());
        r
    }

    pub fn name(self) -> (r: &'static str)
        ensures
            r@ == self.name_spec(),
    {
        match self {
            Resource::Coal => "Coal",
            Resource::IronOre => "Iron Ore",
            Resource::Steel => "Steel",
            Resource::Oil => "Oil",
            Resource::Fuel => "Fuel",
            Resource::Bitumen => "Bitumen",
            Resource::Chemicals => "Chemicals",
            Resource::Wood => "Wood",
            Resource::Planks => "Planks",
            Resource::Gravel => "Gravel",
            Resource::Bricks => "Bricks",
            Resource::Cement => "Cement",
            Resource::Concrete => "Concrete",
            Resource::PrefabPanel => "Prefab Panels",
            Resource::Asphalt => "Asphalt",
            Resource::Crops => "Crops",
            Resource::Food => "Food",
            Resource::Clothes => "Clothes",
            Resource::Alcohol => "Alcohol",
            Resource::Machinery => "Machinery",
            Resource::Electronics => "Electronics",
            Resource::Waste => "Waste",
        }
    }

    /// Whether this is something people are glad of rather than something
    /// they need: drink and household electrics.
    pub fn is_comfort(self) -> (r: bool)
        ensures
            r == (self == Resource::Alcohol || self == Resource::Electronics),
    {
        match self {
            Resource::Alcohol | Resource::Electronics => true,
            _ => false,
        }
    }

    /// What shape this stuff is, and therefore what will hold it.
    pub fn form(self) -> (f: Form)
        ensures
            f == self.form_spec(),
    {
        match self {
            Resource::Coal | Resource::IronOre | Resource::Gravel | Resource::Asphalt
            | Resource::Waste => Form::Aggregate,
            Resource::Oil | Resource::Fuel | Resource::Bitumen | Resource::Chemicals
            | Resource::Alcohol => Form::Liquid,
            Resource::Cement | Resource::Crops => Form::Bulk,
            Resource::Wood | Resource::Planks | Resource::Bricks | Resource::Concrete
            | Resource::PrefabPanel | Resource::Steel | Resource::Machinery => Form::Open,
            Resource::Food | Resource::Clothes | Resource::Electronics => Form::Covered,
        }
    }

    /// The mineral this resource is dug out of, if any.
    pub fn from_mineral(self) -> (m: Option<Mineral>)
        ensures
            m == match self {
                Resource::Coal => Some(Mineral::Coal),
                Resource::IronOre => Some(Mineral::IronOre),
                Resource::Oil => Some(Mineral::Oil),
                Resource::Gravel => Some(Mineral::Gravel),
                _ => None,
            },
    {
        match self {
            Resource::Coal => Some(Mineral::Coal),
            Resource::IronOre => Some(Mineral::IronOre),
            Resource::Oil => Some(Mineral::Oil),
            Resource::Gravel => Some(Mineral::Gravel),
            _ => None,
        }
    }

    /// Where the resource stands in the roster.
    pub open spec fn rank(self) -> int {
        match self {
            Resource::Coal => 0,
            Resource::IronOre => 1,
            Resource::Steel => 2,
            Resource::Oil => 3,
            Resource::Fuel => 4,
            Resource::Bitumen => 5,
            Resource::Chemicals => 6,
            Resource::Wood => 7,
            Resource::Planks => 8,
            Resource::Gravel => 9,
            Resource::Bricks => 10,
            Resource::Cement => 11,
            Resource::Concrete => 12,
            Resource::PrefabPanel => 13,
            Resource::Asphalt => 14,
            Resource::Crops => 15,
            Resource::Food => 16,
            Resource::Clothes => 17,
            Resource::Alcohol => 18,
            Resource::Machinery => 19,
            Resource::Electronics => 20,
            Resource::Waste => 21,
        }
    }

    /// Where the resource stands in the roster.
    pub fn index(self) -> (i: usize)
        ensures
            i < 22,
            i == self.rank(),
            Resource::roster()[i as int] == self,
    {
        match self {
            Resource::Coal => 0,
            Resource::IronOre => 1,
            Resource::Steel => 2,
            Resource::Oil => 3,
            Resource::Fuel => 4,
            Resource::Bitumen => 5,
            Resource::Chemicals => 6,
            Resource::Wood => 7,
            Resource::Planks => 8,
            Resource::Gravel => 9,
            Resource::Bricks => 10,
            Resource::Cement => 11,
            Resource::Concrete => 12,
            Resource::PrefabPanel => 13,
            Resource::Asphalt => 14,
            Resource::Crops => 15,
            Resource::Food => 16,
            Resource::Clothes => 17,
            Resource::Alcohol => 18,
            Resource::Machinery => 19,
            Resource::Electronics => 20,
            Resource::Waste => 21,
        }
    }
}

impl Form {
    /// Every form, in a fixed order.
    pub fn all() -> (r: [Form; 5])
        ensures
            r@ == seq![Form::Aggregate, Form::Liquid, Form::Bulk, Form::Open, Form::Covered],
    {
        let r = [Form::Aggregate, Form::Liquid, Form::Bulk, Form::Open, Form::Covered];
        assert(r@ =~= seq![Form::Aggregate, Form::Liquid, Form::Bulk, Form::Open, Form::Covered]);
        r
    }

    pub fn name(self) -> (r: &'static str)
        ensures
            r@ == match self {
                Form::Aggregate => "Loose"@,
                Form::Liquid => "Liquid"@,
                Form::Bulk => "Granular"@,
                Form::Open => "Open"@,
                Form::Covered => "Covered"@,
            },
    {
        match self {
            Form::Aggregate => "Loose",
            Form::Liquid => "Liquid",
            Form::Bulk => "Granular",
            Form::Open => "Open",
            Form::Covered => "Covered",
        }
    }
}

/// Every resource stands at the place in the roster its rank names, and every
/// place in the roster holds the resource of that rank.
pub proof fn lemma_roster_ranks()
    ensures
        forall|r: Resource| 0 <= #[trigger] r.rank() < 22 && Resource::roster()[r.rank()] == r,
        forall|k: int| 0 <= k < 22 ==> (#[trigger] Resource::roster()[k]).rank() == k,
        Resource::roster().len() == 22,
{
    assert(Resource::roster()[0].rank() == 0);
    assert(Resource::roster()[1].rank() == 1);
    assert(Resource::roster()[2].rank() == 2);
    assert(Resource::roster()[3].rank() == 3);
    assert(Resource::roster()[4].rank() == 4);
    assert(Resource::roster()[5].rank() == 5);
    assert(Resource::roster()[6].rank() == 6);
    assert(Resource::roster()[7].rank() == 7);
    assert(Resource::roster()[8].rank() == 8);
    assert(Resource::roster()[9].rank() == 9);
    assert(Resource::roster()[10].rank() == 10);
    assert(Resource::roster()[11].rank() == 11);
    assert(Resource::roster()[12].rank() == 12);
    assert(Resource::roster()[13].rank() == 13);
    assert(Resource::roster()[14].rank() == 14);
    assert(Resource::roster()[15].rank() == 15);
    assert(Resource::roster()[16].rank() == 16);
    assert(Resource::roster()[17].rank() == 17);
    assert(Resource::roster()[18].rank() == 18);
    assert(Resource::roster()[19].rank() == 19);
    assert(Resource::roster()[20].rank() == 20);
    assert(Resource::roster()[21].rank() == 21);
    assert forall|r: Resource| 0 <= #[trigger] r.rank() < 22 && Resource::roster()[r.rank()] == r by {
        match r {
            Resource::Coal => {},
            Resource::IronOre => {},
            Resource::Steel => {},
            Resource::Oil => {},
            Resource::Fuel => {},
            Resource::Bitumen => {},
            Resource::Chemicals => {},
            Resource::Wood => {},
            Resource::Planks => {},
            Resource::Gravel => {},
            Resource::Bricks => {},
            Resource::Cement => {},
            Resource::Concrete => {},
            Resource::PrefabPanel => {},
            Resource::Asphalt => {},
            Resource::Crops => {},
            Resource::Food => {},
            Resource::Clothes => {},
            Resource::Alcohol => {},
            Resource::Machinery => {},
            Resource::Electronics => {},
            Resource::Waste => {},
        }
    }
}

/// The sum of a run of amounts.
pub open spec fn sum_of(amounts: Seq<u64>) -> int
    decreases amounts.len(),
{
    if amounts.len() == 0 {
        0
    } else {
        sum_of(amounts.drop_last()) + amounts.last()
    }
}

/// The resources among the first `n` of the roster with something in them,
/// with how much, in roster order.
pub open spec fn stocked(amounts: Seq<u64>, n: int) -> Seq<(Resource, Tonnes)>
    decreases n,
{
    if n <= 0 {
        Seq::empty()
    } else if amounts[n - 1] > 0 {
        stocked(amounts, n - 1).push((Resource::roster()[n - 1], Tonnes(amounts[n - 1])))
    } else {
        stocked(amounts, n - 1)
    }
}

/// A per-resource quantity, indexed by [`Resource`]. A shortfall is a smaller
/// delivery, never a debt: an amount is never negative.
#[derive(Debug, Clone, Copy, PartialEq, Eq)]
pub struct Stock {
    held: [u64; 22],
}

impl Stock {
    /// The amount of each resource, by rank.
    pub closed spec fn amounts(&self) -> Seq<u64> {
        self.held@
    }

    pub open spec fn amount_of(&self, r: Resource) -> u64 {
        self.amounts()[r.rank()]
    }

    pub proof fn lemma_len(&self)
        ensures
            self.amounts().len() == 22,
    {
    }

    /// Nothing of anything.
    pub fn empty() -> (s: Stock)
        ensures
            s.amounts() == Seq::new(22, |i: int| 0u64),
            forall|r: Resource| #[trigger] s.amount_of(r) == 0,
    {
        let s = Stock { held: [0u64; 22] };
        assert(s.held@ =~= Seq::new(22, |i: int| 0u64));
        proof {
            lemma_roster_ranks();
        }
        s
    }

    pub fn get(&self, r: Resource) -> (t: Tonnes)
        ensures
            t.0 == self.amount_of(r),
    {
        proof {
            lemma_roster_ranks();
        }
        Tonnes(self.held[r.index()])
    }

    pub fn set(&mut self, r: Resource, amount: Tonnes)
        ensures
            final(self).amounts() == old(self).amounts().update(r.rank(), amount.0),
    {
        let i = r.index();
        self.held[i] = amount.0;
    }

    pub fn add(&mut self, r: Resource, amount: Tonnes)
        requires
            old(self).amount_of(r) + amount.0 <= u64::MAX,
        ensures
            final(self).amounts() == old(self).amounts().update(r.rank(), (old(self).amount_of(r) + amount.0) as u64),
    {
        let now = self.get(r);
        self.set(r, Tonnes(now.0 + amount.0));
    }

    /// Take up to `amount`, returning what was actually there. Never goes
    /// negative: a shortfall is a smaller delivery, not a debt.
    pub fn take(&mut self, r: Resource, amount: Tonnes) -> (taken: Tonnes)
        ensures
            taken.0 == if amount.0 <= old(self).amount_of(r) {
                amount.0
            } else {
                old(self).amount_of(r)
            },
            final(self).amounts() == old(self).amounts().update(r.rank(), (old(self).amount_of(r) - taken.0) as u64),
    {
        let now = self.get(r);
        let taken = amount.min(now);
        self.set(r, Tonnes(now.0 - taken.0));
        taken
    }

    /// Everything held, of every resource.
    pub fn total(&self) -> (t: Tonnes)
        requires
            sum_of(self.amounts()) <= u64::MAX,
        ensures
            t.0 == sum_of(self.amounts()),
    {
        let mut sum: u64 = 0;
        let mut i: usize = 0;
        while i < 22
            invariant
                i <= 22,
                self.held@.len() == 22,
                sum_of(self.held@) <= u64::MAX,
                sum == sum_of(self.held@.take(i as int)),
            decreases 22 - i,
        {
            proof {
                assert(self.held@.take(i + 1).drop_last() =~= self.held@.take(i as int));
                lemma_sum_prefix(self.held@, i + 1);
            }
            sum = sum + self.held[i];
            i = i + 1;
        }
        assert(self.held@.take(22) =~= self.held@);
        Tonnes(sum)
    }

    /// Whether there is nothing of anything.
    pub fn is_empty(&self) -> (r: bool)
        ensures
            r == forall|res: Resource| #[trigger] self.amount_of(res) == 0,
    {
        proof {
            lemma_roster_ranks();
        }
        let mut i: usize = 0;
        while i < 22
            invariant
                i <= 22,
                self.held@.len() == 22,
                forall|k: int| 0 <= k < i ==> self.held@[k] == 0,
            decreases 22 - i,
        {
            if self.held[i] != 0 {
                proof {
                    let res = Resource::roster()[i as int];
                    assert(res.rank() == i);
                    assert(self.amount_of(res) != 0);
                }
                return false;
            }
            i = i + 1;
        }
        true
    }

    /// Every resource with something in it, in roster order.
    pub fn iter(&self) -> (r: Vec<(Resource, Tonnes)>)
        ensures
            r@ == stocked(self.amounts(), 22),
    {
        proof {
            lemma_roster_ranks();
        }
        let all = Resource::all();
        let mut out: Vec<(Resource, Tonnes)> = Vec::new();
        let mut i: usize = 0;
        while i < 22
            invariant
                i <= 22,
                all@ == Resource::roster(),
                self.held@.len() == 22,
                forall|k: int| 0 <= k < 22 ==> (#[trigger] Resource::roster()[k]).rank() == k,
                out@ == stocked(self.held@, i as int),
            decreases 22 - i,
        {
            let res = all[i];
            let t = self.get(res);
            assert(res.rank() == i);
            if t.0 > 0 {
                out.push((res, t));
            }
            i = i + 1;
        }
        out
    }
}

proof fn lemma_sum_prefix(amounts: Seq<u64>, k: int)
    requires
        0 <= k <= amounts.len(),
    ensures
        0 <= sum_of(amounts.take(k)) <= sum_of(amounts),
    decreases amounts.len(),
{
    if amounts.len() > 0 {
        if k == amounts.len() {
            assert(amounts.take(k) =~= amounts);
            lemma_sum_prefix(amounts.drop_last(), k - 1);
            assert(amounts.drop_last().take(k - 1) =~= amounts.drop_last());
        } else {
            lemma_sum_prefix(amounts.drop_last(), k);
            assert(amounts.drop_last().take(k) =~= amounts.take(k));
        }
    } else {
        assert(amounts.take(k) =~= amounts);
    }
}

} // verus!
