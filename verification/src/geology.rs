//! What lies under the ground.
//!
//! A **deposit is a body, not a tile and not a building.** It occupies a real
//! volume beneath the surface: a horizontal extent on the ground plane, a depth
//! at which it begins, and a stack of [`Layer`]s going down. Each layer holds a
//! finite tonnage.
//!
//! Extraction always works the shallowest layer that still has anything in
//! it. When a layer runs out the working depth steps down to the next one, and
//! everything about the operation gets more expensive. A deposit does not fail
//! suddenly; it gets steadily dearer to work.
//!
//! The player reads geology through the survey — see [`Deposit::survey`] — and
//! the founding screen's candidate cards report the same reading.

use crate::units::{distance, Metres, Point, Tonnes};
use vstd::prelude::*;
use vstd::relations::{sorted_by, total_ordering};

verus! {

/// What can be underground.
///
/// Groundwater is a peer from the start rather than a later addition.
#[derive(Debug, Clone, Copy, PartialEq, Eq, Structural, Hash, PartialOrd, Ord)]
pub enum Mineral {
    Coal,
    IronOre,
    Oil,
    Gravel,
    Groundwater,
}

impl Mineral {
    /// Every mineral, in a fixed order.
    ///
    /// Fixed order matters: anything that iterates minerals while drawing from
    /// the simulation stream would otherwise produce a different world per run.
    pub fn all() -> (r: [Mineral; 5])
        ensures
            r@ == seq![
                Mineral::Coal,
                Mineral::IronOre,
                Mineral::Oil,
                Mineral::Gravel,
                Mineral::Groundwater,
            ],
    {
        let r = [Mineral::Coal, Mineral::IronOre, Mineral::Oil, Mineral::Gravel, Mineral::Groundwater];
        assert(r@ =~= seq![
            Mineral::Coal,
            Mineral::IronOre,
            Mineral::Oil,
            Mineral::Gravel,
            Mineral::Groundwater,
        ]);
        r
    }

    /// Whether the body refills. Only groundwater does — an aquifer recharges,
    /// a coal seam does not.
    pub fn recharges(self) -> (r: bool)
        ensures
            r == (self == Mineral::Groundwater),
    {
        match self {
            Mineral::Groundwater => true,
            _ => false,
        }
    }

    /// What the mineral is called where the player reads it.
    pub fn name(self) -> (s: &'static str)
        ensures
            s@ == mineral_name(self),
    {
        match self {
            Mineral::Coal => "Coal",
            Mineral::IronOre => "Iron Ore",
            Mineral::Oil => "Oil",
            Mineral::Gravel => "Gravel",
            Mineral::Groundwater => "Groundwater",
        }
    }
}

/// The name a mineral goes by.
pub open spec fn mineral_name(m: Mineral) -> Seq<char> {
    match m {
        Mineral::Coal => "Coal"@,
        Mineral::IronOre => "Iron Ore"@,
        Mineral::Oil => "Oil"@,
        Mineral::Gravel => "Gravel"@,
        Mineral::Groundwater => "Groundwater"@,
    }
}

/// A stable handle to a deposit.
#[derive(Debug, Clone, Copy, PartialEq, Eq, Structural, Hash, PartialOrd, Ord)]
pub struct DepositId(pub u32);

/// One horizon within a deposit. Layers are ordered shallowest first.
#[derive(Debug, Clone, Copy, PartialEq, Eq, Structural)]
pub struct Layer {
    /// How thick this horizon is.
    pub thickness: Metres,
    /// What is left in it.
    pub remaining: Tonnes,
    /// What it held when the map was made — the denominator for "how worked
    /// out is this?".
    pub initial: Tonnes,
}

impl Layer {
    pub fn new(thickness: Metres, tonnes: Tonnes) -> (l: Layer)
        ensures
            l.thickness == thickness,
            l.remaining == tonnes,
            l.initial == tonnes,
    {
        Layer { thickness, remaining: tonnes, initial: tonnes }
    }

    pub fn is_worked_out(&self) -> (r: bool)
        ensures
            r == (self.remaining.0 == 0),
    {
        !self.remaining.is_positive()
    }
}

/// A body of mineral under the ground.
#[derive(Debug, Clone, PartialEq)]
pub struct Deposit {
    pub id: DepositId,
    pub mineral: Mineral,
    /// Centre of the horizontal extent.
    pub centre: Point,
    /// Horizontal reach from the centre. A disc for now.
    pub radius: Metres,
    /// Depth below the surface at which the body begins.
    pub top: Metres,
    /// Horizons, shallowest first.
    pub layers: Vec<Layer>,
}

/// What extraction actually got, and how deep it had to work for it.
#[derive(Debug, Clone, Copy, PartialEq, Eq, Structural)]
pub struct Yield {
    pub tonnes: Tonnes,
    /// Depth the material came from — what the cost of getting it scales with.
    pub depth: Metres,
}

/// What a survey tells the player about one body.
///
/// A reading, not the body itself: it says what is there and how worked out it
/// is, and deliberately says nothing the player has no way to know.
#[derive(Debug, Clone, Copy, PartialEq, Eq, Structural)]
pub struct SurveyReading {
    pub id: DepositId,
    pub mineral: Mineral,
    pub centre: Point,
    pub radius: Metres,
    pub top: Metres,
    pub remaining: Tonnes,
    pub initial: Tonnes,
    /// Depth extraction is currently working at.
    pub working_depth: Metres,
}

/// The largest tonnage a `Tonnes` can hold.
pub open spec fn cap_tonnes(t: int) -> int {
    if t <= u64::MAX {
        t
    } else {
        u64::MAX as int
    }
}

/// A depth clamped to what a `Metres` can hold.
pub open spec fn clamp_metres(d: int) -> int {
    if d > i64::MAX {
        i64::MAX as int
    } else if d < i64::MIN {
        i64::MIN as int
    } else {
        d
    }
}

/// Everything left in a run of layers.
pub open spec fn total_remaining(layers: Seq<Layer>) -> int
    decreases layers.len(),
{
    if layers.len() == 0 {
        0
    } else {
        total_remaining(layers.drop_last()) + layers.last().remaining.0
    }
}

/// Everything a run of layers ever held.
pub open spec fn total_initial(layers: Seq<Layer>) -> int
    decreases layers.len(),
{
    if layers.len() == 0 {
        0
    } else {
        total_initial(layers.drop_last()) + layers.last().initial.0
    }
}

/// The depth below the first `k` layers, starting from `top`, each step held
/// to what a `Metres` can hold.
pub open spec fn depth_below(top: int, layers: Seq<Layer>, k: int) -> int
    decreases k,
{
    if k <= 0 {
        top
    } else {
        clamp_metres(depth_below(top, layers, k - 1) + layers[k - 1].thickness.0)
    }
}

/// Index of the shallowest layer with anything left, or the layer count when
/// every layer is worked out.
pub open spec fn live_index(layers: Seq<Layer>) -> int
    decreases layers.len(),
{
    if layers.len() == 0 {
        0
    } else if layers[0].remaining.0 > 0 {
        0
    } else {
        1 + live_index(layers.drop_first())
    }
}

/// Take up to `want` tonnes from a run of layers, shallowest first.
pub open spec fn drained(layers: Seq<Layer>, want: int) -> Seq<Layer>
    decreases layers.len(),
{
    if layers.len() == 0 {
        layers
    } else {
        let l = layers[0];
        let take = if want <= l.remaining.0 { want } else { l.remaining.0 as int };
        seq![Layer { remaining: Tonnes((l.remaining.0 - take) as u64), ..l }] + drained(
            layers.drop_first(),
            want - take,
        )
    }
}

/// Put back up to `amount` tonnes, shallowest first, never past what a layer
/// originally held.
pub open spec fn refilled(layers: Seq<Layer>, amount: int) -> Seq<Layer>
    decreases layers.len(),
{
    if layers.len() == 0 {
        layers
    } else {
        let l = layers[0];
        let room = if l.initial.0 >= l.remaining.0 { l.initial.0 - l.remaining.0 } else { 0 };
        let added = if amount <= room { amount } else { room };
        seq![Layer { remaining: Tonnes((l.remaining.0 + added) as u64), ..l }] + refilled(
            layers.drop_first(),
            amount - added,
        )
    }
}

impl Deposit {
    /// What the body still holds, capped at what a `Tonnes` can hold.
    pub open spec fn remaining_spec(&self) -> int {
        cap_tonnes(total_remaining(self.layers@))
    }

    /// What the body ever held, capped at what a `Tonnes` can hold.
    pub open spec fn initial_spec(&self) -> int {
        cap_tonnes(total_initial(self.layers@))
    }

    /// The depth work happens at: the top of the shallowest live layer.
    pub open spec fn working_depth_spec(&self) -> int {
        depth_below(self.top.0 as int, self.layers@, live_index(self.layers@))
    }

    /// Whether the body has nothing left in it.
    pub open spec fn exhausted_spec(&self) -> bool {
        total_remaining(self.layers@) == 0
    }

    /// Whether a point on the surface sits over this body.
    pub open spec fn covers_spec(&self, point: Point) -> bool {
        distance(self.centre, point) <= self.radius.0
    }

    pub fn new(
        id: DepositId,
        mineral: Mineral,
        centre: Point,
        radius: Metres,
        top: Metres,
        layers: Vec<Layer>,
    ) -> (d: Deposit)
        ensures
            d.id == id,
            d.mineral == mineral,
            d.centre == centre,
            d.radius == radius,
            d.top == top,
            d.layers@ == layers@,
    {
        Deposit { id, mineral, centre, radius, top, layers }
    }

    /// Whether a point on the surface sits over this body — which is what
    /// decides whether a mine built there can tap it.
    pub fn covers(&self, point: Point) -> (r: bool)
        ensures
            r == self.covers_spec(point),
    {
        self.centre.distance_to(point).0 <= self.radius.0
    }

    /// Everything still in the ground.
    pub fn remaining(&self) -> (t: Tonnes)
        ensures
            t.0 == self.remaining_spec(),
    {
        let mut total: u64 = 0;
        let mut i: usize = 0;
        while i < self.layers.len()
            invariant
                i <= self.layers@.len(),
                total == cap_tonnes(total_remaining(self.layers@.take(i as int))),
            decreases self.layers@.len() - i,
        {
            proof {
                lemma_total_remaining_step(self.layers@, i as int);
            }
            total = total.saturating_add(self.layers[i].remaining.0);
            i = i + 1;
        }
        assert(self.layers@.take(i as int) =~= self.layers@);
        Tonnes(total)
    }

    /// Everything the body ever held.
    pub fn initial(&self) -> (t: Tonnes)
        ensures
            t.0 == self.initial_spec(),
    {
        let mut total: u64 = 0;
        let mut i: usize = 0;
        while i < self.layers.len()
            invariant
                i <= self.layers@.len(),
                total == cap_tonnes(total_initial(self.layers@.take(i as int))),
            decreases self.layers@.len() - i,
        {
            proof {
                lemma_total_initial_step(self.layers@, i as int);
            }
            total = total.saturating_add(self.layers[i].initial.0);
            i = i + 1;
        }
        assert(self.layers@.take(i as int) =~= self.layers@);
        Tonnes(total)
    }

    pub fn is_exhausted(&self) -> (r: bool)
        ensures
            r == self.exhausted_spec(),
    {
        proof {
            lemma_total_remaining_nonneg(self.layers@);
        }
        !self.remaining().is_positive()
    }

    /// Index of the shallowest layer with anything left.
    pub fn live_layer(&self) -> (r: Option<usize>)
        ensures
            match r {
                Some(i) => i == live_index(self.layers@) && i < self.layers@.len(),
                None => live_index(self.layers@) == self.layers@.len(),
            },
    {
        let mut i: usize = 0;
        while i < self.layers.len()
            invariant
                i <= self.layers@.len(),
                forall|j: int| 0 <= j < i ==> #[trigger] self.layers@[j].remaining.0 == 0,
            decreases self.layers@.len() - i,
        {
            if self.layers[i].remaining.0 > 0 {
                proof {
                    lemma_live_index_is(self.layers@, i as int);
                }
                return Some(i);
            }
            i = i + 1;
        }
        proof {
            lemma_live_index_is(self.layers@, i as int);
        }
        None
    }

    /// Depth work is happening at: the top of the shallowest live layer.
    ///
    /// An exhausted body reports the bottom of the whole thing, which is where
    /// work would be if there were anything left to do.
    pub fn working_depth(&self) -> (d: Metres)
        ensures
            d.0 == self.working_depth_spec(),
    {
        let stop = match self.live_layer() {
            Some(i) => i,
            None => self.layers.len(),
        };
        let mut depth: i64 = self.top.0;
        let mut i: usize = 0;
        while i < stop
            invariant
                stop == live_index(self.layers@),
                stop <= self.layers@.len(),
                i <= stop,
                depth == depth_below(self.top.0 as int, self.layers@, i as int),
            decreases stop - i,
        {
            let sum: i128 = depth as i128 + self.layers[i].thickness.0 as i128;
            depth = if sum > i64::MAX as i128 {
                i64::MAX
            } else if sum < i64::MIN as i128 {
                i64::MIN
            } else {
                sum as i64
            };
            i = i + 1;
        }
        Metres(depth)
    }

    /// Take up to `wanted` tonnes, working down through the layers.
    ///
    /// Returns what was actually available, which may be less — and the depth
    /// it came from, since that is what the operation costs. A request that
    /// spans a layer boundary reports the depth it *finished* at.
    pub fn extract(&mut self, wanted: Tonnes) -> (y: Yield)
        ensures
            final(self).layers@ == drained(old(self).layers@, wanted.0 as int),
            y.tonnes.0 == if wanted.0 <= total_remaining(old(self).layers@) {
                wanted.0 as int
            } else {
                total_remaining(old(self).layers@)
            },
            y.depth.0 == final(self).working_depth_spec(),
            final(self).id == old(self).id,
            final(self).mineral == old(self).mineral,
            final(self).centre == old(self).centre,
            final(self).radius == old(self).radius,
            final(self).top == old(self).top,
    {
        let ghost orig = self.layers@;
        let mut got: u64 = 0;
        let mut outstanding: u64 = wanted.0;
        let mut i: usize = 0;
        assert(orig.skip(0) =~= orig);
        assert(self.layers@.take(0) + drained(orig, wanted.0 as int) =~= drained(orig, wanted.0 as int));
        while i < self.layers.len()
            invariant
                i <= self.layers@.len(),
                self.layers@.len() == orig.len(),
                got + outstanding == wanted.0,
                got == total_remaining(orig.take(i as int)) - total_remaining(
                    self.layers@.take(i as int),
                ),
                self.layers@.take(i as int) + drained(orig.skip(i as int), outstanding as int)
                    == drained(orig, wanted.0 as int),
                self.layers@.skip(i as int) == orig.skip(i as int),
                total_remaining(self.layers@.take(i as int)) == 0 || outstanding == 0,
                self.id == old(self).id,
                self.mineral == old(self).mineral,
                self.centre == old(self).centre,
                self.radius == old(self).radius,
                self.top == old(self).top,
            decreases self.layers@.len() - i,
        {
            let layer = self.layers[i];
            let taken = if outstanding <= layer.remaining.0 {
                outstanding
            } else {
                layer.remaining.0
            };
            let ghost before = self.layers@;
            self.layers.set(i, Layer { remaining: Tonnes(layer.remaining.0 - taken), ..layer });
            proof {
                lemma_extract_step(orig, before, self.layers@, i as int, outstanding as int, taken as int);
            }
            got = got + taken;
            outstanding = outstanding - taken;
            i = i + 1;
        }
        proof {
            assert(self.layers@.take(i as int) =~= self.layers@);
            assert(orig.take(i as int) =~= orig);
            assert(orig.skip(i as int) =~= Seq::<Layer>::empty());
            assert(self.layers@ + Seq::<Layer>::empty() =~= self.layers@);
            lemma_total_remaining_nonneg(orig);
            lemma_total_remaining_nonneg(self.layers@);
        }
        let depth = self.working_depth();
        Yield { tonnes: Tonnes(got), depth }
    }

    /// Put water back. Only ever called for a recharging mineral — an aquifer
    /// refills, and nothing else does.
    ///
    /// Recharge fills from the shallowest layer down and never exceeds what
    /// the horizon originally held, so a well cannot manufacture an aquifer
    /// larger than the ground it sits in.
    pub fn recharge(&mut self, amount: Tonnes)
        requires
            old(self).mineral.recharges_spec(),
        ensures
            final(self).layers@ == refilled(old(self).layers@, amount.0 as int),
            final(self).id == old(self).id,
            final(self).mineral == old(self).mineral,
            final(self).centre == old(self).centre,
            final(self).radius == old(self).radius,
            final(self).top == old(self).top,
    {
        let ghost orig = self.layers@;
        let mut spare: u64 = amount.0;
        let mut i: usize = 0;
        assert(orig.skip(0) =~= orig);
        assert(self.layers@.take(0) + refilled(orig, amount.0 as int) =~= refilled(orig, amount.0 as int));
        while i < self.layers.len()
            invariant
                i <= self.layers@.len(),
                self.layers@.len() == orig.len(),
                orig == old(self).layers@,
                self.layers@.take(i as int) + refilled(orig.skip(i as int), spare as int)
                    == refilled(orig, amount.0 as int),
                self.layers@.skip(i as int) == orig.skip(i as int),
                self.id == old(self).id,
                self.mineral == old(self).mineral,
                self.centre == old(self).centre,
                self.radius == old(self).radius,
                self.top == old(self).top,
            decreases self.layers@.len() - i,
        {
            if spare == 0 {
                proof {
                    lemma_refill_nothing(orig.skip(i as int));
                    assert(self.layers@ =~= self.layers@.take(i as int) + self.layers@.skip(i as int));
                    assert(self.layers@ =~= self.layers@.take(i as int) + orig.skip(i as int));
                }
                return;
            }
            let layer = self.layers[i];
            let room = if layer.initial.0 >= layer.remaining.0 {
                layer.initial.0 - layer.remaining.0
            } else {
                0
            };
            let added = if spare <= room { spare } else { room };
            let ghost before = self.layers@;
            self.layers.set(i, Layer { remaining: Tonnes(layer.remaining.0 + added), ..layer });
            proof {
                lemma_refill_step(orig, before, self.layers@, i as int, spare as int, added as int);
            }
            spare = spare - added;
            i = i + 1;
        }
        proof {
            assert(self.layers@.take(i as int) =~= self.layers@);
            assert(orig.skip(i as int) =~= Seq::<Layer>::empty());
            assert(self.layers@ + Seq::<Layer>::empty() =~= self.layers@);
        }
    }

    pub fn survey(&self) -> (r: SurveyReading)
        ensures
            r == reading(*self),
            r.id == self.id,
            r.mineral == self.mineral,
            r.centre == self.centre,
            r.radius == self.radius,
            r.top == self.top,
            r.remaining.0 == self.remaining_spec(),
            r.initial.0 == self.initial_spec(),
            r.working_depth.0 == self.working_depth_spec(),
    {
        SurveyReading {
            id: self.id,
            mineral: self.mineral,
            centre: self.centre,
            radius: self.radius,
            top: self.top,
            remaining: self.remaining(),
            initial: self.initial(),
            working_depth: self.working_depth(),
        }
    }
}

impl Mineral {
    pub open spec fn recharges_spec(self) -> bool {
        self == Mineral::Groundwater
    }
}

/// What the survey reports for one body.
pub open spec fn reading(d: Deposit) -> SurveyReading {
    SurveyReading {
        id: d.id,
        mineral: d.mineral,
        centre: d.centre,
        radius: d.radius,
        top: d.top,
        remaining: Tonnes(d.remaining_spec() as u64),
        initial: Tonnes(d.initial_spec() as u64),
        working_depth: Metres(d.working_depth_spec() as i64),
    }
}

/// Index of the first deposit carrying an id, or the count when none does.
pub open spec fn index_of(ds: Seq<Deposit>, id: DepositId) -> int
    decreases ds.len(),
{
    if ds.len() == 0 {
        0
    } else if ds[0].id == id {
        0
    } else {
        1 + index_of(ds.drop_first(), id)
    }
}

/// Whether a deposit carries this id.
pub open spec fn has_id(ds: Seq<Deposit>, id: DepositId) -> bool {
    exists|i: int| 0 <= i < ds.len() && #[trigger] ds[i].id == id
}

/// How bodies a mine could tap are ranked: shallowest first, then by id.
pub open spec fn key_leq(a: (i64, u32), b: (i64, u32)) -> bool {
    a.0 < b.0 || (a.0 == b.0 && a.1 <= b.1)
}

/// The ranking keys of the bodies that cover a point, in storage order.
pub open spec fn covering_keys(ds: Seq<Deposit>, point: Point) -> Seq<(i64, u32)>
    decreases ds.len(),
{
    if ds.len() == 0 {
        Seq::empty()
    } else {
        let d = ds.last();
        let rest = covering_keys(ds.drop_last(), point);
        if d.covers_spec(point) {
            rest.push((d.top.0, d.id.0))
        } else {
            rest
        }
    }
}

/// Everything still in the ground of one mineral, each body capped as its own
/// total is.
pub open spec fn mineral_total(ds: Seq<Deposit>, mineral: Mineral) -> int
    decreases ds.len(),
{
    if ds.len() == 0 {
        0
    } else {
        mineral_total(ds.drop_last(), mineral) + if ds.last().mineral == mineral {
            ds.last().remaining_spec()
        } else {
            0
        }
    }
}

/// Whether a body counts as somewhere to dig this mineral.
pub open spec fn workable(d: Deposit, mineral: Mineral) -> bool {
    d.mineral == mineral && !d.exhausted_spec()
}

/// Distance from a point to the edge of a body, zero when standing over it.
pub open spec fn gap(d: Deposit, point: Point) -> int {
    let g = distance(d.centre, point) - d.radius.0;
    if g < 0 {
        0
    } else if g > i64::MAX {
        i64::MAX as int
    } else {
        g
    }
}

/// Every deposit under a map.
///
/// A `Vec` rather than a map keyed by id, on purpose: iteration order is part
/// of the simulation's definition.
#[derive(Debug, Clone, PartialEq)]
pub struct Geology {
    deposits: Vec<Deposit>,
}

impl View for Geology {
    type V = Seq<Deposit>;

    closed spec fn view(&self) -> Seq<Deposit> {
        self.deposits@
    }
}

impl Geology {
    pub fn new() -> (g: Geology)
        ensures
            g@ == Seq::<Deposit>::empty(),
    {
        Geology { deposits: Vec::new() }
    }

    /// Add a body. Its id must not be taken already: lookups return the first
    /// match, so a duplicate would make one of the two unreachable.
    pub fn insert(&mut self, deposit: Deposit)
        requires
            !has_id(old(self)@, deposit.id),
        ensures
            final(self)@ == old(self)@.push(deposit),
    {
        self.deposits.push(deposit);
    }

    fn find(&self, id: DepositId) -> (r: Option<usize>)
        ensures
            match r {
                Some(i) => i == index_of(self@, id) && i < self@.len() && self@[i as int].id == id,
                None => !has_id(self@, id) && index_of(self@, id) == self@.len(),
            },
    {
        let mut i: usize = 0;
        while i < self.deposits.len()
            invariant
                i <= self@.len(),
                forall|j: int| 0 <= j < i ==> #[trigger] self@[j].id != id,
            decreases self@.len() - i,
        {
            if self.deposits[i].id == id {
                proof {
                    lemma_index_of_is(self@, id, i as int);
                }
                return Some(i);
            }
            i = i + 1;
        }
        proof {
            lemma_index_of_is(self@, id, i as int);
        }
        None
    }

    /// The first body carrying this id.
    pub fn get(&self, id: DepositId) -> (r: Option<&Deposit>)
        ensures
            match r {
                Some(d) => has_id(self@, id) && *d == self@[index_of(self@, id)],
                None => !has_id(self@, id),
            },
            match r {
                Some(d) => d.id == id && self@.contains(*d),
                None => forall|j: int| 0 <= j < self@.len() ==> (#[trigger] self@[j]).id != id,
            },
    {
        match self.find(id) {
            Some(i) => Some(&self.deposits[i]),
            None => None,
        }
    }

    /// The first body carrying this id, to be worked.
    pub fn get_mut(&mut self, id: DepositId) -> (r: Option<&mut Deposit>)
        ensures
            match r {
                Some(d) => {
                    &&& has_id(old(self)@, id)
                    &&& *d == old(self)@[index_of(old(self)@, id)]
                    &&& final(self)@ == old(self)@.update(index_of(old(self)@, id), *final(d))
                },
                None => !has_id(old(self)@, id) && final(self)@ == old(self)@,
            },
    {
        match self.find(id) {
            Some(i) => Some(&mut self.deposits[i]),
            None => None,
        }
    }

    pub fn all(&self) -> (r: &[Deposit])
        ensures
            r@ == self@,
    {
        self.deposits.as_slice()
    }

    /// Bodies a mine at this point could tap, shallowest first — so the
    /// obvious thing to reach for is the cheapest one to work. Bodies at the
    /// same depth come in id order.
    pub fn tappable_at(&self, point: Point) -> (r: Vec<DepositId>)
        ensures
            r@ == covering_keys(self@, point).sort_by(|a: (i64, u32), b: (i64, u32)| key_leq(a, b)).map_values(
                |k: (i64, u32)| DepositId(k.1),
            ),
    {
        let ghost leq = |a: (i64, u32), b: (i64, u32)| key_leq(a, b);
        let mut sorted: Vec<(i64, u32)> = Vec::new();
        let mut i: usize = 0;
        while i < self.deposits.len()
            invariant
                i <= self@.len(),
                leq == (|a: (i64, u32), b: (i64, u32)| key_leq(a, b)),
                sorted_by(sorted@, leq),
                sorted@.to_multiset() == covering_keys(self@.take(i as int), point).to_multiset(),
            decreases self@.len() - i,
        {
            let d = &self.deposits[i];
            proof {
                assert(self@.take(i + 1).drop_last() =~= self@.take(i as int));
                assert(self@.take(i + 1).last() == self@[i as int]);
            }
            if d.covers(point) {
                let key = (d.top.0, d.id.0);
                insert_sorted(&mut sorted, key);
                proof {
                    let prev = covering_keys(self@.take(i as int), point);
                    broadcast use vstd::seq_lib::group_to_multiset_ensures;
                    assert(prev.push(key).to_multiset() =~= prev.to_multiset().insert(key));
                }
            }
            i = i + 1;
        }
        proof {
            assert(self@.take(i as int) =~= self@);
            let keys = covering_keys(self@, point);
            lemma_key_leq_total();
            keys.lemma_sort_by_ensures(leq);
            vstd::seq_lib::lemma_sorted_unique(sorted@, keys.sort_by(leq), leq);
        }
        let mut ids: Vec<DepositId> = Vec::new();
        let mut k: usize = 0;
        while k < sorted.len()
            invariant
                k <= sorted@.len(),
                ids@ == sorted@.take(k as int).map_values(|key: (i64, u32)| DepositId(key.1)),
            decreases sorted@.len() - k,
        {
            ids.push(DepositId(sorted[k].1));
            proof {
                assert(sorted@.take(k + 1) =~= sorted@.take(k as int).push(sorted@[k as int]));
            }
            k = k + 1;
            proof {
                assert(ids@ =~= sorted@.take(k as int).map_values(|key: (i64, u32)| DepositId(key.1)));
            }
        }
        assert(sorted@.take(k as int) =~= sorted@);
        ids
    }

    /// The survey the player reads. One reading, rendered by both the overlay
    /// and the founding screen's candidate cards — never recomputed by either.
    pub fn survey(&self) -> (r: Vec<SurveyReading>)
        ensures
            r@ == self@.map_values(|d: Deposit| reading(d)),
    {
        let mut out: Vec<SurveyReading> = Vec::new();
        let mut i: usize = 0;
        while i < self.deposits.len()
            invariant
                i <= self@.len(),
                out@ == self@.take(i as int).map_values(|d: Deposit| reading(d)),
            decreases self@.len() - i,
        {
            let r = self.deposits[i].survey();
            out.push(r);
            proof {
                assert(self@.take(i + 1) =~= self@.take(i as int).push(self@[i as int]));
            }
            i = i + 1;
            proof {
                assert(out@ =~= self@.take(i as int).map_values(|d: Deposit| reading(d)));
            }
        }
        assert(self@.take(i as int) =~= self@);
        out
    }

    /// Total still in the ground, by mineral — the summary a candidate card
    /// needs to say whether a posting is coal-rich or coal-poor.
    pub fn remaining_of(&self, mineral: Mineral) -> (t: Tonnes)
        ensures
            t.0 == cap_tonnes(mineral_total(self@, mineral)),
    {
        let mut total: u64 = 0;
        let mut i: usize = 0;
        while i < self.deposits.len()
            invariant
                i <= self@.len(),
                total == cap_tonnes(mineral_total(self@.take(i as int), mineral)),
            decreases self@.len() - i,
        {
            proof {
                assert(self@.take(i + 1).drop_last() =~= self@.take(i as int));
                assert(self@.take(i + 1).last() == self@[i as int]);
                lemma_mineral_total_nonneg(self@.take(i as int), mineral);
                lemma_total_remaining_nonneg(self@[i as int].layers@);
            }
            if self.deposits[i].mineral == mineral {
                total = total.saturating_add(self.deposits[i].remaining().0);
            }
            i = i + 1;
        }
        assert(self@.take(i as int) =~= self@);
        Tonnes(total)
    }

    /// Distance from a point to the nearest workable body of a mineral,
    /// measured to the edge of its extent — zero when standing over one.
    pub fn distance_to_nearest(&self, point: Point, mineral: Mineral) -> (r: Option<Metres>)
        ensures
            match r {
                Some(m) => {
                    &&& exists|i: int|
                        0 <= i < self@.len() && workable(#[trigger] self@[i], mineral) && m.0 == gap(
                            self@[i],
                            point,
                        )
                    &&& forall|i: int|
                        0 <= i < self@.len() && workable(#[trigger] self@[i], mineral) ==> m.0
                            <= gap(self@[i], point)
                },
                None => forall|i: int|
                    0 <= i < self@.len() ==> !workable(#[trigger] self@[i], mineral),
            },
    {
        let mut best: Option<i64> = None;
        let mut i: usize = 0;
        while i < self.deposits.len()
            invariant
                i <= self@.len(),
                match best {
                    Some(m) => {
                        &&& exists|j: int|
                            0 <= j < i && workable(#[trigger] self@[j], mineral) && m == gap(
                                self@[j],
                                point,
                            )
                        &&& forall|j: int|
                            0 <= j < i && workable(#[trigger] self@[j], mineral) ==> m <= gap(
                                self@[j],
                                point,
                            )
                    },
                    None => forall|j: int| 0 <= j < i ==> !workable(#[trigger] self@[j], mineral),
                },
            decreases self@.len() - i,
        {
            let d = &self.deposits[i];
            if d.mineral == mineral && !d.is_exhausted() {
                let dist = d.centre.distance_to(point).0 as i128;
                let g: i128 = dist - d.radius.0 as i128;
                let g: i64 = if g < 0 {
                    0
                } else if g > i64::MAX as i128 {
                    i64::MAX
                } else {
                    g as i64
                };
                assert(g == gap(self@[i as int], point));
                best = match best {
                    Some(m) => if g < m {
                        Some(g)
                    } else {
                        Some(m)
                    },
                    None => Some(g),
                };
            }
            i = i + 1;
        }
        match best {
            Some(m) => Some(Metres(m)),
            None => None,
        }
    }
}

/// The first match is at the first index carrying the id.
proof fn lemma_index_of_is(ds: Seq<Deposit>, id: DepositId, i: int)
    requires
        0 <= i <= ds.len(),
        forall|j: int| 0 <= j < i ==> #[trigger] ds[j].id != id,
        i == ds.len() || ds[i].id == id,
    ensures
        index_of(ds, id) == i,
        i == ds.len() ==> !has_id(ds, id),
    decreases i,
{
    if i > 0 {
        let rest = ds.drop_first();
        assert(ds[0].id != id);
        assert forall|j: int| 0 <= j < i - 1 implies #[trigger] rest[j].id != id by {
            assert(rest[j] == ds[j + 1]);
        }
        if i < ds.len() {
            assert(rest[i - 1] == ds[i]);
        }
        lemma_index_of_is(rest, id, i - 1);
    }
}

proof fn lemma_mineral_total_nonneg(ds: Seq<Deposit>, mineral: Mineral)
    ensures
        mineral_total(ds, mineral) >= 0,
    decreases ds.len(),
{
    if ds.len() > 0 {
        lemma_mineral_total_nonneg(ds.drop_last(), mineral);
        lemma_total_remaining_nonneg(ds.last().layers@);
    }
}

/// Shallowest-then-id is a total order.
pub proof fn lemma_key_leq_total()
    ensures
        total_ordering(|a: (i64, u32), b: (i64, u32)| key_leq(a, b)),
{
}

/// Put a key into a sorted run, keeping it sorted.
fn insert_sorted(v: &mut Vec<(i64, u32)>, key: (i64, u32))
    requires
        sorted_by(old(v)@, |a: (i64, u32), b: (i64, u32)| key_leq(a, b)),
    ensures
        sorted_by(final(v)@, |a: (i64, u32), b: (i64, u32)| key_leq(a, b)),
        final(v)@.to_multiset() == old(v)@.to_multiset().insert(key),
{
    let ghost leq = |a: (i64, u32), b: (i64, u32)| key_leq(a, b);
    let mut p: usize = 0;
    while p < v.len()
        invariant
            p <= v@.len(),
            v@ == old(v)@,
            forall|j: int| 0 <= j < p ==> key_leq(#[trigger] v@[j], key),
        ensures
            p <= v@.len(),
            v@ == old(v)@,
            forall|j: int| 0 <= j < p ==> key_leq(#[trigger] v@[j], key),
            p == v@.len() || !key_leq(v@[p as int], key),
        decreases v@.len() - p,
    {
        let e = v[p];
        if !(e.0 < key.0 || (e.0 == key.0 && e.1 <= key.1)) {
            break;
        }
        p = p + 1;
    }
    let ghost before = v@;
    v.insert(p, key);
    proof {
        assert(v@ == before.insert(p as int, key));
        assert forall|a: int, b: int| 0 <= a < b < v@.len() implies leq(v@[a], v@[b]) by {
            if b < p {
                assert(v@[a] == before[a] && v@[b] == before[b]);
            } else if b == p {
                assert(v@[a] == before[a]);
            } else if a < p {
                assert(v@[a] == before[a] && v@[b] == before[b - 1]);
                assert(key_leq(before[a], key));
                assert(!key_leq(before[p as int], key));
                if p < b - 1 {
                    assert(leq(before[p as int], before[b - 1]));
                }
            } else if a == p {
                assert(v@[b] == before[b - 1]);
                assert(!key_leq(before[p as int], key));
                if p < b - 1 {
                    assert(leq(before[p as int], before[b - 1]));
                }
            } else {
                assert(v@[a] == before[a - 1] && v@[b] == before[b - 1]);
            }
        }
        broadcast use vstd::seq_lib::group_to_multiset_ensures;
        assert(v@.remove(p as int) =~= before);
        assert(v@[p as int] == key);
        assert(v@.to_multiset().count(key) > 0);
        assert(before.to_multiset() =~= v@.to_multiset().remove(key));
        assert(v@.to_multiset() =~= before.to_multiset().insert(key));
    }
}

proof fn lemma_total_remaining_step(layers: Seq<Layer>, i: int)
    requires
        0 <= i < layers.len(),
    ensures
        total_remaining(layers.take(i + 1)) == total_remaining(layers.take(i)) + layers[i].remaining.0,
{
    assert(layers.take(i + 1).drop_last() =~= layers.take(i));
}

proof fn lemma_total_initial_step(layers: Seq<Layer>, i: int)
    requires
        0 <= i < layers.len(),
    ensures
        total_initial(layers.take(i + 1)) == total_initial(layers.take(i)) + layers[i].initial.0,
{
    assert(layers.take(i + 1).drop_last() =~= layers.take(i));
}

pub proof fn lemma_total_remaining_nonneg(layers: Seq<Layer>)
    ensures
        total_remaining(layers) >= 0,
        total_remaining(layers) == 0 <==> forall|j: int|
            0 <= j < layers.len() ==> #[trigger] layers[j].remaining.0 == 0,
    decreases layers.len(),
{
    if layers.len() > 0 {
        lemma_total_remaining_nonneg(layers.drop_last());
        if total_remaining(layers) == 0 {
            assert forall|j: int| 0 <= j < layers.len() implies #[trigger] layers[j].remaining.0
                == 0 by {
                if j < layers.len() - 1 {
                    assert(layers.drop_last()[j] == layers[j]);
                }
            }
        }
        if forall|j: int| 0 <= j < layers.len() ==> #[trigger] layers[j].remaining.0 == 0 {
            assert forall|j: int| 0 <= j < layers.drop_last().len() implies #[trigger] layers.drop_last()[j].remaining.0
                == 0 by {
                assert(layers.drop_last()[j] == layers[j]);
            }
        }
    }
}

/// The live index is the first layer with anything in it.
proof fn lemma_live_index_is(layers: Seq<Layer>, i: int)
    requires
        0 <= i <= layers.len(),
        forall|j: int| 0 <= j < i ==> #[trigger] layers[j].remaining.0 == 0,
        i == layers.len() || layers[i].remaining.0 > 0,
    ensures
        live_index(layers) == i,
    decreases i,
{
    if i > 0 {
        assert(layers[0].remaining.0 == 0);
        let rest = layers.drop_first();
        assert forall|j: int| 0 <= j < i - 1 implies #[trigger] rest[j].remaining.0 == 0 by {
            assert(rest[j] == layers[j + 1]);
        }
        if i < layers.len() {
            assert(rest[i - 1] == layers[i]);
        }
        lemma_live_index_is(rest, i - 1);
    }
}

/// Draining an unbroken run splits at any point.
proof fn lemma_drained_split(layers: Seq<Layer>, i: int, want: int)
    requires
        0 <= i < layers.len(),
    ensures
        drained(layers.skip(i), want) == {
            let l = layers[i];
            let take = if want <= l.remaining.0 { want } else { l.remaining.0 as int };
            seq![Layer { remaining: Tonnes((l.remaining.0 - take) as u64), ..l }] + drained(
                layers.skip(i + 1),
                want - take,
            )
        },
{
    let s = layers.skip(i);
    assert(s[0] == layers[i]);
    assert(s.drop_first() =~= layers.skip(i + 1));
}

proof fn lemma_extract_step(
    orig: Seq<Layer>,
    before: Seq<Layer>,
    after: Seq<Layer>,
    i: int,
    outstanding: int,
    taken: int,
)
    requires
        0 <= i < orig.len(),
        before.len() == orig.len(),
        before.skip(i) == orig.skip(i),
        after == before.update(i, Layer { remaining: Tonnes((before[i].remaining.0 - taken) as u64), ..before[i] }),
        taken == if outstanding <= before[i].remaining.0 { outstanding } else { before[i].remaining.0 as int },
        0 <= outstanding,
    ensures
        after.take(i + 1) + drained(orig.skip(i + 1), outstanding - taken) == before.take(i)
            + drained(orig.skip(i), outstanding),
        after.skip(i + 1) == orig.skip(i + 1),
        total_remaining(orig.take(i + 1)) - total_remaining(after.take(i + 1)) == total_remaining(
            orig.take(i),
        ) - total_remaining(before.take(i)) + taken,
        total_remaining(after.take(i + 1)) == total_remaining(before.take(i)) + before[i].remaining.0
            - taken,
{
    assert(before[i] == orig[i]) by {
        assert(before.skip(i)[0] == orig.skip(i)[0]);
    }
    lemma_drained_split(orig, i, outstanding);
    assert(after.take(i + 1) =~= before.take(i).push(after[i]));
    assert(after.skip(i + 1) =~= orig.skip(i + 1)) by {
        assert forall|k: int| 0 <= k < after.skip(i + 1).len() implies #[trigger] after.skip(i + 1)[k]
            == orig.skip(i + 1)[k] by {
            assert(before.skip(i)[k + 1] == orig.skip(i)[k + 1]);
        }
    }
    lemma_total_remaining_step(orig, i);
    lemma_total_remaining_step(after, i);
    assert(after.take(i) =~= before.take(i));
}

proof fn lemma_refill_nothing(layers: Seq<Layer>)
    ensures
        refilled(layers, 0) == layers,
    decreases layers.len(),
{
    if layers.len() > 0 {
        lemma_refill_nothing(layers.drop_first());
        assert(layers =~= seq![layers[0]] + layers.drop_first());
        let l = layers[0];
        assert(Layer { remaining: Tonnes((l.remaining.0 + 0) as u64), ..l } == l);
    }
}

proof fn lemma_refill_step(
    orig: Seq<Layer>,
    before: Seq<Layer>,
    after: Seq<Layer>,
    i: int,
    spare: int,
    added: int,
)
    requires
        0 <= i < orig.len(),
        before.len() == orig.len(),
        before.skip(i) == orig.skip(i),
        after == before.update(i, Layer { remaining: Tonnes((before[i].remaining.0 + added) as u64), ..before[i] }),
        added == {
            let l = before[i];
            let room = if l.initial.0 >= l.remaining.0 { l.initial.0 - l.remaining.0 } else { 0 };
            if spare <= room { spare } else { room }
        },
    ensures
        after.take(i + 1) + refilled(orig.skip(i + 1), spare - added) == before.take(i) + refilled(
            orig.skip(i),
            spare,
        ),
        after.skip(i + 1) == orig.skip(i + 1),
{
    assert(before[i] == orig[i]) by {
        assert(before.skip(i)[0] == orig.skip(i)[0]);
    }
    let s = orig.skip(i);
    assert(s[0] == orig[i]);
    assert(s.drop_first() =~= orig.skip(i + 1));
    assert(after.take(i + 1) =~= before.take(i).push(after[i]));
    assert(after.skip(i + 1) =~= orig.skip(i + 1)) by {
        assert forall|k: int| 0 <= k < after.skip(i + 1).len() implies #[trigger] after.skip(i + 1)[k]
            == orig.skip(i + 1)[k] by {
            assert(before.skip(i)[k + 1] == orig.skip(i)[k + 1]);
        }
    }
}

/// No layer holds more than it held when the map was made.
pub open spec fn within_what_it_held(layers: Seq<Layer>) -> bool {
    forall|i: int| 0 <= i < layers.len() ==> (#[trigger] layers[i]).remaining.0 <= layers[i].initial.0
}

/// Two runs of layers with the same horizons: the same thicknesses and the
/// same original tonnages, layer for layer.
pub open spec fn same_horizons(a: Seq<Layer>, b: Seq<Layer>) -> bool {
    &&& a.len() == b.len()
    &&& forall|i: int| 0 <= i < a.len() ==> (#[trigger] a[i]).thickness == b[i].thickness && a[i].initial == b[i].initial
}

/// One thing done to a deposit: working it, or (for water) letting it refill.
pub enum Draw {
    Extract(u64),
    Recharge(u64),
}

/// The layers after a run of draws, the first draw first.
pub open spec fn worked(layers: Seq<Layer>, draws: Seq<Draw>) -> Seq<Layer>
    decreases draws.len(),
{
    if draws.len() == 0 {
        layers
    } else {
        let before = worked(layers, draws.drop_last());
        match draws.last() {
            Draw::Extract(w) => drained(before, w as int),
            Draw::Recharge(a) => refilled(before, a as int),
        }
    }
}

proof fn lemma_totals_prepend(x: Layer, rest: Seq<Layer>)
    ensures
        total_remaining(seq![x] + rest) == x.remaining.0 + total_remaining(rest),
        total_initial(seq![x] + rest) == x.initial.0 + total_initial(rest),
    decreases rest.len(),
{
    let whole = seq![x] + rest;
    if rest.len() > 0 {
        lemma_totals_prepend(x, rest.drop_last());
        assert(whole.drop_last() =~= seq![x] + rest.drop_last());
        assert(whole.last() == rest.last());
        assert(total_remaining(whole) == total_remaining(whole.drop_last()) + whole.last().remaining.0);
        assert(total_initial(whole) == total_initial(whole.drop_last()) + whole.last().initial.0);
    } else {
        assert(whole.drop_last() =~= Seq::<Layer>::empty());
        assert(whole.last() == x);
        assert(total_remaining(whole) == total_remaining(whole.drop_last()) + whole.last().remaining.0);
        assert(total_initial(whole) == total_initial(whole.drop_last()) + whole.last().initial.0);
        assert(total_remaining(rest) == 0);
    }
}

proof fn lemma_within_totals(layers: Seq<Layer>)
    requires
        within_what_it_held(layers),
    ensures
        0 <= total_remaining(layers) <= total_initial(layers),
    decreases layers.len(),
{
    if layers.len() > 0 {
        assert(within_what_it_held(layers.drop_last())) by {
            assert forall|i: int| 0 <= i < layers.drop_last().len() implies (#[trigger] layers.drop_last()[i]).remaining.0
                <= layers.drop_last()[i].initial.0 by {
                assert(layers.drop_last()[i] == layers[i]);
            }
        }
        lemma_within_totals(layers.drop_last());
        assert(layers[layers.len() - 1].remaining.0 <= layers[layers.len() - 1].initial.0);
    }
}

/// Recharge puts back what it was given or all the room there is, whichever
/// is less: what remains grows by exactly `min(amount, initial - remaining)`,
/// no layer ends above what it first held, and the horizons are untouched.
pub proof fn recharge_fills_only_the_room(layers: Seq<Layer>, amount: int)
    requires
        within_what_it_held(layers),
        amount >= 0,
    ensures
        within_what_it_held(refilled(layers, amount)),
        same_horizons(layers, refilled(layers, amount)),
        total_remaining(refilled(layers, amount)) == total_remaining(layers) + if amount <= total_initial(layers)
            - total_remaining(layers) {
            amount
        } else {
            total_initial(layers) - total_remaining(layers)
        },
    decreases layers.len(),
{
    if layers.len() > 0 {
        let l = layers[0];
        let rest = layers.drop_first();
        let room = l.initial.0 - l.remaining.0;
        let added = if amount <= room { amount } else { room };
        assert(within_what_it_held(rest)) by {
            assert forall|i: int| 0 <= i < rest.len() implies (#[trigger] rest[i]).remaining.0 <= rest[i].initial.0 by {
                assert(rest[i] == layers[i + 1]);
            }
        }
        recharge_fills_only_the_room(rest, amount - added);
        let nl = Layer { remaining: Tonnes((l.remaining.0 + added) as u64), ..l };
        let out = refilled(layers, amount);
        assert(out == seq![nl] + refilled(rest, amount - added));
        assert(layers =~= seq![l] + rest);
        lemma_totals_prepend(l, rest);
        lemma_totals_prepend(nl, refilled(rest, amount - added));
        lemma_within_totals(rest);
        assert forall|i: int| 0 <= i < out.len() implies (#[trigger] out[i]).remaining.0 <= out[i].initial.0 by {
            if i > 0 {
                assert(out[i] == refilled(rest, amount - added)[i - 1]);
            }
        }
        assert forall|i: int| 0 <= i < layers.len() implies (#[trigger] layers[i]).thickness == out[i].thickness
            && layers[i].initial == out[i].initial by {
            if i > 0 {
                assert(out[i] == refilled(rest, amount - added)[i - 1]);
                assert(layers[i] == rest[i - 1]);
            }
        }
    }
}

/// Working a deposit takes what was asked or everything left, whichever is
/// less: what remains falls by exactly `min(wanted, remaining)`, no layer
/// goes below nothing, and the horizons are untouched.
pub proof fn extraction_takes_only_what_is_there(layers: Seq<Layer>, wanted: int)
    requires
        within_what_it_held(layers),
        wanted >= 0,
    ensures
        within_what_it_held(drained(layers, wanted)),
        same_horizons(layers, drained(layers, wanted)),
        total_remaining(drained(layers, wanted)) == total_remaining(layers) - if wanted <= total_remaining(layers) {
            wanted
        } else {
            total_remaining(layers)
        },
    decreases layers.len(),
{
    if layers.len() > 0 {
        let l = layers[0];
        let rest = layers.drop_first();
        let take = if wanted <= l.remaining.0 { wanted } else { l.remaining.0 as int };
        assert(within_what_it_held(rest)) by {
            assert forall|i: int| 0 <= i < rest.len() implies (#[trigger] rest[i]).remaining.0 <= rest[i].initial.0 by {
                assert(rest[i] == layers[i + 1]);
            }
        }
        extraction_takes_only_what_is_there(rest, wanted - take);
        let nl = Layer { remaining: Tonnes((l.remaining.0 - take) as u64), ..l };
        let out = drained(layers, wanted);
        assert(out == seq![nl] + drained(rest, wanted - take));
        assert(layers =~= seq![l] + rest);
        lemma_totals_prepend(l, rest);
        lemma_totals_prepend(nl, drained(rest, wanted - take));
        lemma_within_totals(rest);
        assert forall|i: int| 0 <= i < out.len() implies (#[trigger] out[i]).remaining.0 <= out[i].initial.0 by {
            if i > 0 {
                assert(out[i] == drained(rest, wanted - take)[i - 1]);
            }
        }
        assert forall|i: int| 0 <= i < layers.len() implies (#[trigger] layers[i]).thickness == out[i].thickness
            && layers[i].initial == out[i].initial by {
            if i > 0 {
                assert(out[i] == drained(rest, wanted - take)[i - 1]);
                assert(layers[i] == rest[i - 1]);
            }
        }
    }
}

/// However a deposit is worked and refilled, each layer keeps between nothing
/// and what it first held, so the body as a whole holds between nothing and
/// its original tonnage, and its horizons never change.
pub proof fn a_deposit_stays_within_what_it_held(layers: Seq<Layer>, draws: Seq<Draw>)
    requires
        within_what_it_held(layers),
    ensures
        within_what_it_held(worked(layers, draws)),
        same_horizons(layers, worked(layers, draws)),
        0 <= total_remaining(worked(layers, draws)) <= total_initial(layers),
    decreases draws.len(),
{
    if draws.len() > 0 {
        a_deposit_stays_within_what_it_held(layers, draws.drop_last());
        let before = worked(layers, draws.drop_last());
        match draws.last() {
            Draw::Extract(w) => extraction_takes_only_what_is_there(before, w as int),
            Draw::Recharge(a) => recharge_fills_only_the_room(before, a as int),
        }
        let after = worked(layers, draws);
        lemma_within_totals(after);
        assert forall|i: int| 0 <= i < layers.len() implies (#[trigger] layers[i]).thickness == after[i].thickness
            && layers[i].initial == after[i].initial by {
            assert(before[i].thickness == after[i].thickness);
        }
        assert(total_initial(after) == total_initial(layers)) by {
            lemma_same_horizons_same_initial(layers, after);
        }
    } else {
        lemma_within_totals(layers);
    }
}

proof fn lemma_same_horizons_same_initial(a: Seq<Layer>, b: Seq<Layer>)
    requires
        same_horizons(a, b),
    ensures
        total_initial(a) == total_initial(b),
    decreases a.len(),
{
    if a.len() > 0 {
        assert(same_horizons(a.drop_last(), b.drop_last())) by {
            assert forall|i: int| 0 <= i < a.drop_last().len() implies (#[trigger] a.drop_last()[i]).thickness
                == b.drop_last()[i].thickness && a.drop_last()[i].initial == b.drop_last()[i].initial by {
                assert(a.drop_last()[i] == a[i]);
                assert(b.drop_last()[i] == b[i]);
            }
        }
        lemma_same_horizons_same_initial(a.drop_last(), b.drop_last());
        assert(a[a.len() - 1].initial == b[b.len() - 1].initial);
    }
}

/// The bodies a mine could tap come back shallowest first, ties by id, and
/// they are exactly the bodies that cover the point, each once: the ranking
/// keys `tappable_at` orders are sorted by `(top, id)` and hold the same keys
/// as the covering bodies.
pub proof fn tappable_bodies_come_shallowest_first(ds: Seq<Deposit>, point: Point)
    ensures
        sorted_by(
            covering_keys(ds, point).sort_by(|a: (i64, u32), b: (i64, u32)| key_leq(a, b)),
            |a: (i64, u32), b: (i64, u32)| key_leq(a, b),
        ),
        covering_keys(ds, point).sort_by(|a: (i64, u32), b: (i64, u32)| key_leq(a, b)).to_multiset()
            == covering_keys(ds, point).to_multiset(),
{
    lemma_key_leq_total();
    covering_keys(ds, point).lemma_sort_by_ensures(|a: (i64, u32), b: (i64, u32)| key_leq(a, b));
}

} // verus!
