//! How many hours a day a building is manned, and what asking for more
//! costs.
//!
//! A factory does not run itself through the night: it runs because somebody
//! is standing in it. An hour nobody is rostered for is an hour that produces
//! nothing. Shifts, how many crews a building runs, are a straight trade of
//! people for output; hours, how long a shift is, are nearly free, which is why
//! they cost health and loyalty in proportion to the hours worked past the
//! standard day.
//!
//! There are three levels, because that is how the question is asked: a
//! national standard, a rule for a kind of workplace, and an exception for one
//! building. "Doctors work twelve, but at this clinic fourteen." The narrower
//! answer always wins, and clearing an override falls back rather than
//! freezing whatever the value happened to be.

use crate::building::{BuildingId, BuildingKind};
use vstd::prelude::*;

verus! {

/// The shift length every authored production rate assumes, in hours: what
/// one crew of its authored size makes in one of these is a building's output.
pub const STANDARD_HOURS: u32 = 8;

/// The shortest shift the republic will roster.
pub const MIN_HOURS: u32 = 4;

/// The longest: past sixteen hours a second crew is the only honest way to
/// cover the day.
pub const MAX_HOURS: u32 = 16;

/// The longest working period that still fits inside daylight.
pub const DAYLIGHT_HOURS: u32 = 12;

/// How many crews one building may run: three is the whole day at the
/// standard length.
pub const MAX_SHIFTS: u8 = 3;

/// Health lost per day, per hour worked past the standard, in thousandths of
/// a point.
pub const OVERWORK_HEALTH: u64 = 30;

/// Loyalty lost per day, per hour past the standard, in thousandths of a
/// point. Larger than the health cost on purpose: people tolerate being made
/// ill more quietly than they tolerate being made to work late.
pub const OVERWORK_LOYALTY: u64 = 45;

/// Every kind of building, in the order kinds are ranked.
pub open spec fn kind_order() -> Seq<BuildingKind> {
    seq![
        BuildingKind::House,
        BuildingKind::Apartment,
        BuildingKind::Woodcutter,
        BuildingKind::Sawmill,
        BuildingKind::GravelQuarry,
        BuildingKind::Brickworks,
        BuildingKind::CoalMine,
        BuildingKind::IronMine,
        BuildingKind::SteelMill,
        BuildingKind::OilPump,
        BuildingKind::Refinery,
        BuildingKind::PowerPlant,
        BuildingKind::OilPowerPlant,
        BuildingKind::HeatingPlant,
        BuildingKind::Farm,
        BuildingKind::FoodFactory,
        BuildingKind::TextileMill,
        BuildingKind::MachineWorks,
        BuildingKind::Store,
        BuildingKind::Clinic,
        BuildingKind::CultureClub,
        BuildingKind::School,
        BuildingKind::University,
        BuildingKind::TransformerStation,
        BuildingKind::Landfill,
        BuildingKind::Incinerator,
        BuildingKind::Warehouse,
        BuildingKind::Depot,
        BuildingKind::ConstructionOffice,
        BuildingKind::MotorDepot,
        BuildingKind::GasStation,
        BuildingKind::BusDepot,
        BuildingKind::Customs,
    ]
}

/// Where a kind stands in [`kind_order`].
pub open spec fn kind_slot(k: BuildingKind) -> int {
    match k {
        BuildingKind::House => 0,
        BuildingKind::Apartment => 1,
        BuildingKind::Woodcutter => 2,
        BuildingKind::Sawmill => 3,
        BuildingKind::GravelQuarry => 4,
        BuildingKind::Brickworks => 5,
        BuildingKind::CoalMine => 6,
        BuildingKind::IronMine => 7,
        BuildingKind::SteelMill => 8,
        BuildingKind::OilPump => 9,
        BuildingKind::Refinery => 10,
        BuildingKind::PowerPlant => 11,
        BuildingKind::OilPowerPlant => 12,
        BuildingKind::HeatingPlant => 13,
        BuildingKind::Farm => 14,
        BuildingKind::FoodFactory => 15,
        BuildingKind::TextileMill => 16,
        BuildingKind::MachineWorks => 17,
        BuildingKind::Store => 18,
        BuildingKind::Clinic => 19,
        BuildingKind::CultureClub => 20,
        BuildingKind::School => 21,
        BuildingKind::University => 22,
        BuildingKind::TransformerStation => 23,
        BuildingKind::Landfill => 24,
        BuildingKind::Incinerator => 25,
        BuildingKind::Warehouse => 26,
        BuildingKind::Depot => 27,
        BuildingKind::ConstructionOffice => 28,
        BuildingKind::MotorDepot => 29,
        BuildingKind::GasStation => 30,
        BuildingKind::BusDepot => 31,
        BuildingKind::Customs => 32,
    }
}

proof fn lemma_kind_slots()
    ensures
        kind_order().len() == 33,
        forall|k: BuildingKind| 0 <= #[trigger] kind_slot(k) < 33 && kind_order()[kind_slot(k)] == k,
        forall|i: int| 0 <= i < 33 ==> kind_slot(#[trigger] kind_order()[i]) == i,
{
    assert forall|k: BuildingKind| 0 <= #[trigger] kind_slot(k) < 33 && kind_order()[kind_slot(k)] == k by {
        match k {
            _ => {},
        }
    }
}

fn slot_of(k: BuildingKind) -> (r: usize)
    ensures
        r == kind_slot(k),
{
    match k {
        BuildingKind::House => 0,
        BuildingKind::Apartment => 1,
        BuildingKind::Woodcutter => 2,
        BuildingKind::Sawmill => 3,
        BuildingKind::GravelQuarry => 4,
        BuildingKind::Brickworks => 5,
        BuildingKind::CoalMine => 6,
        BuildingKind::IronMine => 7,
        BuildingKind::SteelMill => 8,
        BuildingKind::OilPump => 9,
        BuildingKind::Refinery => 10,
        BuildingKind::PowerPlant => 11,
        BuildingKind::OilPowerPlant => 12,
        BuildingKind::HeatingPlant => 13,
        BuildingKind::Farm => 14,
        BuildingKind::FoodFactory => 15,
        BuildingKind::TextileMill => 16,
        BuildingKind::MachineWorks => 17,
        BuildingKind::Store => 18,
        BuildingKind::Clinic => 19,
        BuildingKind::CultureClub => 20,
        BuildingKind::School => 21,
        BuildingKind::University => 22,
        BuildingKind::TransformerStation => 23,
        BuildingKind::Landfill => 24,
        BuildingKind::Incinerator => 25,
        BuildingKind::Warehouse => 26,
        BuildingKind::Depot => 27,
        BuildingKind::ConstructionOffice => 28,
        BuildingKind::MotorDepot => 29,
        BuildingKind::GasStation => 30,
        BuildingKind::BusDepot => 31,
        BuildingKind::Customs => 32,
    }
}

fn kinds_in_order() -> (r: [BuildingKind; 33])
    ensures
        r@ == kind_order(),
{
    let r = [BuildingKind::House, BuildingKind::Apartment, BuildingKind::Woodcutter, BuildingKind::Sawmill, BuildingKind::GravelQuarry, BuildingKind::Brickworks, BuildingKind::CoalMine, BuildingKind::IronMine, BuildingKind::SteelMill, BuildingKind::OilPump, BuildingKind::Refinery, BuildingKind::PowerPlant, BuildingKind::OilPowerPlant, BuildingKind::HeatingPlant, BuildingKind::Farm, BuildingKind::FoodFactory, BuildingKind::TextileMill, BuildingKind::MachineWorks, BuildingKind::Store, BuildingKind::Clinic, BuildingKind::CultureClub, BuildingKind::School, BuildingKind::University, BuildingKind::TransformerStation, BuildingKind::Landfill, BuildingKind::Incinerator, BuildingKind::Warehouse, BuildingKind::Depot, BuildingKind::ConstructionOffice, BuildingKind::MotorDepot, BuildingKind::GasStation, BuildingKind::BusDepot, BuildingKind::Customs];
    assert(r@ =~= kind_order());
    r
}

/// An asked-for working day, held to what the republic will roster.
pub open spec fn clamped(hours: u32) -> u32 {
    if hours < MIN_HOURS {
        MIN_HOURS
    } else if hours > MAX_HOURS {
        MAX_HOURS
    } else {
        hours
    }
}

/// Hours are clamped rather than refused here, because the command that
/// carries them already refuses out-of-range values with a sentence. This is
/// the second gate: the one that holds for anything the republic does to
/// itself.
pub fn clamp_hours(hours: u32) -> (r: u32)
    ensures
        r == clamped(hours),
{
    if hours < MIN_HOURS {
        MIN_HOURS
    } else if hours > MAX_HOURS {
        MAX_HOURS
    } else {
        hours
    }
}

/// What working `hours` a day costs a person, per day, as `(health, loyalty)`
/// in thousandths of a point: nothing at or below the standard, so a republic
/// that rosters normally pays nothing for a mechanic it is not using.
pub fn overwork_cost(hours: u32) -> (r: (u64, u64))
    ensures
        r.0 == (if hours > STANDARD_HOURS { (hours - STANDARD_HOURS) * OVERWORK_HEALTH } else { 0 }),
        r.1 == (if hours > STANDARD_HOURS { (hours - STANDARD_HOURS) * OVERWORK_LOYALTY } else { 0 }),
{
    let over: u64 = if hours > STANDARD_HOURS {
        (hours - STANDARD_HOURS) as u64
    } else {
        0
    };
    (over * OVERWORK_HEALTH, over * OVERWORK_LOYALTY)
}

/// Exceptions stand in ascending order of building id, each once.
pub open spec fn ascending(list: Seq<(BuildingId, u32)>) -> bool {
    forall|i: int, j: int| 0 <= i < j < list.len() ==> (#[trigger] list[i]).0.0 < (#[trigger] list[j]).0.0
}

/// The exception for a building in a list of them, if it has one.
pub open spec fn exception_in(list: Seq<(BuildingId, u32)>, id: BuildingId) -> Option<u32> {
    if exists|i: int| 0 <= i < list.len() && (#[trigger] list[i]).0 == id {
        Some(list[choose|i: int| 0 <= i < list.len() && (#[trigger] list[i]).0 == id].1)
    } else {
        None
    }
}

proof fn lemma_exception_at(list: Seq<(BuildingId, u32)>, i: int)
    requires
        ascending(list),
        0 <= i < list.len(),
    ensures
        exception_in(list, list[i].0) == Some(list[i].1),
{
    let id = list[i].0;
    assert(exists|j: int| 0 <= j < list.len() && (#[trigger] list[j]).0 == id);
    let j = choose|j: int| 0 <= j < list.len() && (#[trigger] list[j]).0 == id;
    if j < i {
        assert(list[j].0.0 < list[i].0.0);
    } else if j > i {
        assert(list[i].0.0 < list[j].0.0);
    }
}

proof fn lemma_exception_absent(list: Seq<(BuildingId, u32)>, id: BuildingId)
    requires
        forall|i: int| 0 <= i < list.len() ==> (#[trigger] list[i]).0 != id,
    ensures
        exception_in(list, id) is None,
{
}

/// Whether two lists of exceptions agree on every building but `id`.
pub open spec fn agree_but(a: Seq<(BuildingId, u32)>, b: Seq<(BuildingId, u32)>, id: BuildingId) -> bool {
    forall|o: BuildingId| o != id ==> #[trigger] exception_in(a, o) == exception_in(b, o)
}

proof fn lemma_same_entries(a: Seq<(BuildingId, u32)>, b: Seq<(BuildingId, u32)>, id: BuildingId)
    requires
        ascending(a),
        ascending(b),
        forall|i: int| 0 <= i < a.len() && (#[trigger] a[i]).0 != id ==> exists|j: int| 0 <= j < b.len() && #[trigger] b[j] == a[i],
        forall|j: int| 0 <= j < b.len() && (#[trigger] b[j]).0 != id ==> exists|i: int| 0 <= i < a.len() && #[trigger] a[i] == b[j],
    ensures
        agree_but(a, b, id),
{
    assert forall|o: BuildingId| o != id implies #[trigger] exception_in(a, o) == exception_in(b, o) by {
        if exists|i: int| 0 <= i < a.len() && (#[trigger] a[i]).0 == o {
            let i = choose|i: int| 0 <= i < a.len() && (#[trigger] a[i]).0 == o;
            lemma_exception_at(a, i);
            let j = choose|j: int| 0 <= j < b.len() && #[trigger] b[j] == a[i];
            lemma_exception_at(b, j);
        } else if exists|j: int| 0 <= j < b.len() && (#[trigger] b[j]).0 == o {
            let j = choose|j: int| 0 <= j < b.len() && (#[trigger] b[j]).0 == o;
            let i = choose|i: int| 0 <= i < a.len() && #[trigger] a[i] == b[j];
            assert(a[i].0 == o);
        } else {
        }
    }
}

proof fn lemma_exception_updated(before: Seq<(BuildingId, u32)>, p: int, id: BuildingId, v: u32)
    requires
        ascending(before),
        0 <= p < before.len(),
        before[p].0 == id,
    ensures
        ascending(before.update(p, (id, v))),
        exception_in(before.update(p, (id, v)), id) == Some(v),
        agree_but(before.update(p, (id, v)), before, id),
{
    let after = before.update(p, (id, v));
    assert(ascending(after));
    lemma_exception_at(after, p);
    assert forall|i: int| 0 <= i < after.len() && (#[trigger] after[i]).0 != id implies exists|j: int|
        0 <= j < before.len() && #[trigger] before[j] == after[i] by {
        assert(before[i] == after[i]);
    }
    assert forall|j: int| 0 <= j < before.len() && (#[trigger] before[j]).0 != id implies exists|i: int|
        0 <= i < after.len() && #[trigger] after[i] == before[j] by {
        assert(after[j] == before[j]);
    }
    lemma_same_entries(after, before, id);
}

proof fn lemma_exception_inserted(before: Seq<(BuildingId, u32)>, p: int, id: BuildingId, v: u32)
    requires
        ascending(before),
        0 <= p <= before.len(),
        forall|i: int| 0 <= i < p ==> (#[trigger] before[i]).0.0 < id.0,
        forall|i: int| p <= i < before.len() ==> (#[trigger] before[i]).0.0 > id.0,
    ensures
        ascending(before.insert(p, (id, v))),
        exception_in(before.insert(p, (id, v)), id) == Some(v),
        agree_but(before.insert(p, (id, v)), before, id),
{
    let after = before.insert(p, (id, v));
    assert forall|i: int, j: int| 0 <= i < j < after.len() implies (#[trigger] after[i]).0.0 < (#[trigger] after[j]).0.0 by {
        if j < p {
            assert(after[i] == before[i] && after[j] == before[j]);
        } else if j == p {
            assert(after[i] == before[i]);
        } else if i < p {
            assert(after[i] == before[i] && after[j] == before[j - 1]);
        } else if i == p {
            assert(after[j] == before[j - 1]);
        } else {
            assert(after[i] == before[i - 1] && after[j] == before[j - 1]);
        }
    }
    assert(after[p] == (id, v));
    lemma_exception_at(after, p);
    assert forall|i: int| 0 <= i < after.len() && (#[trigger] after[i]).0 != id implies exists|j: int|
        0 <= j < before.len() && #[trigger] before[j] == after[i] by {
        if i < p {
            assert(before[i] == after[i]);
        } else {
            assert(before[i - 1] == after[i]);
        }
    }
    assert forall|j: int| 0 <= j < before.len() && (#[trigger] before[j]).0 != id implies exists|i: int|
        0 <= i < after.len() && #[trigger] after[i] == before[j] by {
        if j < p {
            assert(after[j] == before[j]);
        } else {
            assert(after[j + 1] == before[j]);
        }
    }
    lemma_same_entries(after, before, id);
}

proof fn lemma_exception_removed(before: Seq<(BuildingId, u32)>, p: int, id: BuildingId)
    requires
        ascending(before),
        0 <= p < before.len(),
        before[p].0 == id,
    ensures
        ascending(before.remove(p)),
        exception_in(before.remove(p), id) is None,
        agree_but(before.remove(p), before, id),
{
    let after = before.remove(p);
    assert forall|i: int, j: int| 0 <= i < j < after.len() implies (#[trigger] after[i]).0.0 < (#[trigger] after[j]).0.0 by {
        if j < p {
            assert(after[i] == before[i] && after[j] == before[j]);
        } else if i < p {
            assert(after[i] == before[i] && after[j] == before[j + 1]);
        } else {
            assert(after[i] == before[i + 1] && after[j] == before[j + 1]);
        }
    }
    assert forall|i: int| 0 <= i < after.len() implies (#[trigger] after[i]).0 != id by {
        if i < p {
            assert(after[i] == before[i]);
        } else {
            assert(after[i] == before[i + 1]);
        }
    }
    lemma_exception_absent(after, id);
    assert forall|i: int| 0 <= i < after.len() && (#[trigger] after[i]).0 != id implies exists|j: int|
        0 <= j < before.len() && #[trigger] before[j] == after[i] by {
        if i < p {
            assert(before[i] == after[i]);
        } else {
            assert(before[i + 1] == after[i]);
        }
    }
    assert forall|j: int| 0 <= j < before.len() && (#[trigger] before[j]).0 != id implies exists|i: int|
        0 <= i < after.len() && #[trigger] after[i] == before[j] by {
        if j < p {
            assert(after[j] == before[j]);
        } else {
            assert(after[j - 1] == before[j]);
        }
    }
    lemma_same_entries(after, before, id);
}

proof fn lemma_exception_missing(before: Seq<(BuildingId, u32)>, p: int, id: BuildingId)
    requires
        ascending(before),
        0 <= p <= before.len(),
        forall|i: int| 0 <= i < p ==> (#[trigger] before[i]).0.0 < id.0,
        forall|i: int| p <= i < before.len() ==> (#[trigger] before[i]).0.0 >= id.0,
        !(p < before.len() && before[p].0 == id),
    ensures
        exception_in(before, id) is None,
        agree_but(before, before, id),
{
    assert forall|i: int| 0 <= i < before.len() implies (#[trigger] before[i]).0 != id by {
        if i > p {
            assert(before[p].0.0 < before[i].0.0);
        }
    }
    lemma_exception_absent(before, id);
}

/// What the republic has decided about working hours, nationally and by
/// exception.
#[derive(Debug, Clone, PartialEq, Eq)]
pub struct ShiftPolicy {
    national: u32,
    /// The rule for each kind of workplace, by its place in [`kind_order`].
    /// Keyed by kind, so a clinic built tomorrow is covered by a rule made
    /// today: the difference between a policy and a batch edit.
    by_kind: Vec<Option<u32>>,
    /// The exceptions for single buildings, in ascending order of id.
    by_building: Vec<(BuildingId, u32)>,
}

impl ShiftPolicy {
    /// The standard everything falls back to.
    pub closed spec fn national_spec(&self) -> u32 {
        self.national
    }

    /// The rule for a kind of workplace, if there is one.
    pub closed spec fn kind_rule(&self, kind: BuildingKind) -> Option<u32> {
        self.by_kind@[kind_slot(kind)]
    }

    /// The exceptions for single buildings, in ascending order of id.
    pub closed spec fn exceptions(&self) -> Seq<(BuildingId, u32)> {
        self.by_building@
    }

    /// The exception for one building, if there is one.
    pub open spec fn building_rule(&self, id: BuildingId) -> Option<u32> {
        exception_in(self.exceptions(), id)
    }

    /// Every hour figure in force is one the republic will roster, and the
    /// exceptions stand in ascending order of building id.
    pub closed spec fn wf(&self) -> bool {
        &&& self.by_kind@.len() == kind_order().len()
        &&& MIN_HOURS <= self.national <= MAX_HOURS
        &&& forall|i: int| 0 <= i < self.by_kind@.len() && (#[trigger] self.by_kind@[i]) is Some ==> MIN_HOURS
            <= self.by_kind@[i]->0 <= MAX_HOURS
        &&& ascending(self.by_building@)
        &&& forall|i: int| 0 <= i < self.by_building@.len() ==> MIN_HOURS <= (#[trigger] self.by_building@[i]).1
            <= MAX_HOURS
    }

    /// How long a shift is at a building: its own exception, else the rule
    /// for its kind, else the national standard. Narrowest rule wins.
    pub open spec fn hours_spec(&self, kind: BuildingKind, id: BuildingId) -> u32 {
        match self.building_rule(id) {
            Some(h) => h,
            None => match self.kind_rule(kind) {
                Some(h) => h,
                None => self.national_spec(),
            },
        }
    }

    /// The standard working day everywhere, and no exceptions.
    pub fn new() -> (p: ShiftPolicy)
        ensures
            p.wf(),
            p.national_spec() == STANDARD_HOURS,
            forall|k: BuildingKind| p.kind_rule(k) is None,
            p.exceptions() == Seq::<(BuildingId, u32)>::empty(),
    {
        let mut by_kind: Vec<Option<u32>> = Vec::new();
        let mut i: usize = 0;
        while i < 33
            invariant
                i <= 33,
                by_kind@.len() == i,
                forall|j: int| 0 <= j < i ==> by_kind@[j] is None,
            decreases 33 - i,
        {
            by_kind.push(None);
            i = i + 1;
        }
        proof {
            lemma_kind_slots();
        }
        let p = ShiftPolicy { national: STANDARD_HOURS, by_kind, by_building: Vec::new() };
        assert forall|k: BuildingKind| p.kind_rule(k) is None by {
            lemma_kind_slots();
        }
        p
    }

    /// The standard everything falls back to.
    pub fn national(&self) -> (h: u32)
        ensures
            h == self.national_spec(),
    {
        self.national
    }

    /// The rule for a kind of workplace, if there is one.
    pub fn of_kind(&self, kind: BuildingKind) -> (r: Option<u32>)
        requires
            self.wf(),
        ensures
            r == self.kind_rule(kind),
    {
        proof {
            lemma_kind_slots();
        }
        self.by_kind[slot_of(kind)]
    }

    /// The exception for one building, if there is one.
    pub fn of_building(&self, id: BuildingId) -> (r: Option<u32>)
        requires
            self.wf(),
        ensures
            r == self.building_rule(id),
    {
        let mut i: usize = 0;
        while i < self.by_building.len()
            invariant
                self.wf(),
                i <= self.by_building@.len(),
                forall|j: int| 0 <= j < i ==> (#[trigger] self.by_building@[j]).0 != id,
            decreases self.by_building@.len() - i,
        {
            if self.by_building[i].0 == id {
                proof {
                    lemma_exception_at(self.by_building@, i as int);
                }
                return Some(self.by_building[i].1);
            }
            i = i + 1;
        }
        None
    }

    /// How long a shift is at this building. Narrowest rule wins.
    pub fn hours_for(&self, kind: BuildingKind, id: BuildingId) -> (h: u32)
        requires
            self.wf(),
        ensures
            h == self.hours_spec(kind, id),
            MIN_HOURS <= h <= MAX_HOURS,
    {
        proof {
            lemma_kind_slots();
            if let Some(_) = self.building_rule(id) {
                let i = choose|i: int| 0 <= i < self.by_building@.len() && (#[trigger] self.by_building@[i]).0 == id;
                assert(self.by_building@[i].1 == self.building_rule(id)->0);
            }
            assert(0 <= kind_slot(kind) < self.by_kind@.len());
        }
        match self.of_building(id) {
            Some(h) => h,
            None => match self.of_kind(kind) {
                Some(h) => h,
                None => self.national,
            },
        }
    }

    /// Every kind with a rule of its own, in the order kinds are ranked.
    pub fn kind_rules(&self) -> (r: Vec<(BuildingKind, u32)>)
        requires
            self.wf(),
        ensures
            forall|i: int, j: int| 0 <= i < j < r@.len() ==> kind_slot((#[trigger] r@[i]).0) < kind_slot((#[trigger] r@[j]).0),
            forall|i: int| 0 <= i < r@.len() ==> self.kind_rule((#[trigger] r@[i]).0) == Some(r@[i].1),
            forall|k: BuildingKind| #[trigger] self.kind_rule(k) is Some ==> exists|i: int| 0 <= i < r@.len() && (#[trigger] r@[i]).0 == k,
    {
        proof {
            lemma_kind_slots();
        }
        let order = kinds_in_order();
        let mut r: Vec<(BuildingKind, u32)> = Vec::new();
        let mut i: usize = 0;
        while i < 33
            invariant
                i <= 33,
                order@ == kind_order(),
                self.wf(),
                forall|a: int, b: int| 0 <= a < b < r@.len() ==> kind_slot((#[trigger] r@[a]).0) < kind_slot((#[trigger] r@[b]).0),
                forall|a: int| 0 <= a < r@.len() ==> kind_slot((#[trigger] r@[a]).0) < i,
                forall|a: int| 0 <= a < r@.len() ==> self.kind_rule((#[trigger] r@[a]).0) == Some(r@[a].1),
                forall|k: BuildingKind| kind_slot(k) < i && #[trigger] self.kind_rule(k) is Some ==> exists|a: int|
                    0 <= a < r@.len() && (#[trigger] r@[a]).0 == k,
            decreases 33 - i,
        {
            proof {
                lemma_kind_slots();
            }
            let kind = order[i];
            assert(kind_slot(kind) == i);
            match self.by_kind[i] {
                Some(h) => {
                    let ghost before = r@;
                    r.push((kind, h));
                    proof {
                        assert(r@[r@.len() - 1] == (kind, h));
                        assert forall|k: BuildingKind| kind_slot(k) < i + 1 && #[trigger] self.kind_rule(k) is Some implies exists|a: int|
                            0 <= a < r@.len() && (#[trigger] r@[a]).0 == k by {
                            if kind_slot(k) == i {
                                assert(kind_order()[kind_slot(k)] == k);
                                assert(k == kind);
                                assert(r@[r@.len() - 1].0 == k);
                            } else {
                                assert(exists|a: int| 0 <= a < before.len() && (#[trigger] before[a]).0 == k);
                                let a = choose|a: int| 0 <= a < before.len() && (#[trigger] before[a]).0 == k;
                                assert(r@[a] == before[a]);
                            }
                        }
                    }
                },
                None => {
                    proof {
                        assert forall|k: BuildingKind| kind_slot(k) < i + 1 && #[trigger] self.kind_rule(k) is Some implies exists|a: int|
                            0 <= a < r@.len() && (#[trigger] r@[a]).0 == k by {
                            if kind_slot(k) == i {
                                assert(kind_order()[kind_slot(k)] == k);
                            }
                        }
                    }
                },
            }
            i = i + 1;
        }
        r
    }

    /// Every building with an exception of its own, in ascending order of id.
    pub fn building_rules(&self) -> (r: Vec<(BuildingId, u32)>)
        ensures
            r@ == self.exceptions(),
    {
        let mut r: Vec<(BuildingId, u32)> = Vec::new();
        let mut i: usize = 0;
        while i < self.by_building.len()
            invariant
                i <= self.by_building@.len(),
                r@ == self.by_building@.take(i as int),
            decreases self.by_building@.len() - i,
        {
            r.push(self.by_building[i]);
            i = i + 1;
            assert(r@ =~= self.by_building@.take(i as int));
        }
        assert(self.by_building@.take(i as int) =~= self.by_building@);
        r
    }

    /// Set the national working day, held to what the republic will roster.
    pub fn set_national(&mut self, hours: u32)
        requires
            old(self).wf(),
        ensures
            final(self).wf(),
            final(self).national_spec() == clamped(hours),
            forall|k: BuildingKind| #[trigger] final(self).kind_rule(k) == old(self).kind_rule(k),
            final(self).exceptions() == old(self).exceptions(),
    {
        self.national = clamp_hours(hours);
    }

    /// Set, or with `None` clear, the rule for a kind of workplace.
    pub fn set_kind(&mut self, kind: BuildingKind, hours: Option<u32>)
        requires
            old(self).wf(),
        ensures
            final(self).wf(),
            final(self).national_spec() == old(self).national_spec(),
            final(self).kind_rule(kind) == match hours {
                Some(h) => Some(clamped(h)),
                None => None,
            },
            forall|k: BuildingKind| k != kind ==> #[trigger] final(self).kind_rule(k) == old(self).kind_rule(k),
            final(self).exceptions() == old(self).exceptions(),
    {
        proof {
            lemma_kind_slots();
        }
        let slot = slot_of(kind);
        let value = match hours {
            Some(h) => Some(clamp_hours(h)),
            None => None,
        };
        self.by_kind.set(slot, value);
        proof {
            assert forall|k: BuildingKind| k != kind implies #[trigger] self.kind_rule(k) == old(self).kind_rule(k) by {
                if kind_slot(k) == kind_slot(kind) {
                    assert(kind_order()[kind_slot(k)] == k);
                    assert(kind_order()[kind_slot(kind)] == kind);
                }
            }
        }
    }

    /// Set, or with `None` clear, the exception for one building.
    pub fn set_building(&mut self, id: BuildingId, hours: Option<u32>)
        requires
            old(self).wf(),
        ensures
            final(self).wf(),
            final(self).national_spec() == old(self).national_spec(),
            forall|k: BuildingKind| #[trigger] final(self).kind_rule(k) == old(self).kind_rule(k),
            final(self).building_rule(id) == match hours {
                Some(h) => Some(clamped(h)),
                None => None,
            },
            agree_but(final(self).exceptions(), old(self).exceptions(), id),
    {
        let ghost before = self.by_building@;
        // Where `id` stands, or would stand, among the exceptions.
        let mut p: usize = 0;
        while p < self.by_building.len() && self.by_building[p].0.0 < id.0
            invariant
                self.wf(),
                self.by_building@ == before,
                p <= before.len(),
                forall|i: int| 0 <= i < p ==> (#[trigger] before[i]).0.0 < id.0,
            decreases before.len() - p,
        {
            p = p + 1;
        }
        let found = p < self.by_building.len() && self.by_building[p].0 == id;
        proof {
            assert forall|i: int| p <= i < before.len() implies (#[trigger] before[i]).0.0 >= id.0 by {
                if i > p {
                    assert(before[p as int].0.0 < before[i].0.0);
                }
            }
        }
        match hours {
            Some(h) => {
                let v = clamp_hours(h);
                if found {
                    self.by_building.set(p, (id, v));
                    proof {
                        lemma_exception_updated(before, p as int, id, v);
                    }
                } else {
                    self.by_building.insert(p, (id, v));
                    proof {
                        lemma_exception_inserted(before, p as int, id, v);
                    }
                }
            },
            None => {
                if found {
                    self.by_building.remove(p);
                    proof {
                        lemma_exception_removed(before, p as int, id);
                    }
                } else {
                    proof {
                        lemma_exception_missing(before, p as int, id);
                    }
                }
            },
        }
    }

    /// Forget a demolished building's exception, so a rule made about
    /// something that no longer stands is not left in force.
    pub fn forget(&mut self, id: BuildingId)
        requires
            old(self).wf(),
        ensures
            final(self).wf(),
            final(self).national_spec() == old(self).national_spec(),
            forall|k: BuildingKind| #[trigger] final(self).kind_rule(k) == old(self).kind_rule(k),
            final(self).building_rule(id) is None,
            agree_but(final(self).exceptions(), old(self).exceptions(), id),
    {
        self.set_building(id, None);
    }
}

/// The narrowest rule wins: a building's own exception over the rule for its
/// kind, and that over the national standard, whatever the others say.
pub proof fn the_narrowest_rule_wins(p: ShiftPolicy, kind: BuildingKind, id: BuildingId)
    requires
        p.wf(),
    ensures
        p.building_rule(id) matches Some(h) ==> p.hours_spec(kind, id) == h,
        p.building_rule(id) is None ==> (p.kind_rule(kind) matches Some(h) ==> p.hours_spec(kind, id) == h),
        p.building_rule(id) is None && p.kind_rule(kind) is None ==> p.hours_spec(kind, id) == p.national_spec(),
{
}

/// Clearing an exception falls back to the rule above it: a building whose
/// exception is cleared, and whose kind rule and national standard are what
/// they were, works what those say, not whatever it was working before.
pub proof fn clearing_an_exception_falls_back(
    before: ShiftPolicy,
    after: ShiftPolicy,
    kind: BuildingKind,
    id: BuildingId,
)
    requires
        after.building_rule(id) is None,
        after.kind_rule(kind) == before.kind_rule(kind),
        after.national_spec() == before.national_spec(),
    ensures
        after.hours_spec(kind, id) == match before.kind_rule(kind) {
            Some(h) => h,
            None => before.national_spec(),
        },
{
}

} // verus!
