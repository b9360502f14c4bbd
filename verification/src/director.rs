//! The reference player: what a competent republic-builder buys, in the order
//! they would buy it.
//!
//! It touches the republic only through commands and what it can read, which
//! is what makes it a player rather than a fixture. It is deliberately dumb:
//! one thing at a time, in a fixed order, paid for however it can be. A
//! failure under it is therefore not proof the game is unwinnable, but a
//! republic that cuts no coal, moves no freight and feeds nobody for ten years
//! under a sensible fixed order is not a hard game, it is a broken one.
//!
//! A month of decisions runs in four parts, in this order: build the next
//! thing on the plan, hire builders abroad, trade, and string the grid. Each
//! part is split where the republic has to answer: a function that says what
//! to ask for, given what the director can see, and a function that hears
//! what came back. Whoever holds the republic carries the commands across and
//! hands the outcomes back; everything the director decides is here.

use crate::building::{building_def, Building, BuildingKind, Buildings};
use crate::command::{refused_message, Command, Done, Refused};
use crate::resource::Resource;
use crate::roadworks::Grade;
use crate::text::{decimal, digit_char, push_decimal};
use crate::trade::{Market, TradeAction};
use crate::units::{distance, Point, Tonnes};
use crate::utility::{utility_name, Utility};
use vstd::prelude::*;
use vstd::string::StringExecFns;

verus! {

/// The order a republic gets built in. A Construction Office first, because
/// everything after it is cheaper once the republic has crews of its own; a
/// Motor Depot second, because a republic without lorries starves beside its
/// own full bins; then somewhere to live, power, and a Customs House, which is
/// the only way a rouble ever comes back in. The materials chain comes early,
/// because until the republic can make gravel, brick and planks a site it
/// builds itself has nothing to be built out of.
pub open spec fn plan_spec() -> Seq<BuildingKind> {
    seq![
        BuildingKind::ConstructionOffice,
        BuildingKind::MotorDepot,
        BuildingKind::Apartment,
        BuildingKind::CoalMine,
        BuildingKind::PowerPlant,
        BuildingKind::TransformerStation,
        BuildingKind::Customs,
        BuildingKind::GravelQuarry,
        BuildingKind::Woodcutter,
        BuildingKind::Sawmill,
        BuildingKind::Brickworks,
        BuildingKind::Store,
        BuildingKind::Farm,
        BuildingKind::FoodFactory,
        BuildingKind::HeatingPlant,
        BuildingKind::BusDepot,
        BuildingKind::Apartment,
        BuildingKind::Clinic,
        BuildingKind::School,
    ]
}

/// What the republic has to be able to make before its own crews are worth
/// using: contractors bring their own materials, and its crews do not.
pub open spec fn materials_spec() -> Seq<BuildingKind> {
    seq![BuildingKind::GravelQuarry, BuildingKind::Sawmill, BuildingKind::Brickworks]
}

/// What the republic buys in until it can make it, and how many tonnes it
/// keeps at the crossing: a few weeks of consumption, enough that a lorry
/// breaking down does not stop the plant.
pub open spec fn imports_spec() -> Seq<(Resource, u64)> {
    seq![
        (Resource::Food, 120u64),
        (Resource::Coal, 200u64),
        (Resource::Fuel, 60u64),
        (Resource::Machinery, 20u64),
        (Resource::Steel, 80u64),
        (Resource::Bricks, 60u64),
    ]
}

/// The plan, in order.
pub fn plan() -> (r: [BuildingKind; 19])
    ensures
        r@ == plan_spec(),
{
    let r = [
        BuildingKind::ConstructionOffice,
        BuildingKind::MotorDepot,
        BuildingKind::Apartment,
        BuildingKind::CoalMine,
        BuildingKind::PowerPlant,
        BuildingKind::TransformerStation,
        BuildingKind::Customs,
        BuildingKind::GravelQuarry,
        BuildingKind::Woodcutter,
        BuildingKind::Sawmill,
        BuildingKind::Brickworks,
        BuildingKind::Store,
        BuildingKind::Farm,
        BuildingKind::FoodFactory,
        BuildingKind::HeatingPlant,
        BuildingKind::BusDepot,
        BuildingKind::Apartment,
        BuildingKind::Clinic,
        BuildingKind::School,
    ];
    assert(r@ =~= plan_spec());
    r
}

/// The standing imports, in the order they are set.
pub fn imports() -> (r: [(Resource, u64); 6])
    ensures
        r@ == imports_spec(),
{
    let r = [
        (Resource::Food, 120u64),
        (Resource::Coal, 200u64),
        (Resource::Fuel, 60u64),
        (Resource::Machinery, 20u64),
        (Resource::Steel, 80u64),
        (Resource::Bricks, 60u64),
    ];
    assert(r@ =~= imports_spec());
    r
}

/// Whether a building has finished going up.
pub open spec fn is_built(b: Building) -> bool {
    b.work_done >= building_def(b.kind).labour
}

/// How many sites are still going up.
pub open spec fn going(list: Seq<Building>) -> nat
    decreases list.len(),
{
    if list.len() == 0 {
        0
    } else {
        going(list.drop_last()) + if is_built(list.last()) {
            0nat
        } else {
            1nat
        }
    }
}

/// Whether some finished building of this kind has people in it.
pub open spec fn staffed(list: Seq<Building>, kind: BuildingKind) -> bool {
    exists|i: int| 0 <= i < list.len() && #[trigger] list[i].kind == kind && is_built(list[i]) && list[i].staff > 0
}

/// Whether the republic's own crews are worth using: an office with people in
/// it, and every link of the materials chain working.
pub open spec fn own_crews(list: Seq<Building>) -> bool {
    &&& staffed(list, BuildingKind::ConstructionOffice)
    &&& forall|j: int| 0 <= j < materials_spec().len() ==> staffed(list, #[trigger] materials_spec()[j])
}

/// The first finished building that satisfies `p`, in the order the
/// buildings were commissioned.
pub open spec fn first_built(list: Seq<Building>, p: spec_fn(Building) -> bool) -> Option<Building>
    decreases list.len(),
{
    if list.len() == 0 {
        None
    } else if is_built(list[0]) && p(list[0]) {
        Some(list[0])
    } else {
        first_built(list.drop_first(), p)
    }
}

/// A building of this kind.
pub open spec fn of_kind(kind: BuildingKind) -> spec_fn(Building) -> bool {
    |b: Building| b.kind == kind
}

/// Whether a building feeds a network: a power station the grid, a boiler
/// house the heat mains.
pub open spec fn makes(kind: Utility, b: Building) -> bool {
    match kind {
        Utility::Heat => building_def(b.kind).heat_output > 0,
        Utility::Power => building_def(b.kind).power_output > 0,
    }
}

/// Whether a building draws on a network.
pub open spec fn wants(kind: Utility, b: Building) -> bool {
    match kind {
        Utility::Heat => building_def(b.kind).heat > 0,
        Utility::Power => building_def(b.kind).power_draw > 0,
    }
}

/// A finished building that feeds the network.
pub open spec fn source_of(kind: Utility) -> spec_fn(Building) -> bool {
    |b: Building| makes(kind, b)
}

/// A finished building that draws on the network and is not on it yet.
pub open spec fn waiting(list: Seq<Building>, kind: Utility, joined: Seq<crate::building::BuildingId>, i: int) -> bool {
    &&& is_built(list[i])
    &&& wants(kind, list[i])
    &&& !joined.contains(list[i].id)
}

/// The building waiting for the network that stands nearest the town
/// centre, and of those equally near the one commissioned first.
pub open spec fn nearest_waiting(
    list: Seq<Building>,
    kind: Utility,
    joined: Seq<crate::building::BuildingId>,
    centre: Point,
    i: int,
) -> bool {
    &&& 0 <= i < list.len()
    &&& waiting(list, kind, joined, i)
    &&& forall|k: int|
        0 <= k < list.len() && #[trigger] waiting(list, kind, joined, k) ==> distance(centre, list[i].centre)
            <= distance(centre, list[k].centre)
    &&& forall|k: int|
        0 <= k < i && #[trigger] waiting(list, kind, joined, k) ==> distance(centre, list[i].centre)
            < distance(centre, list[k].centre)
}

/// What the next span of one network is: the command that orders it and,
/// for a span out from the hub, the kind of building it reaches.
pub open spec fn next_span(
    list: Seq<Building>,
    kind: Utility,
    joined: Seq<crate::building::BuildingId>,
    centre: Point,
    r: Option<(Command, Option<BuildingKind>)>,
) -> bool {
    match first_built(list, source_of(kind)) {
        None => r is None,
        Some(source) => if !joined.contains(source.id) {
            r == Some((Command::OrderLine { kind, from: source.centre, to: centre }, None::<BuildingKind>))
        } else {
            match r {
                None => forall|k: int| 0 <= k < list.len() ==> !#[trigger] waiting(list, kind, joined, k),
                Some((command, reaching)) => exists|i: int|
                    #[trigger] nearest_waiting(list, kind, joined, centre, i) && command == (Command::OrderLine {
                        kind,
                        from: centre,
                        to: list[i].centre,
                    }) && reaching == Some(list[i].kind),
            }
        },
    }
}

/// A kilometre figure to one decimal place, from whole metres, rounding the
/// last half up.
pub open spec fn km_tenths(metres: int) -> Seq<char> {
    let tenths = (metres + 50) / 100;
    decimal((tenths / 10) as nat).push('.').push(digit_char((tenths % 10) as nat))
}

/// What a bloc is called in the director's own notes.
pub open spec fn bloc_word(m: Market) -> Seq<char> {
    match m {
        Market::East => "East"@,
        Market::West => "West"@,
    }
}

/// A line added to what has been said, unless it has been said already.
pub open spec fn spoken(said: Seq<Seq<char>>, line: Seq<char>) -> Seq<Seq<char>> {
    if said.contains(line) {
        said
    } else {
        said.push(line)
    }
}

/// A line is said once: adding a line to what has been said never makes any
/// line appear twice.
pub proof fn a_line_is_said_once(said: Seq<Seq<char>>, line: Seq<char>)
    requires
        said.no_duplicates(),
    ensures
        spoken(said, line).no_duplicates(),
        spoken(said, line).contains(line),
{
    if said.contains(line) {
    } else {
        let after = said.push(line);
        assert forall|i: int, j: int| 0 <= i < after.len() && 0 <= j < after.len() && i != j implies after[i]
            != after[j] by {
            if i < said.len() && j < said.len() {
            } else if i == said.len() {
                assert(!said.contains(line));
                assert(after[j] == said[j]);
            } else {
                assert(after[i] == said[i]);
            }
        }
        assert(after[said.len() as int] == line);
    }
}

/// The autopilot.
pub struct Director {
    centre: Point,
    /// How far through the plan it has got.
    step: usize,
    /// Whether builders have been hired from abroad yet.
    hired: bool,
    /// Whether the track to the crossing has been ordered.
    road: bool,
    /// Whether coal has been put on sale.
    selling: bool,
    /// Whether the standing import rules have been set.
    buying: bool,
    /// How many months running the current step has been refused.
    stuck: u32,
    /// What it has said out loud, so a decade does not print the same line
    /// three hundred times.
    said: Vec<String>,
}

impl Director {
    /// The town centre everything is measured from.
    pub closed spec fn centre(&self) -> Point {
        self.centre
    }

    /// How many entries of the plan are behind it.
    pub closed spec fn step(&self) -> nat {
        self.step as nat
    }

    pub closed spec fn hired(&self) -> bool {
        self.hired
    }

    pub closed spec fn road(&self) -> bool {
        self.road
    }

    pub closed spec fn selling(&self) -> bool {
        self.selling
    }

    pub closed spec fn buying(&self) -> bool {
        self.buying
    }

    /// How many times running the current step has been refused.
    pub closed spec fn stuck(&self) -> nat {
        self.stuck as nat
    }

    /// Every line said so far, oldest first, each once.
    pub closed spec fn lines(&self) -> Seq<Seq<char>> {
        self.said@.map_values(|s: String| s@)
    }

    /// It never runs past the end of the plan, it gives a step up on the
    /// third refusal, and it has said no line twice.
    pub open spec fn wf(&self) -> bool {
        &&& self.step() <= plan_spec().len()
        &&& self.stuck() < 3
        &&& self.lines().no_duplicates()
    }

    /// Whether two directors agree on everything but what they have said.
    pub open spec fn same_plans(&self, other: &Director) -> bool {
        &&& self.centre() == other.centre()
        &&& self.step() == other.step()
        &&& self.hired() == other.hired()
        &&& self.road() == other.road()
        &&& self.selling() == other.selling()
        &&& self.buying() == other.buying()
        &&& self.stuck() == other.stuck()
    }

    /// A director that has done nothing yet.
    pub fn new(centre: Point) -> (d: Director)
        ensures
            d.wf(),
            d.centre() == centre,
            d.step() == 0,
            !d.hired(),
            !d.road(),
            !d.selling(),
            !d.buying(),
            d.stuck() == 0,
            d.lines() == Seq::<Seq<char>>::empty(),
    {
        let d = Director {
            centre,
            step: 0,
            hired: false,
            road: false,
            selling: false,
            buying: false,
            stuck: 0,
            said: Vec::new(),
        };
        assert(d.lines() =~= Seq::<Seq<char>>::empty());
        d
    }

    /// Every line said so far, oldest first.
    pub fn said(&self) -> (r: &[String])
        ensures
            r@.len() == self.lines().len(),
            forall|i: int| 0 <= i < r@.len() ==> #[trigger] r@[i]@ == self.lines()[i],
    {
        self.said.as_slice()
    }

    fn say(&mut self, line: String)
        requires
            old(self).wf(),
        ensures
            final(self).wf(),
            final(self).same_plans(old(self)),
            final(self).lines() == spoken(old(self).lines(), line@),
    {
        proof {
            a_line_is_said_once(self.lines(), line@);
        }
        let ghost before = self.lines();
        let mut i: usize = 0;
        while i < self.said.len()
            invariant
                i <= self.said@.len(),
                *self == *old(self),
                self.wf(),
                self.lines() == before,
                forall|k: int| 0 <= k < i ==> self.said@[k]@ != line@,
            decreases self.said@.len() - i,
        {
            if self.said[i] == line {
                proof {
                    assert(before[i as int] == line@);
                }
                return;
            }
            i = i + 1;
        }
        proof {
            assert forall|k: int| 0 <= k < before.len() implies before[k] != line@ by {
                assert(before[k] == self.said@[k]@);
            }
        }
        self.said.push(line);
        proof {
            assert(self.lines() =~= before.push(line@));
        }
    }

    /// The first part of a month: what to put up next, and around where.
    ///
    /// Nothing while two sites are going up already, or when the plan is done.
    /// A customs house goes to an Eastern post, because the grant is roubles,
    /// and to any post when the land reaches none; a republic with no post at
    /// all skips it. Everything else goes up around the town centre.
    /// `east_post` and `any_post` are the nearest frontier posts to the town
    /// centre, of the Eastern Bloc and of either. `Some` asks for a site near
    /// the point it names.
    pub fn build_next(
        &mut self,
        buildings: &Buildings,
        east_post: Option<Point>,
        any_post: Option<Point>,
    ) -> (r: Option<(BuildingKind, Point)>)
        requires
            old(self).wf(),
        ensures
            final(self).wf(),
            ({
                let list = buildings.buildings();
                let s = old(self).step();
                let kind = plan_spec()[s as int];
                let warned = if east_post is None {
                    spoken(old(self).lines(), "no Eastern post in reach \u{2014} this posting must earn dollars first"@)
                } else {
                    old(self).lines()
                };
                if s >= plan_spec().len() || going(list) >= 2 {
                    r is None && *final(self) == *old(self)
                } else if kind != BuildingKind::Customs {
                    r == Some((kind, old(self).centre())) && *final(self) == *old(self)
                } else {
                    match (if east_post is Some { east_post } else { any_post }) {
                        Some(post) => r == Some((kind, post)) && final(self).same_plans(old(self))
                            && final(self).lines() == warned,
                        None => {
                            &&& r is None
                            &&& final(self).lines() == spoken(warned, "this republic has no frontier post at all"@)
                            &&& final(self).step() == s + 1
                            &&& final(self).stuck() == old(self).stuck()
                            &&& final(self).centre() == old(self).centre()
                            &&& final(self).hired() == old(self).hired()
                            &&& final(self).road() == old(self).road()
                            &&& final(self).selling() == old(self).selling()
                            &&& final(self).buying() == old(self).buying()
                        },
                    }
                }
            }),
    {
        let plan = plan();
        if self.step >= 19 {
            return None;
        }
        let list = buildings.all();
        let mut count: usize = 0;
        let mut i: usize = 0;
        while i < list.len()
            invariant
                i <= list@.len(),
                count == going(list@.take(i as int)),
                count <= i,
            decreases list@.len() - i,
        {
            proof {
                assert(list@.take(i + 1).drop_last() =~= list@.take(i as int));
            }
            if !list[i].is_built() {
                count = count + 1;
            }
            i = i + 1;
        }
        proof {
            assert(list@.take(i as int) =~= list@);
        }
        if count >= 2 {
            return None;
        }
        let kind = plan[self.step];
        if kind != BuildingKind::Customs {
            return Some((kind, self.centre));
        }
        if east_post.is_none() {
            self.say(String::from_str("no Eastern post in reach \u{2014} this posting must earn dollars first"));
        }
        let post = if east_post.is_some() {
            east_post
        } else {
            any_post
        };
        match post {
            Some(at) => Some((kind, at)),
            None => {
                self.say(String::from_str("this republic has no frontier post at all"));
                self.step = self.step + 1;
                None
            },
        }
    }

    /// Where the site search came back to: the command that puts the
    /// building up there, or, when nowhere within reach would take it, a
    /// step past it on the plan.
    ///
    /// It builds with its own crews when there is an office with people in it
    /// and every link of the materials chain is working, and pays an Eastern
    /// firm otherwise: that is the whole shape of the opening.
    pub fn site_found(&mut self, buildings: &Buildings, kind: BuildingKind, at: Option<Point>) -> (r: Option<
        Command,
    >)
        requires
            old(self).wf(),
            old(self).step() < plan_spec().len(),
        ensures
            final(self).wf(),
            match at {
                None => {
                    &&& r is None
                    &&& final(self).lines() == spoken(
                        old(self).lines(),
                        "nowhere within reach takes a "@ + building_def(kind).name@,
                    )
                    &&& final(self).step() == old(self).step() + 1
                    &&& final(self).stuck() == old(self).stuck()
                    &&& final(self).centre() == old(self).centre()
                    &&& final(self).hired() == old(self).hired()
                    &&& final(self).road() == old(self).road()
                    &&& final(self).selling() == old(self).selling()
                    &&& final(self).buying() == old(self).buying()
                },
                Some(p) => {
                    &&& *final(self) == *old(self)
                    &&& r == Some(
                        if own_crews(buildings.buildings()) {
                            Command::Place { kind, at: p }
                        } else {
                            Command::ContractBuild { kind, at: p, market: Market::East }
                        },
                    )
                },
            },
    {
        match at {
            None => {
                let mut line = String::from_str("nowhere within reach takes a ");
                line.append(kind.def().name);
                self.say(line);
                self.step = self.step + 1;
                None
            },
            Some(p) => {
                if has_own_crews(buildings.all()) {
                    Some(Command::Place { kind, at: p })
                } else {
                    Some(Command::ContractBuild { kind, at: p, market: Market::East })
                }
            },
        }
    }

    /// What became of a building it asked for. On success the plan moves on;
    /// on a refusal it says why and tries again next month, giving the step up
    /// on the third refusal running rather than stalling the plan for ever.
    pub fn build_heard(&mut self, command: &Command, outcome: &Result<Done, Refused>)
        requires
            old(self).wf(),
            old(self).step() < plan_spec().len(),
            command is Place || command is ContractBuild,
        ensures
            final(self).wf(),
            final(self).centre() == old(self).centre(),
            final(self).hired() == old(self).hired(),
            final(self).road() == old(self).road(),
            final(self).selling() == old(self).selling(),
            final(self).buying() == old(self).buying(),
            ({
                let kind = match *command {
                    Command::Place { kind, .. } => kind,
                    Command::ContractBuild { kind, .. } => kind,
                    _ => BuildingKind::House,
                };
                let name = building_def(kind).name@;
                match *outcome {
                    Ok(_) => {
                        &&& final(self).lines() == spoken(
                            old(self).lines(),
                            (if command is Place {
                                "building"@
                            } else {
                                "contracting"@
                            }) + " a "@ + name,
                        )
                        &&& final(self).step() == old(self).step() + 1
                        &&& final(self).stuck() == 0
                    },
                    Err(why) => {
                        &&& final(self).lines() == spoken(
                            old(self).lines(),
                            "cannot start a "@ + name + ": "@ + refused_message(why),
                        )
                        &&& if old(self).stuck() + 1 >= 3 {
                            final(self).stuck() == 0 && final(self).step() == old(self).step() + 1
                        } else {
                            final(self).stuck() == old(self).stuck() + 1 && final(self).step() == old(self).step()
                        }
                    },
                }
            }),
    {
        let (kind, own) = match command {
            Command::Place { kind, .. } => (*kind, true),
            Command::ContractBuild { kind, .. } => (*kind, false),
            _ => (BuildingKind::House, false),
        };
        match outcome {
            Ok(_) => {
                let mut line = if own {
                    String::from_str("building")
                } else {
                    String::from_str("contracting")
                };
                line.append(" a ");
                line.append(kind.def().name);
                self.say(line);
                self.step = self.step + 1;
                self.stuck = 0;
            },
            Err(why) => {
                let mut line = String::from_str("cannot start a ");
                line.append(kind.def().name);
                line.append(": ");
                let reason = why.message();
                line.append(reason.as_str());
                self.say(line);
                self.stuck = self.stuck + 1;
                if self.stuck >= 3 {
                    self.stuck = 0;
                    self.step = self.step + 1;
                }
            },
        }
    }

    /// The second part: builders from the Eastern Bloc, once, for the first
    /// finished Construction Office. A blank map has nobody at all, so the
    /// first crews are always bought.
    pub fn hire_order(&self, buildings: &Buildings) -> (r: Option<Command>)
        ensures
            r == (if self.hired() {
                None
            } else {
                match first_built(buildings.buildings(), of_kind(BuildingKind::ConstructionOffice)) {
                    None => None,
                    Some(office) => Some(Command::HireForeign { market: Market::East, office: office.id, heads: 20 }),
                }
            }),
    {
        if self.hired {
            return None;
        }
        match first_built_of(buildings.all(), BuildingKind::ConstructionOffice) {
            None => None,
            Some(i) => Some(
                Command::HireForeign { market: Market::East, office: buildings.all()[i].id, heads: 20 },
            ),
        }
    }

    /// What became of the hiring.
    pub fn hire_heard(&mut self, outcome: &Result<Done, Refused>)
        requires
            old(self).wf(),
        ensures
            final(self).wf(),
            final(self).centre() == old(self).centre(),
            final(self).step() == old(self).step(),
            final(self).stuck() == old(self).stuck(),
            final(self).road() == old(self).road(),
            final(self).selling() == old(self).selling(),
            final(self).buying() == old(self).buying(),
            match *outcome {
                Ok(_) => final(self).hired() && final(self).lines() == spoken(
                    old(self).lines(),
                    "hired twenty builders from the Eastern Bloc"@,
                ),
                Err(why) => final(self).hired() == old(self).hired() && final(self).lines() == spoken(
                    old(self).lines(),
                    "cannot hire abroad: "@ + refused_message(why),
                ),
            },
    {
        match outcome {
            Ok(_) => {
                self.hired = true;
                self.say(String::from_str("hired twenty builders from the Eastern Bloc"));
            },
            Err(why) => {
                let mut line = String::from_str("cannot hire abroad: ");
                let reason = why.message();
                line.append(reason.as_str());
                self.say(line);
            },
        }
    }

    /// The third part opens with the standing imports, set once, at the bloc
    /// whose post the customs house stands at. The opening is an import
    /// problem: a coal mine draws power, a power plant burns coal, and a
    /// republic founded on empty ground has neither, so the first tonne has
    /// to come over the border.
    pub fn imports_order(&self, bloc: Market) -> (r: Vec<Command>)
        ensures
            self.buying() ==> r@.len() == 0,
            !self.buying() ==> r@.len() == imports_spec().len() && forall|i: int|
                0 <= i < r@.len() ==> #[trigger] r@[i] == (Command::AddTradeRule {
                    resource: imports_spec()[i].0,
                    market: bloc,
                    action: TradeAction::Buy { up_to: Tonnes(imports_spec()[i].1) },
                }),
    {
        let mut r: Vec<Command> = Vec::new();
        if self.buying {
            return r;
        }
        let wanted = imports();
        let mut i: usize = 0;
        while i < 6
            invariant
                i <= 6,
                wanted@ == imports_spec(),
                r@.len() == i,
                forall|k: int|
                    0 <= k < i ==> #[trigger] r@[k] == (Command::AddTradeRule {
                        resource: imports_spec()[k].0,
                        market: bloc,
                        action: TradeAction::Buy { up_to: Tonnes(imports_spec()[k].1) },
                    }),
            decreases 6 - i,
        {
            let (resource, up_to) = wanted[i];
            r.push(Command::AddTradeRule { resource, market: bloc, action: TradeAction::Buy { up_to: Tonnes(up_to) } });
            i = i + 1;
        }
        r
    }

    /// What became of the imports: they count as set only when every rule
    /// was taken.
    pub fn imports_heard(&mut self, bloc: Market, outcomes: &[Result<Done, Refused>])
        requires
            old(self).wf(),
        ensures
            final(self).wf(),
            final(self).centre() == old(self).centre(),
            final(self).step() == old(self).step(),
            final(self).stuck() == old(self).stuck(),
            final(self).hired() == old(self).hired(),
            final(self).road() == old(self).road(),
            final(self).selling() == old(self).selling(),
            (forall|i: int| 0 <= i < outcomes@.len() ==> #[trigger] outcomes@[i] is Ok) ==> {
                &&& final(self).buying()
                &&& final(self).lines() == spoken(
                    old(self).lines(),
                    "buying coal, fuel and machinery from the "@ + bloc_word(bloc),
                )
            },
            !(forall|i: int| 0 <= i < outcomes@.len() ==> #[trigger] outcomes@[i] is Ok) ==> {
                &&& final(self).buying() == old(self).buying()
                &&& final(self).lines() == old(self).lines()
            },
    {
        let mut all = true;
        let mut i: usize = 0;
        while i < outcomes.len()
            invariant
                i <= outcomes@.len(),
                all == (forall|k: int| 0 <= k < i ==> #[trigger] outcomes@[k] is Ok),
            decreases outcomes@.len() - i,
        {
            if outcomes[i].is_err() {
                all = false;
            }
            i = i + 1;
        }
        if all {
            self.buying = true;
            let mut line = String::from_str("buying coal, fuel and machinery from the ");
            line.append(bloc_name(bloc));
            self.say(line);
        }
    }

    /// Coal goes on sale once the republic actually digs it. Selling it from
    /// the day the house opens would buy a tonne over the border and sell it
    /// straight back.
    pub fn sale_order(&self, buildings: &Buildings, bloc: Market) -> (r: Option<Command>)
        ensures
            r == (if !self.selling() && staffed(buildings.buildings(), BuildingKind::CoalMine) {
                Some(Command::AddTradeRule { resource: Resource::Coal, market: bloc, action: TradeAction::Sell })
            } else {
                None
            }),
    {
        if !self.selling && has_staffed(buildings.all(), BuildingKind::CoalMine) {
            Some(Command::AddTradeRule { resource: Resource::Coal, market: bloc, action: TradeAction::Sell })
        } else {
            None
        }
    }

    /// What became of the sale. A refusal is tried again next month.
    pub fn sale_heard(&mut self, bloc: Market, outcome: &Result<Done, Refused>)
        requires
            old(self).wf(),
        ensures
            final(self).wf(),
            final(self).centre() == old(self).centre(),
            final(self).step() == old(self).step(),
            final(self).stuck() == old(self).stuck(),
            final(self).hired() == old(self).hired(),
            final(self).road() == old(self).road(),
            final(self).buying() == old(self).buying(),
            outcome is Ok ==> final(self).selling() && final(self).lines() == spoken(
                old(self).lines(),
                "selling coal to the "@ + bloc_word(bloc) + "ern bloc"@,
            ),
            outcome is Err ==> *final(self) == *old(self),
    {
        if outcome.is_ok() {
            self.selling = true;
            let mut line = String::from_str("selling coal to the ");
            line.append(bloc_name(bloc));
            line.append("ern bloc");
            self.say(line);
        }
    }

    /// A dirt track from the town centre to the customs house, ordered once.
    pub fn track_order(&self, house: Point) -> (r: Option<Command>)
        ensures
            r == (if self.road() {
                None
            } else {
                Some(Command::OrderRoad { from: self.centre(), to: house, grade: Grade::Dirt })
            }),
    {
        if self.road {
            None
        } else {
            Some(Command::OrderRoad { from: self.centre, to: house, grade: Grade::Dirt })
        }
    }

    /// What became of the track.
    pub fn track_heard(&mut self, house: Point, outcome: &Result<Done, Refused>)
        requires
            old(self).wf(),
        ensures
            final(self).wf(),
            final(self).centre() == old(self).centre(),
            final(self).step() == old(self).step(),
            final(self).stuck() == old(self).stuck(),
            final(self).hired() == old(self).hired(),
            final(self).selling() == old(self).selling(),
            final(self).buying() == old(self).buying(),
            match *outcome {
                Ok(_) => final(self).road() && final(self).lines() == spoken(
                    old(self).lines(),
                    "ordered a dirt track to the crossing: "@ + km_tenths(distance(old(self).centre(), house))
                        + " km"@,
                ),
                Err(why) => final(self).road() == old(self).road() && final(self).lines() == spoken(
                    old(self).lines(),
                    "no track to the crossing: "@ + refused_message(why),
                ),
            },
    {
        match outcome {
            Ok(_) => {
                self.road = true;
                let mut line = String::from_str("ordered a dirt track to the crossing: ");
                let metres = self.centre.distance_to(house);
                push_km(&mut line, metres.0);
                line.append(" km");
                self.say(line);
            },
            Err(why) => {
                let mut line = String::from_str("no track to the crossing: ");
                let reason = why.message();
                line.append(reason.as_str());
                self.say(line);
            },
        }
    }

    /// The fourth part: one span a month, and the town centre is the hub.
    ///
    /// Nothing while a line is already going up. Current before heat, because
    /// a dark republic produces nothing where a cold one merely suffers. For
    /// each network, the source to the hub first, then outward to whichever
    /// consumer is nearest and not yet joined. `power_joined` and
    /// `heat_joined` are the buildings already on each network. `Some` names
    /// the command and, for a span outward, the kind of building it reaches.
    pub fn grid_order(
        &self,
        buildings: &Buildings,
        lines_busy: bool,
        power_joined: &[crate::building::BuildingId],
        heat_joined: &[crate::building::BuildingId],
    ) -> (r: Option<(Command, Option<BuildingKind>)>)
        ensures
            lines_busy ==> r is None,
            !lines_busy ==> exists|power: Option<(Command, Option<BuildingKind>)>|
                #[trigger] next_span(buildings.buildings(), Utility::Power, power_joined@, self.centre(), power) && (
                match power {
                    Some(_) => r == power,
                    None => next_span(buildings.buildings(), Utility::Heat, heat_joined@, self.centre(), r),
                }),
    {
        if lines_busy {
            return None;
        }
        let power = span_for(buildings.all(), Utility::Power, power_joined, self.centre);
        assert(next_span(buildings.buildings(), Utility::Power, power_joined@, self.centre(), power));
        if power.is_some() {
            return power;
        }
        let heat = span_for(buildings.all(), Utility::Heat, heat_joined, self.centre);
        assert(next_span(buildings.buildings(), Utility::Heat, heat_joined@, self.centre(), heat));
        heat
    }

    /// What became of a span it asked for.
    pub fn grid_heard(&mut self, kind: Utility, reaching: Option<BuildingKind>, outcome: &Result<Done, Refused>)
        requires
            old(self).wf(),
        ensures
            final(self).same_plans(old(self)),
            final(self).wf(),
            final(self).lines() == spoken(
                old(self).lines(),
                match (reaching, *outcome) {
                    (None, Ok(_)) => "laying the "@ + utility_name(kind) + " in from the works"@,
                    (None, Err(why)) => "no "@ + utility_name(kind) + " from the works: "@ + refused_message(why),
                    (Some(to), Ok(_)) => "running the "@ + utility_name(kind) + " out to the "@
                        + building_def(to).name@,
                    (Some(to), Err(why)) => "no "@ + utility_name(kind) + " to the "@ + building_def(to).name@
                        + ": "@ + refused_message(why),
                },
            ),
    {
        let line = match (reaching, outcome) {
            (None, Ok(_)) => {
                let mut line = String::from_str("laying the ");
                line.append(kind.name());
                line.append(" in from the works");
                line
            },
            (None, Err(why)) => {
                let mut line = String::from_str("no ");
                line.append(kind.name());
                line.append(" from the works: ");
                let reason = why.message();
                line.append(reason.as_str());
                line
            },
            (Some(to), Ok(_)) => {
                let mut line = String::from_str("running the ");
                line.append(kind.name());
                line.append(" out to the ");
                line.append(to.def().name);
                line
            },
            (Some(to), Err(why)) => {
                let mut line = String::from_str("no ");
                line.append(kind.name());
                line.append(" to the ");
                line.append(to.def().name);
                line.append(": ");
                let reason = why.message();
                line.append(reason.as_str());
                line
            },
        };
        self.say(line);
    }
}

fn has_staffed(list: &[Building], kind: BuildingKind) -> (r: bool)
    ensures
        r == staffed(list@, kind),
{
    let mut i: usize = 0;
    while i < list.len()
        invariant
            i <= list@.len(),
            forall|k: int| 0 <= k < i ==> !(#[trigger] list@[k].kind == kind && is_built(list@[k]) && list@[k].staff > 0),
        decreases list@.len() - i,
    {
        let b = &list[i];
        if b.kind == kind && b.is_built() && b.staff > 0 {
            proof {
                assert(list@[i as int].kind == kind);
            }
            return true;
        }
        i = i + 1;
    }
    false
}

fn has_own_crews(list: &[Building]) -> (r: bool)
    ensures
        r == own_crews(list@),
{
    let office = has_staffed(list, BuildingKind::ConstructionOffice);
    let gravel = has_staffed(list, BuildingKind::GravelQuarry);
    let sawmill = has_staffed(list, BuildingKind::Sawmill);
    let bricks = has_staffed(list, BuildingKind::Brickworks);
    proof {
        assert(materials_spec()[0] == BuildingKind::GravelQuarry);
        assert(materials_spec()[1] == BuildingKind::Sawmill);
        assert(materials_spec()[2] == BuildingKind::Brickworks);
        if office && gravel && sawmill && bricks {
            assert forall|j: int| 0 <= j < materials_spec().len() implies staffed(
                list@,
                #[trigger] materials_spec()[j],
            ) by {
                if j == 0 {
                } else if j == 1 {
                } else {
                }
            }
        }
    }
    office && gravel && sawmill && bricks
}

/// The position of the first finished building of a kind, if there is one.
fn first_built_of(list: &[Building], kind: BuildingKind) -> (r: Option<usize>)
    ensures
        match first_built(list@, of_kind(kind)) {
            None => r is None,
            Some(b) => r is Some && r->0 < list@.len() && list@[r->0 as int] == b,
        },
{
    let mut i: usize = 0;
    assert(list@.skip(0) =~= list@);
    while i < list.len()
        invariant
            i <= list@.len(),
            first_built(list@, of_kind(kind)) == first_built(list@.skip(i as int), of_kind(kind)),
        decreases list@.len() - i,
    {
        proof {
            assert(list@.skip(i as int).drop_first() =~= list@.skip(i + 1));
            assert(list@.skip(i as int)[0] == list@[i as int]);
        }
        if list[i].kind == kind && list[i].is_built() {
            return Some(i);
        }
        i = i + 1;
    }
    proof {
        assert(list@.skip(i as int) =~= Seq::<Building>::empty());
    }
    None
}

/// The position of the first finished building that feeds a network.
fn first_source(list: &[Building], kind: Utility) -> (r: Option<usize>)
    ensures
        match first_built(list@, source_of(kind)) {
            None => r is None,
            Some(b) => r is Some && r->0 < list@.len() && list@[r->0 as int] == b,
        },
{
    let mut i: usize = 0;
    assert(list@.skip(0) =~= list@);
    while i < list.len()
        invariant
            i <= list@.len(),
            first_built(list@, source_of(kind)) == first_built(list@.skip(i as int), source_of(kind)),
        decreases list@.len() - i,
    {
        proof {
            assert(list@.skip(i as int).drop_first() =~= list@.skip(i + 1));
            assert(list@.skip(i as int)[0] == list@[i as int]);
        }
        if list[i].is_built() && makes_exec(kind, &list[i]) {
            return Some(i);
        }
        i = i + 1;
    }
    proof {
        assert(list@.skip(i as int) =~= Seq::<Building>::empty());
    }
    None
}

/// The customs house trade is done from: the first one finished.
pub fn customs_house(buildings: &Buildings) -> (r: Option<Point>)
    ensures
        r == (match first_built(buildings.buildings(), of_kind(BuildingKind::Customs)) {
            None => None,
            Some(b) => Some(b.centre),
        }),
{
    match first_built_of(buildings.all(), BuildingKind::Customs) {
        None => None,
        Some(i) => Some(buildings.all()[i].centre),
    }
}

fn bloc_name(m: Market) -> (s: &'static str)
    ensures
        s@ == bloc_word(m),
{
    match m {
        Market::East => "East",
        Market::West => "West",
    }
}

fn push_km(s: &mut String, metres: i64)
    requires
        metres >= 0,
    ensures
        final(s)@ == old(s)@ + km_tenths(metres as int),
{
    let tenths: u64 = (metres as u64) / 100 + if (metres as u64) % 100 >= 50 { 1 } else { 0 };
    assert(tenths == (metres + 50) / 100);
    push_decimal(s, tenths / 10);
    proof {
        reveal_strlit(".");
    }
    s.append(".");
    push_decimal(s, tenths % 10);
    assert(decimal((tenths % 10) as nat) == seq![digit_char((tenths % 10) as nat)]);
    assert(s@ =~= old(s)@ + km_tenths(metres as int));
}

fn makes_exec(kind: Utility, b: &Building) -> (r: bool)
    ensures
        r == makes(kind, *b),
{
    match kind {
        Utility::Heat => b.def().heat_output > 0,
        Utility::Power => b.def().power_output > 0,
    }
}

fn wants_exec(kind: Utility, b: &Building) -> (r: bool)
    ensures
        r == wants(kind, *b),
{
    match kind {
        Utility::Heat => b.def().heat > 0,
        Utility::Power => b.def().power_draw > 0,
    }
}

fn joined_has(joined: &[crate::building::BuildingId], id: crate::building::BuildingId) -> (r: bool)
    ensures
        r == joined@.contains(id),
{
    let mut i: usize = 0;
    while i < joined.len()
        invariant
            i <= joined@.len(),
            forall|k: int| 0 <= k < i ==> joined@[k] != id,
        decreases joined@.len() - i,
    {
        if joined[i] == id {
            return true;
        }
        i = i + 1;
    }
    false
}

/// The next span of one network: the source to the hub, or the hub out to the
/// nearest building still waiting.
fn span_for(
    list: &[Building],
    kind: Utility,
    joined: &[crate::building::BuildingId],
    centre: Point,
) -> (r: Option<(Command, Option<BuildingKind>)>)
    ensures
        next_span(list@, kind, joined@, centre, r),
{
    // The first finished building that feeds the network.
    let s = match first_source(list, kind) {
        None => return None,
        Some(s) => s,
    };
    assert(first_built(list@, source_of(kind)) == Some(list@[s as int]));
    if !joined_has(joined, list[s].id) {
        return Some((Command::OrderLine { kind, from: list[s].centre, to: centre }, None));
    }
    // Outward, nearest first, so it grows out of the town rather than leaping
    // across the map.
    let mut best: Option<usize> = None;
    let mut best_distance: i64 = 0;
    let mut j: usize = 0;
    while j < list.len()
        invariant
            j <= list@.len(),
            match best {
                None => forall|k: int| 0 <= k < j ==> !#[trigger] waiting(list@, kind, joined@, k),
                Some(b) => {
                    &&& b < j
                    &&& waiting(list@, kind, joined@, b as int)
                    &&& best_distance == distance(centre, list@[b as int].centre)
                    &&& forall|k: int|
                        0 <= k < j && #[trigger] waiting(list@, kind, joined@, k) ==> best_distance <= distance(
                            centre,
                            list@[k].centre,
                        )
                    &&& forall|k: int|
                        0 <= k < b && #[trigger] waiting(list@, kind, joined@, k) ==> best_distance < distance(
                            centre,
                            list@[k].centre,
                        )
                },
            },
        decreases list@.len() - j,
    {
        let b = &list[j];
        if b.is_built() && wants_exec(kind, b) && !joined_has(joined, b.id) {
            let d = centre.distance_to(b.centre);
            let nearer = match best {
                None => true,
                Some(_) => d.0 < best_distance,
            };
            if nearer {
                best = Some(j);
                best_distance = d.0;
            }
        }
        j = j + 1;
    }
    match best {
        None => None,
        Some(b) => {
            assert(nearest_waiting(list@, kind, joined@, centre, b as int));
            Some((Command::OrderLine { kind, from: centre, to: list[b].centre }, Some(list[b].kind)))
        },
    }
}

} // verus!
