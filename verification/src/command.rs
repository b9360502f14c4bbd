//! What the player asks for, and what comes back.
//!
//! A command is what a person asked for, not what the simulation changed, and
//! a refused command says why in words a panel can print.

use crate::building::{placement_message, BuildingId, BuildingKind, PlacementError};
use crate::contract::ContractId;
use crate::fleet::Destination;
use crate::loan::{loan_message, LoanError};
use crate::resource::Resource;
use crate::roadworks::{road_message, Grade, RoadError, RoadSiteId};
use crate::text::{decimal, push_decimal, push_signed_units, push_units, signed_units, whole_units};
use crate::trade::{market_name, CrossingId, Market, TradeAction, TradeRule};
use crate::units::{Point, Tonnes};
use crate::utility::{LineSiteId, Utility};
use vstd::prelude::*;
use vstd::string::StringExecFns;

verus! {

/// Which buildings a working-hours exception covers.
///
/// The national standard is deliberately absent: it is what these fall back
/// to, so it is the one rule with nothing above it and the one that cannot be
/// cleared.
#[derive(Debug, Clone, Copy, PartialEq, Eq, Structural)]
pub enum ShiftScope {
    /// Every building of a kind, including ones not yet built.
    Kind(BuildingKind),
    /// One building, beating any rule about its kind.
    Building(BuildingId),
}

/// What an accepted command produced.
#[derive(Debug, Clone, Copy, PartialEq, Eq, Structural)]
pub enum Done {
    /// It was carried out and there is nothing to hand back.
    Nothing,
    /// A building was commissioned.
    Commissioned(BuildingId),
    /// A road was ordered.
    Ordered(RoadSiteId),
    /// A line was ordered.
    Strung(LineSiteId),
}

/// One thing the player asked the republic to do.
///
/// Every variant is a decision a person makes. Consequences are the
/// simulation's work and never appear here.
///
/// Money is in hundredths of the bloc's own unit, as the treasury holds it,
/// and a working day in whole hours.
#[derive(Debug, Clone, PartialEq, Eq)]
pub enum Command {
    /// Commission a building. It goes up as a site and is built by the crew.
    Place { kind: BuildingKind, at: Point },
    /// Pay a foreign firm to put a building up, instead of building it
    /// yourself. It bills the treasury daily in `market`'s own currency.
    ContractBuild { kind: BuildingKind, at: Point, market: Market },
    /// Pull a building down.
    Demolish { building: BuildingId },
    /// Order a road. It is a site until the crew and the gravel reach it.
    OrderRoad { from: Point, to: Point, grade: Grade },
    /// Order a power line or a heat main.
    OrderLine { kind: Utility, from: Point, to: Point },
    /// Call a building crew off a site.
    RecallCrew { site: Destination },
    /// Say where sites buy materials the republic has not made: `site` names
    /// one site or `None` for the republic's default, and `crossing` names the
    /// post to import through or `None` to import nothing.
    SetImportPolicy { site: Option<Destination>, crossing: Option<CrossingId> },
    /// Put a site back under the republic's default policy.
    ClearImportPolicy { site: Destination },
    /// Tell a terminal or a distribution office what to keep on hand. Zero
    /// tonnes cancels the order.
    SetStandingOrder { building: BuildingId, resource: Resource, tonnes: Tonnes },
    /// Hire builders from a bloc, for one Construction Office.
    HireForeign { market: Market, office: BuildingId, heads: u32 },
    /// Take a tender the Foreign Trade Directorate has offered.
    AcceptContract { contract: ContractId },
    /// Turn one down. It leaves the table immediately.
    DeclineContract { contract: ContractId },
    /// Add a standing instruction to the customs houses.
    AddTradeRule { resource: Resource, market: Market, action: TradeAction },
    /// Withdraw one.
    RemoveTradeRule { index: u32 },
    /// Take an advance from a bloc; `tier` indexes its ladder.
    TakeLoan { market: Market, tier: u32 },
    /// Pay some of an advance back. More than is owed pays off what is owed.
    RepayLoan { market: Market, amount: u64 },
    /// Move one up or down the running order.
    MoveTradeRule { from: u32, to: u32 },
    /// Set the national working day, in hours per shift.
    SetNationalShiftHours { hours: u32 },
    /// Set, or with `None` clear, an exception to the national working day.
    SetShiftHours { scope: ShiftScope, hours: Option<u32> },
    /// How many crews a workplace runs. Zero mothballs the place.
    SetShifts { building: BuildingId, shifts: u8 },
    /// Name the republic.
    NameRepublic { name: String },
}

/// Why a command was refused, in words a panel can print.
///
/// A refusal carries the numbers that make it actionable: what a thing costs
/// against what the treasury holds.
#[derive(Debug, Clone, Copy, PartialEq, Eq)]
pub enum Refused {
    /// The ground, the geology or the border said no.
    Placement(PlacementError),
    /// The road could not be ordered.
    Road(RoadError),
    /// There is no building with that id; it may have been demolished.
    NoSuchBuilding(BuildingId),
    /// There is no offer with that id. Includes one already accepted, so
    /// accepting twice is not a second success.
    NoSuchOffer(ContractId),
    /// There is no trade rule at that position.
    NoSuchRule { index: u32, rules: u32 },
    /// The advance could not be taken or repaid.
    Loan(LoanError),
    /// A site with builders standing on it. Recall them first.
    CrewOnSite,
    /// A Construction Office with crews still out at sites.
    CrewsOut,
    /// Nobody is working that site, so there is nobody to call off it.
    NoCrewThere,
    /// There is no frontier post with that number.
    NoSuchCrossing(CrossingId),
    /// That site had no instruction of its own to clear.
    NoSuchPolicy,
    /// Builders are hired to a Construction Office, and that is not one.
    NotAConstructionOffice,
    /// The treasury cannot cover the placement fee in that bloc's currency:
    /// both sums in hundredths, and what is held may be below zero.
    CannotAffordHiring { needed: u64, held: i64 },
    /// That bloc holds no frontier post, so its workers have nowhere to arrive.
    NoPostOfThatBloc(Market),
    /// Hiring nobody.
    NobodyToHire,
    /// A standing order somewhere that does not hold goods to order.
    NotAStore,
    /// A standing order for goods of a shape the place will not take.
    WillNotHold { place: &'static str, goods: &'static str },
    /// A standing order larger than the place could hold.
    OverCapacity { asked: Tonnes, holds: Tonnes },
    /// A republic named nothing at all.
    Nameless,
    /// A name longer than the most that will fit.
    NameTooLong { asked: usize, limit: usize },
    /// A working day outside what the republic will roster.
    ShiftOutOfRange { asked: u32, min: u32, max: u32 },
    /// More crews than a building may run.
    TooManyShifts { asked: u8, limit: u8 },
    /// A roster set on something with no jobs to roster.
    NotAWorkplace,
    /// That building had no working-hours exception of its own to clear.
    NoSuchShiftRule,
}

/// What a refusal says.
pub open spec fn refused_message(why: Refused) -> Seq<char> {
    match why {
        Refused::Placement(p) => placement_message(p),
        Refused::Road(r) => road_message(r),
        Refused::NoSuchBuilding(id) => "there is no building "@ + decimal(id.0 as nat),
        Refused::NoSuchOffer(_) => "that tender is no longer on the table"@,
        Refused::Loan(l) => loan_message(l),
        Refused::CrewOnSite => "a crew is still working this site"@,
        Refused::CrewsOut => "this office still has crews out at sites; bring them in first"@,
        Refused::NoCrewThere => "nobody is working that site"@,
        Refused::NoSuchCrossing(id) => "there is no frontier post "@ + decimal(id.0 as nat),
        Refused::NoSuchPolicy => "this site already follows the republic's import policy"@,
        Refused::NotAConstructionOffice => "builders are hired to a Construction Office"@,
        Refused::CannotAffordHiring { needed, held } => "placing them costs "@ + decimal(
            whole_units(needed as nat),
        ) + " and the treasury holds "@ + signed_units(held as int),
        Refused::NoPostOfThatBloc(market) => "the "@ + market_name(market)
            + " holds no frontier post here, so its workers have nowhere to arrive"@,
        Refused::NotAStore => "only a terminal, a store or a distribution office keeps goods to order"@,
        Refused::WillNotHold { place, goods } => goods@ + " will not go in a "@ + place@,
        Refused::OverCapacity { asked, holds } => "asked for "@ + decimal(asked.0 as nat)
            + " t where only "@ + decimal(holds.0 as nat) + " t will fit"@,
        Refused::NobodyToHire => "no workers were asked for"@,
        Refused::Nameless => "a republic needs a name"@,
        Refused::NameTooLong { asked, limit } => "that name is "@ + decimal(asked as nat)
            + " characters and "@ + decimal(limit as nat) + " is the most that will fit"@,
        Refused::NoSuchRule { index, rules } => if rules == 0 {
            "there are no trade rules to change"@
        } else if rules == 1 {
            "there is only one trade rule, and it is not "@ + decimal(index as nat)
        } else {
            "there is no trade rule "@ + decimal(index as nat) + "; there are "@ + decimal(rules as nat)
        },
        Refused::ShiftOutOfRange { asked, min, max } => "a shift of "@ + decimal(asked as nat)
            + " hours is not one the republic will roster; between "@ + decimal(min as nat)
            + " and "@ + decimal(max as nat),
        Refused::TooManyShifts { asked, limit } => decimal(asked as nat) + " shifts is more than the "@
            + decimal(limit as nat) + " that fit in a day"@,
        Refused::NotAWorkplace => "nobody works there, so there is no shift to set"@,
        Refused::NoSuchShiftRule => "that building keeps the standard working day already"@,
    }
}

/// A string holding `text`.
fn said(text: &str) -> (s: String)
    ensures
        s@ == text@,
{
    String::from_str(text)
}

impl Refused {
    /// The refusal in words a panel can print: what a toast says and what a
    /// greyed-out button explains itself with.
    pub fn message(&self) -> (s: String)
        ensures
            s@ == refused_message(*self),
    {
        match *self {
            Refused::Placement(why) => why.message(),
            Refused::Road(why) => why.message(),
            Refused::NoSuchBuilding(id) => {
                let mut s = said("there is no building ");
                push_decimal(&mut s, id.0 as u64);
                s
            },
            Refused::NoSuchOffer(_) => said("that tender is no longer on the table"),
            Refused::Loan(why) => said(why.message()),
            Refused::CrewOnSite => said("a crew is still working this site"),
            Refused::CrewsOut => said("this office still has crews out at sites; bring them in first"),
            Refused::NoCrewThere => said("nobody is working that site"),
            Refused::NoSuchCrossing(id) => {
                let mut s = said("there is no frontier post ");
                push_decimal(&mut s, id.0 as u64);
                s
            },
            Refused::NoSuchPolicy => said("this site already follows the republic's import policy"),
            Refused::NotAConstructionOffice => said("builders are hired to a Construction Office"),
            Refused::CannotAffordHiring { needed, held } => {
                let mut s = said("placing them costs ");
                push_units(&mut s, needed);
                s.append(" and the treasury holds ");
                push_signed_units(&mut s, held);
                s
            },
            Refused::NoPostOfThatBloc(market) => {
                let mut s = said("the ");
                s.append(market.name());
                s.append(" holds no frontier post here, so its workers have nowhere to arrive");
                s
            },
            Refused::NotAStore => said(
                "only a terminal, a store or a distribution office keeps goods to order",
            ),
            Refused::WillNotHold { place, goods } => {
                let mut s = said(goods);
                s.append(" will not go in a ");
                s.append(place);
                s
            },
            Refused::OverCapacity { asked, holds } => {
                let mut s = said("asked for ");
                push_decimal(&mut s, asked.0);
                s.append(" t where only ");
                push_decimal(&mut s, holds.0);
                s.append(" t will fit");
                s
            },
            Refused::NobodyToHire => said("no workers were asked for"),
            Refused::Nameless => said("a republic needs a name"),
            Refused::NameTooLong { asked, limit } => {
                let mut s = said("that name is ");
                push_decimal(&mut s, asked as u64);
                s.append(" characters and ");
                push_decimal(&mut s, limit as u64);
                s.append(" is the most that will fit");
                s
            },
            Refused::NoSuchRule { index, rules } => {
                if rules == 0 {
                    said("there are no trade rules to change")
                } else if rules == 1 {
                    let mut s = said("there is only one trade rule, and it is not ");
                    push_decimal(&mut s, index as u64);
                    s
                } else {
                    let mut s = said("there is no trade rule ");
                    push_decimal(&mut s, index as u64);
                    s.append("; there are ");
                    push_decimal(&mut s, rules as u64);
                    s
                }
            },
            Refused::ShiftOutOfRange { asked, min, max } => {
                let mut s = said("a shift of ");
                push_decimal(&mut s, asked as u64);
                s.append(" hours is not one the republic will roster; between ");
                push_decimal(&mut s, min as u64);
                s.append(" and ");
                push_decimal(&mut s, max as u64);
                s
            },
            Refused::TooManyShifts { asked, limit } => {
                let mut s = String::new();
                push_decimal(&mut s, asked as u64);
                s.append(" shifts is more than the ");
                push_decimal(&mut s, limit as u64);
                s.append(" that fit in a day");
                s
            },
            Refused::NotAWorkplace => said("nobody works there, so there is no shift to set"),
            Refused::NoSuchShiftRule => said("that building keeps the standard working day already"),
        }
    }
}

impl From<PlacementError> for Refused {
    fn from(why: PlacementError) -> (r: Refused) {
        Refused::Placement(why)
    }
}

impl vstd::std_specs::convert::FromSpecImpl<PlacementError> for Refused {
    open spec fn obeys_from_spec() -> bool {
        true
    }

    open spec fn from_spec(why: PlacementError) -> Refused {
        Refused::Placement(why)
    }
}

impl From<RoadError> for Refused {
    fn from(why: RoadError) -> (r: Refused) {
        Refused::Road(why)
    }
}

impl vstd::std_specs::convert::FromSpecImpl<RoadError> for Refused {
    open spec fn obeys_from_spec() -> bool {
        true
    }

    open spec fn from_spec(why: RoadError) -> Refused {
        Refused::Road(why)
    }
}

impl From<LoanError> for Refused {
    fn from(why: LoanError) -> (r: Refused) {
        Refused::Loan(why)
    }
}

impl vstd::std_specs::convert::FromSpecImpl<LoanError> for Refused {
    open spec fn obeys_from_spec() -> bool {
        true
    }

    open spec fn from_spec(why: LoanError) -> Refused {
        Refused::Loan(why)
    }
}

/// One command, and when it was carried out.
#[derive(Debug, Clone, PartialEq, Eq)]
pub struct Issued {
    /// The tick the republic was on when this was done.
    pub tick: u64,
    pub command: Command,
}

/// The commands carried out on `tick`, in the order they were carried out.
pub open spec fn commands_on(entries: Seq<Issued>, tick: u64) -> Seq<Command>
    decreases entries.len(),
{
    if entries.len() == 0 {
        Seq::empty()
    } else {
        let rest = commands_on(entries.drop_last(), tick);
        if entries.last().tick == tick {
            rest.push(entries.last().command)
        } else {
            rest
        }
    }
}

/// Everything the player has actually done, in order.
///
/// Refused commands are not recorded: a refusal changes nothing, so replaying
/// it would be replaying a no-op. What the journal holds is exactly the set of
/// things that moved the world.
#[derive(Debug, Clone, PartialEq, Eq)]
pub struct Journal {
    entries: Vec<Issued>,
}

impl Journal {
    /// What has been carried out, oldest first.
    pub closed spec fn entries_spec(&self) -> Seq<Issued> {
        self.entries@
    }

    /// An empty journal.
    pub fn new() -> (j: Journal)
        ensures
            j.entries_spec() == Seq::<Issued>::empty(),
    {
        Journal { entries: Vec::new() }
    }

    /// Everything carried out, oldest first.
    pub fn entries(&self) -> (r: &[Issued])
        ensures
            r@ == self.entries_spec(),
    {
        self.entries.as_slice()
    }

    pub fn len(&self) -> (n: usize)
        ensures
            n == self.entries_spec().len(),
    {
        self.entries.len()
    }

    pub fn is_empty(&self) -> (r: bool)
        ensures
            r == (self.entries_spec().len() == 0),
    {
        self.entries.len() == 0
    }

    /// Everything carried out on a given tick, in the order it was carried out.
    pub fn on_tick(&self, tick: u64) -> (r: Vec<&Command>)
        ensures
            r@.len() == commands_on(self.entries_spec(), tick).len(),
            forall|i: int| 0 <= i < r@.len() ==> *r@[i] == commands_on(self.entries_spec(), tick)[i],
    {
        let mut r: Vec<&Command> = Vec::new();
        let mut i: usize = 0;
        while i < self.entries.len()
            invariant
                i <= self.entries@.len(),
                r@.len() == commands_on(self.entries@.take(i as int), tick).len(),
                forall|k: int| 0 <= k < r@.len() ==> *r@[k] == commands_on(self.entries@.take(i as int), tick)[k],
            decreases self.entries@.len() - i,
        {
            let entry = &self.entries[i];
            proof {
                assert(self.entries@.take(i + 1).drop_last() =~= self.entries@.take(i as int));
                assert(self.entries@.take(i + 1).last() == self.entries@[i as int]);
            }
            if entry.tick == tick {
                r.push(&entry.command);
            }
            i = i + 1;
        }
        proof {
            assert(self.entries@.take(i as int) =~= self.entries@);
        }
        r
    }

    /// The last tick anything happened on, if anything has.
    pub fn last_tick(&self) -> (r: Option<u64>)
        ensures
            r == (if self.entries_spec().len() == 0 {
                None
            } else {
                Some(self.entries_spec().last().tick)
            }),
    {
        if self.entries.len() == 0 {
            None
        } else {
            Some(self.entries[self.entries.len() - 1].tick)
        }
    }

    /// Write down a command that was carried out.
    pub fn record(&mut self, tick: u64, command: Command)
        ensures
            final(self).entries_spec() == old(self).entries_spec().push(Issued { tick, command }),
    {
        self.entries.push(Issued { tick, command });
    }
}

/// A policy edit is one of these three.
pub open spec fn edits_rules(command: Command) -> bool {
    ||| command is AddTradeRule
    ||| command is RemoveTradeRule
    ||| command is MoveTradeRule
}

/// A trade-policy edit applied to a running order of rules: the new order, or
/// why there is none.
pub open spec fn rules_after(rules: Seq<TradeRule>, command: Command) -> Result<Seq<TradeRule>, Refused> {
    let count = rules.len() as u32;
    match command {
        Command::AddTradeRule { resource, market, action } => Ok(
            rules.push(TradeRule { resource, market, action }),
        ),
        Command::RemoveTradeRule { index } => if index < rules.len() {
            Ok(rules.remove(index as int))
        } else {
            Err(Refused::NoSuchRule { index, rules: count })
        },
        Command::MoveTradeRule { from, to } => if from >= rules.len() {
            Err(Refused::NoSuchRule { index: from, rules: count })
        } else if to >= rules.len() {
            Err(Refused::NoSuchRule { index: to, rules: count })
        } else {
            Ok(rules.remove(from as int).insert(to as int, rules[from as int]))
        },
        _ => Ok(rules),
    }
}

/// Apply a policy edit to a rule list, or say why not.
///
/// Pure list surgery over the player's running order: adding goes on the end,
/// removing closes the gap, and moving takes a rule out and puts it back at
/// its new position. A position past the end is refused and changes nothing.
pub fn edit_rules(rules: &mut Vec<TradeRule>, command: &Command) -> (r: Result<Done, Refused>)
    requires
        edits_rules(*command),
    ensures
        match rules_after(old(rules)@, *command) {
            Ok(after) => r == Ok::<Done, Refused>(Done::Nothing) && final(rules)@ == after,
            Err(why) => r == Err::<Done, Refused>(why) && final(rules)@ == old(rules)@,
        },
{
    let count = rules.len() as u32;
    match command {
        Command::AddTradeRule { resource, market, action } => {
            rules.push(TradeRule { resource: *resource, market: *market, action: *action });
            Ok(Done::Nothing)
        },
        Command::RemoveTradeRule { index } => {
            if (*index as usize) < rules.len() {
                rules.remove(*index as usize);
                Ok(Done::Nothing)
            } else {
                Err(Refused::NoSuchRule { index: *index, rules: count })
            }
        },
        Command::MoveTradeRule { from, to } => {
            if (*from as usize) >= rules.len() {
                Err(Refused::NoSuchRule { index: *from, rules: count })
            } else if (*to as usize) >= rules.len() {
                Err(Refused::NoSuchRule { index: *to, rules: count })
            } else {
                let rule = rules.remove(*from as usize);
                rules.insert(*to as usize, rule);
                Ok(Done::Nothing)
            }
        },
        _ => Ok(Done::Nothing),
    }
}

/// Moving a rule changes the running order and nothing else: the same rules
/// are there afterwards, each as many times as before, and the moved rule is
/// at the position it was sent to.
pub proof fn moving_a_rule_only_reorders(rules: Seq<TradeRule>, from: u32, to: u32)
    requires
        from < rules.len(),
        to < rules.len(),
    ensures
        rules_after(rules, Command::MoveTradeRule { from, to }) is Ok,
        rules_after(rules, Command::MoveTradeRule { from, to })->Ok_0.len() == rules.len(),
        rules_after(rules, Command::MoveTradeRule { from, to })->Ok_0.to_multiset() == rules.to_multiset(),
        rules_after(rules, Command::MoveTradeRule { from, to })->Ok_0[to as int] == rules[from as int],
{
    let rest = rules.remove(from as int);
    let after = rest.insert(to as int, rules[from as int]);
    assert(rules_after(rules, Command::MoveTradeRule { from, to }) == Ok::<Seq<TradeRule>, Refused>(after));
    vstd::seq_lib::to_multiset_remove(rules, from as int);
    vstd::seq_lib::to_multiset_insert(rest, to as int, rules[from as int]);
    vstd::seq_lib::to_multiset_contains(rules, rules[from as int]);
    assert(rules.to_multiset().count(rules[from as int]) > 0) by {
        broadcast use vstd::multiset::group_multiset_axioms;
    }
    assert(after.to_multiset() =~= rules.to_multiset()) by {
        broadcast use vstd::multiset::group_multiset_axioms;
    }
}

/// A rule added and then withdrawn from the end of the order leaves the order
/// as it was.
pub proof fn withdrawing_the_rule_just_added_restores_the_order(
    rules: Seq<TradeRule>,
    resource: Resource,
    market: Market,
    action: TradeAction,
)
    requires
        rules.len() < u32::MAX,
    ensures
        rules_after(rules, Command::AddTradeRule { resource, market, action }) is Ok,
        rules_after(
            rules_after(rules, Command::AddTradeRule { resource, market, action })->Ok_0,
            Command::RemoveTradeRule { index: rules.len() as u32 },
        ) == Ok::<Seq<TradeRule>, Refused>(rules),
{
    let added = rules.push(TradeRule { resource, market, action });
    assert(added.remove(rules.len() as int) =~= rules);
}

} // verus!
