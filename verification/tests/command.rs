use red_republic_sim::building::{BuildingId, BuildingKind, PlacementError};
use red_republic_sim::command::{edit_rules, Command, Done, Journal, Refused, ShiftScope};
use red_republic_sim::contract::ContractId;
use red_republic_sim::geology::Mineral;
use red_republic_sim::loan::LoanError;
use red_republic_sim::resource::Resource;
use red_republic_sim::roadworks::{Grade, RoadError};
use red_republic_sim::text::{push_decimal, push_signed_units, push_units};
use red_republic_sim::trade::{CrossingId, Market, TradeAction, TradeRule};
use red_republic_sim::units::{Metres, Point, Tonnes};

fn add(resource: Resource) -> Command {
    Command::AddTradeRule {
        resource,
        market: Market::East,
        action: TradeAction::Sell,
    }
}

fn rule(resource: Resource) -> TradeRule {
    TradeRule {
        resource,
        market: Market::East,
        action: TradeAction::Sell,
    }
}

fn three_rules() -> Vec<TradeRule> {
    let mut rules = Vec::new();
    for r in [Resource::Coal, Resource::Steel, Resource::Food] {
        assert_eq!(edit_rules(&mut rules, &add(r)), Ok(Done::Nothing));
    }
    rules
}

#[test]
fn a_rule_is_added_at_the_end_of_the_order() {
    let rules = three_rules();
    assert_eq!(
        rules,
        vec![rule(Resource::Coal), rule(Resource::Steel), rule(Resource::Food)]
    );
}

#[test]
fn removing_a_rule_closes_the_gap() {
    let mut rules = three_rules();
    assert_eq!(
        edit_rules(&mut rules, &Command::RemoveTradeRule { index: 1 }),
        Ok(Done::Nothing)
    );
    assert_eq!(rules, vec![rule(Resource::Coal), rule(Resource::Food)]);
}

#[test]
fn moving_a_rule_puts_it_where_it_was_sent() {
    let mut rules = three_rules();
    assert_eq!(
        edit_rules(&mut rules, &Command::MoveTradeRule { from: 2, to: 0 }),
        Ok(Done::Nothing)
    );
    assert_eq!(
        rules,
        vec![rule(Resource::Food), rule(Resource::Coal), rule(Resource::Steel)]
    );
    assert_eq!(
        edit_rules(&mut rules, &Command::MoveTradeRule { from: 0, to: 2 }),
        Ok(Done::Nothing)
    );
    assert_eq!(
        rules,
        vec![rule(Resource::Coal), rule(Resource::Steel), rule(Resource::Food)]
    );
}

#[test]
fn a_position_past_the_end_is_refused_and_changes_nothing() {
    let mut rules = three_rules();
    let before = rules.clone();
    assert_eq!(
        edit_rules(&mut rules, &Command::RemoveTradeRule { index: 3 }),
        Err(Refused::NoSuchRule { index: 3, rules: 3 })
    );
    assert_eq!(
        edit_rules(&mut rules, &Command::MoveTradeRule { from: 5, to: 0 }),
        Err(Refused::NoSuchRule { index: 5, rules: 3 })
    );
    assert_eq!(
        edit_rules(&mut rules, &Command::MoveTradeRule { from: 0, to: 4 }),
        Err(Refused::NoSuchRule { index: 4, rules: 3 })
    );
    assert_eq!(rules, before);
}

#[test]
fn withdrawing_the_rule_just_added_gives_the_order_back() {
    let mut rules = three_rules();
    let before = rules.clone();
    edit_rules(&mut rules, &add(Resource::Machinery)).unwrap();
    edit_rules(&mut rules, &Command::RemoveTradeRule { index: 3 }).unwrap();
    assert_eq!(rules, before);
}

#[test]
fn the_journal_keeps_what_was_done_in_order() {
    let mut journal = Journal::new();
    assert!(journal.is_empty());
    assert_eq!(journal.last_tick(), None);
    journal.record(3, Command::Demolish { building: BuildingId(1) });
    journal.record(3, Command::NameRepublic { name: "Krasnaya".to_string() });
    journal.record(7, Command::AcceptContract { contract: ContractId(2) });
    assert_eq!(journal.len(), 3);
    assert_eq!(journal.last_tick(), Some(7));
    assert_eq!(journal.entries()[1].tick, 3);

    let on_three = journal.on_tick(3);
    assert_eq!(on_three.len(), 2);
    assert_eq!(*on_three[0], Command::Demolish { building: BuildingId(1) });
    assert_eq!(*on_three[1], Command::NameRepublic { name: "Krasnaya".to_string() });
    assert!(journal.on_tick(4).is_empty());
    assert_eq!(journal.on_tick(7).len(), 1);
}

#[test]
fn a_refusal_says_why_in_words() {
    assert_eq!(
        Refused::NoSuchBuilding(BuildingId(42)).message(),
        "there is no building 42"
    );
    assert_eq!(
        Refused::NoSuchOffer(ContractId(9)).message(),
        "that tender is no longer on the table"
    );
    assert_eq!(
        Refused::CannotAffordHiring { needed: 12_000_050, held: -35_051 }.message(),
        "placing them costs 120000 and the treasury holds -351"
    );
    assert_eq!(
        Refused::NoPostOfThatBloc(Market::West).message(),
        "the Western Bloc holds no frontier post here, so its workers have nowhere to arrive"
    );
    assert_eq!(
        Refused::WillNotHold { place: "Grain Silo", goods: "Steel" }.message(),
        "Steel will not go in a Grain Silo"
    );
    assert_eq!(
        Refused::OverCapacity { asked: Tonnes(900), holds: Tonnes(400) }.message(),
        "asked for 900 t where only 400 t will fit"
    );
    assert_eq!(
        Refused::NameTooLong { asked: 61, limit: 40 }.message(),
        "that name is 61 characters and 40 is the most that will fit"
    );
    assert_eq!(
        Refused::ShiftOutOfRange { asked: 20, min: 4, max: 16 }.message(),
        "a shift of 20 hours is not one the republic will roster; between 4 and 16"
    );
    assert_eq!(
        Refused::TooManyShifts { asked: 4, limit: 3 }.message(),
        "4 shifts is more than the 3 that fit in a day"
    );
    assert_eq!(
        Refused::NoSuchCrossing(CrossingId(0)).message(),
        "there is no frontier post 0"
    );
}

#[test]
fn a_missing_rule_is_explained_by_how_many_there_are() {
    assert_eq!(
        Refused::NoSuchRule { index: 2, rules: 0 }.message(),
        "there are no trade rules to change"
    );
    assert_eq!(
        Refused::NoSuchRule { index: 2, rules: 1 }.message(),
        "there is only one trade rule, and it is not 2"
    );
    assert_eq!(
        Refused::NoSuchRule { index: 7, rules: 5 }.message(),
        "there is no trade rule 7; there are 5"
    );
}

#[test]
fn a_wrapped_refusal_says_what_the_inner_one_says() {
    let placement: Refused = PlacementError::NothingToTap(Mineral::IronOre).into();
    assert_eq!(placement, Refused::Placement(PlacementError::NothingToTap(Mineral::IronOre)));
    assert_eq!(placement.message(), "there is no Iron Ore beneath this ground");
    assert_eq!(
        Refused::from(PlacementError::NotOnTheBorder).message(),
        "a customs house must stand at the national border"
    );
    let road: Refused = RoadError::NoLampsOnThisGrade(Grade::Dirt).into();
    assert_eq!(road.message(), RoadError::NoLampsOnThisGrade(Grade::Dirt).message());
    let loan: Refused = LoanError::Defaulted.into();
    assert_eq!(
        loan.message(),
        "this bloc has been defaulted on and will not advance again"
    );
}

#[test]
fn a_command_is_a_plain_value() {
    let at = Point::new(Metres(100), Metres(-50));
    let a = Command::ContractBuild { kind: BuildingKind::Sawmill, at, market: Market::East };
    assert_eq!(a.clone(), a);
    assert_ne!(
        Command::SetShiftHours { scope: ShiftScope::Kind(BuildingKind::Sawmill), hours: Some(12) },
        Command::SetShiftHours { scope: ShiftScope::Building(BuildingId(3)), hours: Some(12) }
    );
}

#[test]
fn numbers_are_written_in_plain_decimal() {
    let mut s = String::new();
    push_decimal(&mut s, 0);
    s.push(' ');
    push_decimal(&mut s, 10);
    s.push(' ');
    push_decimal(&mut s, u64::MAX);
    s.push(' ');
    push_signed_units(&mut s, i64::MIN);
    s.push(' ');
    push_signed_units(&mut s, 30_549);
    assert_eq!(s, "0 10 18446744073709551615 -92233720368547758 305");
}

#[test]
fn money_is_shown_in_whole_units_with_halves_to_even() {
    let mut s = String::new();
    push_units(&mut s, 250);
    s.push(' ');
    push_units(&mut s, 350);
    s.push(' ');
    push_units(&mut s, 351);
    s.push(' ');
    push_signed_units(&mut s, -30);
    assert_eq!(s, "2 4 4 -0");
}

#[test]
fn the_blocs_and_the_minerals_have_names() {
    assert_eq!(Market::East.name(), "Eastern Bloc");
    assert_eq!(Market::West.name(), "Western Bloc");
    assert_eq!(Mineral::Groundwater.name(), "Groundwater");
    assert_eq!(
        PlacementError::Occupied.message(),
        "something already stands here"
    );
    assert_eq!(
        PlacementError::Unbuildable.message(),
        "the ground here will not take it"
    );
}
