use red_republic_sim::building::{BuildingId, BuildingKind, Buildings};
use red_republic_sim::command::{Command, Done, Refused};
use red_republic_sim::director::{customs_house, plan, Director};
use red_republic_sim::geology::{Deposit, DepositId, Geology, Layer, Mineral};
use red_republic_sim::resource::Resource;
use red_republic_sim::roadworks::Grade;
use red_republic_sim::trade::{Market, TradeAction};
use red_republic_sim::units::{Metres, Point, Tonnes};
use red_republic_sim::utility::Utility;

fn at(x: i64, y: i64) -> Point {
    Point::new(Metres(x), Metres(y))
}

const CENTRE: (i64, i64) = (5_000, 5_000);

fn centre() -> Point {
    at(CENTRE.0, CENTRE.1)
}

/// Finished buildings, each staffed as asked, laid out along a row.
fn town(kinds: &[(BuildingKind, i64, i64, u32)]) -> Buildings {
    let mut b = Buildings::new();
    let mut geology = Geology::new();
    for (id, mineral) in [(1, Mineral::Coal), (2, Mineral::Gravel)] {
        geology.insert(Deposit::new(
            DepositId(id),
            mineral,
            at(0, 0),
            Metres(50_000),
            Metres(40),
            vec![Layer::new(Metres(20), Tonnes(500_000))],
        ));
    }
    for &(kind, x, y, staff) in kinds {
        let id = b.place_built(kind, at(x, y), true, &geology).expect("open ground");
        b.get_mut(id).unwrap().staff = staff;
    }
    b
}

fn refused() -> Result<Done, Refused> {
    Err(Refused::NotAWorkplace)
}

#[test]
fn the_plan_opens_with_an_office_and_a_depot() {
    let p = plan();
    assert_eq!(p.len(), 19);
    assert_eq!(p[0], BuildingKind::ConstructionOffice);
    assert_eq!(p[1], BuildingKind::MotorDepot);
    assert_eq!(p[6], BuildingKind::Customs);
    assert_eq!(p[18], BuildingKind::School);
}

#[test]
fn the_first_building_is_contracted_around_the_centre() {
    let mut d = Director::new(centre());
    let empty = Buildings::new();
    assert_eq!(
        d.build_next(&empty, None, None),
        Some((BuildingKind::ConstructionOffice, centre()))
    );
    let order = d.site_found(&empty, BuildingKind::ConstructionOffice, Some(at(5_100, 5_000)));
    let order = order.expect("a site was found");
    assert_eq!(
        order,
        Command::ContractBuild {
            kind: BuildingKind::ConstructionOffice,
            at: at(5_100, 5_000),
            market: Market::East
        }
    );
    d.build_heard(&order, &Ok(Done::Commissioned(BuildingId(1))));
    assert_eq!(d.said(), ["contracting a Construction Office".to_string()]);
    // The plan has moved on.
    assert_eq!(
        d.build_next(&empty, None, None),
        Some((BuildingKind::MotorDepot, centre()))
    );
}

#[test]
fn own_crews_build_once_the_materials_chain_works() {
    let mut d = Director::new(centre());
    let staffed = town(&[
        (BuildingKind::ConstructionOffice, 0, 0, 16),
        (BuildingKind::GravelQuarry, 1_000, 0, 5),
        (BuildingKind::Sawmill, 2_000, 0, 6),
        (BuildingKind::Brickworks, 3_000, 0, 6),
    ]);
    let order = d.site_found(&staffed, BuildingKind::MotorDepot, Some(at(9, 9)));
    assert_eq!(order, Some(Command::Place { kind: BuildingKind::MotorDepot, at: at(9, 9) }));

    // An idle brickworks is not a working chain.
    let idle = town(&[
        (BuildingKind::ConstructionOffice, 0, 0, 16),
        (BuildingKind::GravelQuarry, 1_000, 0, 5),
        (BuildingKind::Sawmill, 2_000, 0, 6),
        (BuildingKind::Brickworks, 3_000, 0, 0),
    ]);
    let order = d.site_found(&idle, BuildingKind::MotorDepot, Some(at(9, 9)));
    assert_eq!(
        order,
        Some(Command::ContractBuild { kind: BuildingKind::MotorDepot, at: at(9, 9), market: Market::East })
    );
}

#[test]
fn two_sites_going_up_hold_the_plan() {
    let mut d = Director::new(centre());
    let mut b = Buildings::new();
    let geology = Geology::new();
    b.place(BuildingKind::House, at(0, 0), true, &geology).unwrap();
    assert!(d.build_next(&b, None, None).is_some());
    b.place(BuildingKind::House, at(100, 0), true, &geology).unwrap();
    assert_eq!(d.build_next(&b, None, None), None);
}

#[test]
fn a_step_refused_three_times_running_is_given_up() {
    let mut d = Director::new(centre());
    let empty = Buildings::new();
    let order = Command::ContractBuild {
        kind: BuildingKind::ConstructionOffice,
        at: centre(),
        market: Market::East,
    };
    d.build_heard(&order, &refused());
    d.build_heard(&order, &refused());
    assert_eq!(
        d.build_next(&empty, None, None),
        Some((BuildingKind::ConstructionOffice, centre()))
    );
    d.build_heard(&order, &refused());
    assert_eq!(
        d.build_next(&empty, None, None),
        Some((BuildingKind::MotorDepot, centre()))
    );
    // The same refusal is said once, however often it happens.
    assert_eq!(
        d.said(),
        ["cannot start a Construction Office: nobody works there, so there is no shift to set".to_string()]
    );
}

#[test]
fn nowhere_to_build_moves_the_plan_on() {
    let mut d = Director::new(centre());
    let empty = Buildings::new();
    assert_eq!(d.site_found(&empty, BuildingKind::ConstructionOffice, None), None);
    assert_eq!(d.said(), ["nowhere within reach takes a Construction Office".to_string()]);
    assert_eq!(
        d.build_next(&empty, None, None),
        Some((BuildingKind::MotorDepot, centre()))
    );
}

#[test]
fn a_customs_house_goes_to_an_eastern_post_first() {
    let mut d = Director::new(centre());
    let empty = Buildings::new();
    // Walk the plan up to the customs house.
    for _ in 0..6 {
        let (kind, around) = d.build_next(&empty, None, None).unwrap();
        let order = d.site_found(&empty, kind, Some(around)).unwrap();
        d.build_heard(&order, &Ok(Done::Nothing));
    }
    let east = at(0, 5_000);
    let west = at(9_000, 5_000);
    assert_eq!(
        d.build_next(&empty, Some(east), Some(west)),
        Some((BuildingKind::Customs, east))
    );
    // With no Eastern post it settles for any, and says so.
    assert_eq!(
        d.build_next(&empty, None, Some(west)),
        Some((BuildingKind::Customs, west))
    );
    assert!(d
        .said()
        .contains(&"no Eastern post in reach \u{2014} this posting must earn dollars first".to_string()));
    // With no post at all the step is skipped.
    assert_eq!(d.build_next(&empty, None, None), None);
    assert!(d.said().contains(&"this republic has no frontier post at all".to_string()));
    assert_eq!(
        d.build_next(&empty, None, None),
        Some((BuildingKind::GravelQuarry, centre()))
    );
}

#[test]
fn builders_are_hired_once_for_the_first_finished_office() {
    let mut d = Director::new(centre());
    assert_eq!(d.hire_order(&Buildings::new()), None);
    let b = town(&[(BuildingKind::ConstructionOffice, 0, 0, 0)]);
    let order = d.hire_order(&b).expect("an office stands");
    assert_eq!(
        order,
        Command::HireForeign { market: Market::East, office: BuildingId(1), heads: 20 }
    );
    d.hire_heard(&refused());
    assert!(d.hire_order(&b).is_some());
    d.hire_heard(&Ok(Done::Nothing));
    assert_eq!(d.hire_order(&b), None);
    assert_eq!(
        d.said(),
        [
            "cannot hire abroad: nobody works there, so there is no shift to set".to_string(),
            "hired twenty builders from the Eastern Bloc".to_string(),
        ]
    );
}

#[test]
fn the_opening_imports_are_set_once_and_only_when_all_are_taken() {
    let mut d = Director::new(centre());
    let orders = d.imports_order(Market::West);
    assert_eq!(orders.len(), 6);
    assert_eq!(
        orders[1],
        Command::AddTradeRule {
            resource: Resource::Coal,
            market: Market::West,
            action: TradeAction::Buy { up_to: Tonnes(200) }
        }
    );
    d.imports_heard(Market::West, &[Ok(Done::Nothing), refused()]);
    assert_eq!(d.imports_order(Market::West).len(), 6);
    d.imports_heard(Market::West, &[Ok(Done::Nothing), Ok(Done::Nothing)]);
    assert!(d.imports_order(Market::West).is_empty());
    assert_eq!(d.said(), ["buying coal, fuel and machinery from the West".to_string()]);
}

#[test]
fn coal_is_sold_only_once_a_mine_is_cutting_it() {
    let mut d = Director::new(centre());
    let idle = town(&[(BuildingKind::CoalMine, 0, 0, 0)]);
    assert_eq!(d.sale_order(&idle, Market::East), None);
    let working = town(&[(BuildingKind::CoalMine, 0, 0, 30)]);
    assert_eq!(
        d.sale_order(&working, Market::East),
        Some(Command::AddTradeRule {
            resource: Resource::Coal,
            market: Market::East,
            action: TradeAction::Sell
        })
    );
    d.sale_heard(Market::East, &Ok(Done::Nothing));
    assert_eq!(d.sale_order(&working, Market::East), None);
    assert_eq!(d.said(), ["selling coal to the Eastern bloc".to_string()]);
}

#[test]
fn a_dirt_track_is_ordered_to_the_customs_house() {
    let mut d = Director::new(centre());
    let b = town(&[(BuildingKind::Customs, 1_000, 5_000, 8)]);
    let house = customs_house(&b).expect("a customs house stands");
    assert_eq!(house, at(1_000, 5_000));
    assert_eq!(
        d.track_order(house),
        Some(Command::OrderRoad { from: centre(), to: house, grade: Grade::Dirt })
    );
    d.track_heard(house, &Ok(Done::Nothing));
    assert_eq!(d.track_order(house), None);
    assert_eq!(d.said(), ["ordered a dirt track to the crossing: 4.0 km".to_string()]);
}

#[test]
fn the_grid_runs_from_the_works_to_the_hub_and_then_out_nearest_first() {
    let d = Director::new(centre());
    let b = town(&[
        (BuildingKind::Apartment, 9_000, 5_000, 0),
        (BuildingKind::PowerPlant, 2_000, 5_000, 15),
        (BuildingKind::Apartment, 5_500, 5_000, 0),
    ]);
    let plant = BuildingId(2);
    // Nothing while a line is going up.
    assert_eq!(d.grid_order(&b, true, &[], &[]), None);
    // The plant to the hub first.
    assert_eq!(
        d.grid_order(&b, false, &[], &[]),
        Some((
            Command::OrderLine { kind: Utility::Power, from: at(2_000, 5_000), to: centre() },
            None
        ))
    );
    // Then out to the nearest block.
    assert_eq!(
        d.grid_order(&b, false, &[plant], &[]),
        Some((
            Command::OrderLine { kind: Utility::Power, from: centre(), to: at(5_500, 5_000) },
            Some(BuildingKind::Apartment)
        ))
    );
    // Everything on the grid and no boiler house: nothing to do.
    assert_eq!(d.grid_order(&b, false, &[plant, BuildingId(1), BuildingId(3)], &[]), None);
}

#[test]
fn heat_follows_power() {
    let d = Director::new(centre());
    let b = town(&[
        (BuildingKind::PowerPlant, 2_000, 5_000, 15),
        (BuildingKind::HeatingPlant, 7_000, 5_000, 8),
    ]);
    // The boiler house draws power, so it waits for the grid first.
    assert_eq!(
        d.grid_order(&b, false, &[BuildingId(1)], &[]),
        Some((
            Command::OrderLine { kind: Utility::Power, from: centre(), to: at(7_000, 5_000) },
            Some(BuildingKind::HeatingPlant)
        ))
    );
    assert_eq!(
        d.grid_order(&b, false, &[BuildingId(1), BuildingId(2)], &[]),
        Some((
            Command::OrderLine { kind: Utility::Heat, from: at(7_000, 5_000), to: centre() },
            None
        ))
    );
}

#[test]
fn what_the_grid_crews_were_told_is_said() {
    let mut d = Director::new(centre());
    d.grid_heard(Utility::Power, None, &Ok(Done::Nothing));
    d.grid_heard(Utility::Heat, Some(BuildingKind::Apartment), &refused());
    assert_eq!(
        d.said(),
        [
            "laying the power line in from the works".to_string(),
            "no heat main to the Apartment Block: nobody works there, so there is no shift to set".to_string(),
        ]
    );
}
