use red_republic_sim::building::{BuildingId, BuildingKind};
use red_republic_sim::shifts::{
    clamp_hours, overwork_cost, ShiftPolicy, MAX_HOURS, MIN_HOURS, STANDARD_HOURS,
};

#[test]
fn the_narrowest_rule_wins() {
    let mut p = ShiftPolicy::new();
    let clinic = BuildingId(7);
    assert_eq!(p.hours_for(BuildingKind::Clinic, clinic), 8);

    p.set_kind(BuildingKind::Clinic, Some(12));
    assert_eq!(p.hours_for(BuildingKind::Clinic, clinic), 12);
    assert_eq!(p.hours_for(BuildingKind::Sawmill, BuildingId(8)), 8);

    p.set_building(clinic, Some(14));
    assert_eq!(p.hours_for(BuildingKind::Clinic, clinic), 14);
    assert_eq!(p.hours_for(BuildingKind::Clinic, BuildingId(9)), 12);
}

#[test]
fn clearing_an_override_falls_back_rather_than_freezing() {
    let mut p = ShiftPolicy::new();
    p.set_national(10);
    p.set_kind(BuildingKind::Clinic, Some(12));
    p.set_building(BuildingId(7), Some(14));

    p.set_building(BuildingId(7), None);
    assert_eq!(p.hours_for(BuildingKind::Clinic, BuildingId(7)), 12);
    p.set_kind(BuildingKind::Clinic, None);
    assert_eq!(p.hours_for(BuildingKind::Clinic, BuildingId(7)), 10);
}

#[test]
fn a_standard_day_costs_nothing_at_all() {
    assert_eq!(overwork_cost(STANDARD_HOURS), (0, 0));
    assert_eq!(overwork_cost(MIN_HOURS), (0, 0));
    let (health, loyalty) = overwork_cost(12);
    assert!(health > 0 && loyalty > health, "{health} {loyalty}");
    // Four hours over: thirty and forty-five thousandths a day for each.
    assert_eq!((health, loyalty), (120, 180));
}

#[test]
fn a_demolished_buildings_exception_is_forgotten() {
    let mut p = ShiftPolicy::new();
    p.set_building(BuildingId(3), Some(12));
    p.forget(BuildingId(3));
    assert_eq!(p.building_rules().len(), 0);
}

#[test]
fn hours_are_held_to_what_the_republic_will_roster() {
    assert_eq!(clamp_hours(2), MIN_HOURS);
    assert_eq!(clamp_hours(20), MAX_HOURS);
    assert_eq!(clamp_hours(10), 10);
    let mut p = ShiftPolicy::new();
    p.set_national(30);
    assert_eq!(p.national(), MAX_HOURS);
    p.set_building(BuildingId(1), Some(1));
    assert_eq!(p.of_building(BuildingId(1)), Some(MIN_HOURS));
}

#[test]
fn rules_are_listed_in_order() {
    let mut p = ShiftPolicy::new();
    p.set_building(BuildingId(9), Some(10));
    p.set_building(BuildingId(2), Some(11));
    p.set_building(BuildingId(5), Some(12));
    p.set_building(BuildingId(5), Some(13));
    assert_eq!(
        p.building_rules(),
        vec![(BuildingId(2), 11), (BuildingId(5), 13), (BuildingId(9), 10)]
    );
    p.set_kind(BuildingKind::School, Some(6));
    p.set_kind(BuildingKind::Apartment, Some(9));
    assert_eq!(
        p.kind_rules(),
        vec![(BuildingKind::Apartment, 9), (BuildingKind::School, 6)]
    );
    assert_eq!(p.of_kind(BuildingKind::School), Some(6));
    assert_eq!(p.of_kind(BuildingKind::Farm), None);
}
