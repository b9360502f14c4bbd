use red_republic_sim::building::BuildingId;
use red_republic_sim::crews::Crews;
use red_republic_sim::fleet::{Destination, VehicleId};
use red_republic_sim::trade::Market;
use red_republic_sim::units::{Metres, Point};

fn at(x: i64, y: i64) -> Point {
    Point::new(Metres(x), Metres(y))
}

#[test]
fn an_office_counts_everyone_it_has_out_once() {
    let mut crews = Crews::new();
    let office = BuildingId(1);
    let a = crews.send(office, 6, at(0, 0), VehicleId(1));
    crews.send(office, 4, at(0, 0), VehicleId(2));
    crews.send(BuildingId(2), 9, at(0, 0), VehicleId(3));

    assert_eq!(crews.posted(office), 10);
    assert_eq!(crews.posted(BuildingId(2)), 9);
    assert_eq!(crews.of_office(office).len(), 2);

    // Landing them at a site moves them; it does not duplicate them.
    let site = Destination::Building(BuildingId(7));
    let party = crews.get_mut(a).unwrap();
    party.riding = None;
    party.working = Some(site);
    assert_eq!(crews.posted(office), 10);
    assert_eq!(crews.at_site(site), 6);
    assert!(crews.riding(VehicleId(1)).is_none());
    assert!(crews.riding(VehicleId(2)).is_some());
}

#[test]
fn a_crew_is_stranded_only_when_it_has_no_site_and_no_lift() {
    let mut crews = Crews::new();
    let site = Destination::Building(BuildingId(7));
    let id = crews.send(BuildingId(1), 5, at(0, 0), VehicleId(1));
    assert_eq!(crews.stranded().len(), 0, "aboard a bus");

    let party = crews.get_mut(id).unwrap();
    party.riding = None;
    party.working = Some(site);
    assert_eq!(crews.stranded().len(), 0, "working");

    crews.release(site, at(100, 100));
    assert_eq!(crews.stranded().len(), 1, "the site finished under them");
    assert_eq!(crews.get(id).unwrap().at, at(100, 100));
    assert_eq!(crews.at_site(site), 0);

    crews.dissolve(id);
    assert!(crews.is_empty());
    assert_eq!(crews.posted(BuildingId(1)), 0, "they are back at work");
}

#[test]
fn ids_are_handed_out_in_order_and_never_reused() {
    let mut crews = Crews::new();
    let a = crews.send(BuildingId(1), 1, at(0, 0), VehicleId(1));
    let b = crews.send(BuildingId(1), 1, at(0, 0), VehicleId(2));
    assert_eq!(a.0, 1);
    assert_eq!(b.0, 2);
    crews.dissolve(b);
    let c = crews.send(BuildingId(1), 1, at(0, 0), VehicleId(3));
    assert_eq!(c.0, 3);
    assert_eq!(crews.len(), 2);
    assert!(crews.dissolve(b).is_none(), "already home");
}

#[test]
fn foreign_labour_is_paid_for_but_not_posted() {
    let mut crews = Crews::new();
    let office = BuildingId(4);
    let gang = crews.arrive(office, Market::West, 20, at(50, 0));
    assert_eq!(crews.posted(office), 0, "not part of the establishment yet");
    assert_eq!(crews.on_payroll(office), 20, "but paid from the day they arrive");
    assert_eq!(crews.stranded().len(), 1, "standing at the post waiting for a bus");
    assert_eq!(crews.get(gang).unwrap().hired_from, Some(Market::West));

    crews.dissolve(gang);
    crews.take_on(office, Market::West, 20);
    assert_eq!(crews.on_payroll(office), 20, "on the books now");
    assert_eq!(crews.hired(office, Market::West), 20);
    assert_eq!(crews.hired(office, Market::East), 0);
    assert_eq!(crews.hired_total(office), 20);
}

#[test]
fn the_books_are_kept_by_office_and_bloc() {
    let mut crews = Crews::new();
    crews.take_on(BuildingId(9), Market::East, 5);
    crews.take_on(BuildingId(2), Market::East, 3);
    crews.take_on(BuildingId(2), Market::West, 7);
    crews.take_on(BuildingId(9), Market::East, 1);

    assert_eq!(crews.hired(BuildingId(9), Market::East), 6);
    assert_eq!(crews.hired_from_bloc(Market::East), 9);
    assert_eq!(crews.hired_from_bloc(Market::West), 7);
    assert_eq!(
        crews.employers(Market::East),
        vec![(BuildingId(2), 3), (BuildingId(9), 6)],
        "in commissioning order"
    );
    assert_eq!(crews.employers(Market::West), vec![(BuildingId(2), 7)]);
}

#[test]
fn letting_go_releases_no_more_than_are_on_the_books() {
    let mut crews = Crews::new();
    crews.take_on(BuildingId(1), Market::East, 4);
    assert_eq!(crews.let_go(BuildingId(1), Market::East, 3), 3);
    assert_eq!(crews.hired(BuildingId(1), Market::East), 1);
    assert_eq!(crews.let_go(BuildingId(1), Market::East, 10), 1, "only one was left");
    assert_eq!(crews.hired(BuildingId(1), Market::East), 0);
    assert!(crews.employers(Market::East).is_empty(), "the line is struck off");
    assert_eq!(crews.let_go(BuildingId(1), Market::West, 2), 0, "nobody to let go");
}

#[test]
fn a_crew_on_a_site_is_found_there_and_only_there() {
    let mut crews = Crews::new();
    let site = Destination::RoadSite(red_republic_sim::roadworks::RoadSiteId(3));
    let id = crews.send(BuildingId(1), 8, at(0, 0), VehicleId(5));
    assert!(crews.working_at(site).is_none());
    let party = crews.get_mut(id).unwrap();
    party.riding = None;
    party.working = Some(site);
    assert_eq!(crews.working_at(site).unwrap().id, id);
    assert!(crews.get(id).unwrap().working.is_some());
    assert!(!crews.get(id).unwrap().is_stranded());
}
