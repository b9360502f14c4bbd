use red_republic_sim::fleet::VehicleId;
use red_republic_sim::migration::{Migration, PATIENCE};
use red_republic_sim::units::{Metres, Point};

fn at(x: i64, y: i64) -> Point {
    Point::new(Metres(x), Metres(y))
}

#[test]
fn a_group_waits_until_something_comes_for_it() {
    let mut m = Migration::new();
    let id = m.arrive(at(0, 0), 12, 100);
    assert_eq!(m.waiting_heads(), 12);
    assert_eq!(m.unfetched().len(), 1);

    m.get_mut(id).unwrap().riding = Some(VehicleId(3));
    assert_eq!(m.unfetched().len(), 0, "a coach is on its way");
    assert!(m.riding(VehicleId(3)).is_some());
    assert_eq!(m.waiting_heads(), 12, "still at the border until set down");

    m.settle(id);
    assert_eq!(m.settled(), 12);
    assert_eq!(m.waiting_heads(), 0);
}

#[test]
fn a_group_nobody_fetches_gives_up_and_a_fetched_one_never_does() {
    let mut m = Migration::new();
    let ignored = m.arrive(at(0, 0), 10, 0);
    let collected = m.arrive(at(0, 0), 10, 0);
    m.get_mut(collected).unwrap().riding = Some(VehicleId(1));

    assert!(!m.get(ignored).unwrap().has_given_up(PATIENCE - 1));
    assert!(m.get(ignored).unwrap().has_given_up(PATIENCE));
    assert!(
        !m.get(collected).unwrap().has_given_up(PATIENCE * 10),
        "a group aboard a coach is not waiting for anything"
    );

    m.give_up(ignored);
    assert_eq!(m.gave_up(), 10);
    assert!(m.give_up(ignored).is_none(), "and only once");
}

#[test]
fn departures_and_refusals_are_tallied() {
    let mut m = Migration::new();
    m.arrive(at(100, 200), 8, 5);
    m.record_departures(3);
    m.record_turned_away(2);
    assert_eq!(m.left(), 3);
    assert_eq!(m.gave_up(), 2);
    assert_eq!(m.all().len(), 1);
}

#[test]
fn waiting_is_counted_from_the_day_of_arrival() {
    let mut m = Migration::new();
    let id = m.arrive(at(0, 0), 4, 50);
    let g = m.get(id).unwrap();
    assert_eq!(g.waited(40), 0, "not there yet");
    assert_eq!(g.waited(60), 10);
    assert!(g.is_waiting());
    assert!(!g.has_given_up(50 + PATIENCE - 1));
    assert!(g.has_given_up(50 + PATIENCE));
}
