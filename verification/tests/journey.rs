use red_republic_sim::ground::{cells_for, Crossing, Lattice, Surface};
use red_republic_sim::journey::{
    by_road, leg_ticks, plan, plan_for, shunting, tick, Journey, Medium, PathBuilder, Ways, MIN_LEG_TICKS, TICK_MILLIS,
};
use red_republic_sim::network::{default_road_speed, Network};
use red_republic_sim::units::{Metres, Point, Seconds, Speed};

fn at(x: i64, y: i64) -> Point {
    Point::new(Metres(x), Metres(y))
}

/// Junctions in a line 500 m apart, starting at the origin.
fn highway(length: i64) -> Network {
    let mut roads = Network::new();
    let steps = length / 500;
    let mut previous = roads.add_node(at(0, 0));
    for i in 1..=steps {
        let next = roads.add_node(at(i * 500, 0));
        roads.connect(previous, next, default_road_speed());
        previous = next;
    }
    roads
}

#[test]
fn only_a_road_vehicle_ranges_free() {
    for m in Medium::all() {
        assert_eq!(m.free_ranging(), m == Medium::Road, "{}", m.name());
    }
}

#[test]
fn a_metro_outpaces_a_tram_and_an_aeroplane_outpaces_everything() {
    assert!(Medium::Metro.commercial_speed() > Medium::Tram.commercial_speed());
    for m in Medium::all() {
        assert!(Medium::Air.commercial_speed() >= m.commercial_speed());
    }
    assert_eq!(Medium::Road.commercial_speed(), Speed::from_kph(20));
}

#[test]
fn a_republic_of_roads_has_nothing_else_to_ride() {
    let roads = highway(2_000);
    let nowhere = Network::new();
    let ways = Ways::on_roads(&roads, &nowhere);
    assert_eq!(ways.of(Medium::Road).node_count(), 5);
    assert_eq!(ways.of(Medium::Rail).node_count(), 0);
    assert_eq!(ways.of(Medium::Air).node_count(), 0);
}

#[test]
fn a_straight_run_at_one_speed_is_one_leg() {
    let mut b = PathBuilder::from(at(0, 0));
    let limit = Some(default_road_speed());
    b.step(at(500, 0), limit);
    b.step(at(1_000, 0), limit);
    b.step(at(1_500, 0), limit);
    assert_eq!(b.path, vec![at(0, 0), at(1_500, 0)]);
    assert_eq!(b.limit, vec![limit]);
}

#[test]
fn a_turn_or_a_change_of_speed_is_a_new_leg() {
    let mut b = PathBuilder::from(at(0, 0));
    let fast = Some(Speed::from_kph(60));
    let slow = Some(Speed::from_kph(25));
    b.step(at(500, 0), fast);
    b.step(at(1_000, 0), slow);
    b.step(at(1_000, 500), slow);
    assert_eq!(b.path, vec![at(0, 0), at(500, 0), at(1_000, 0), at(1_000, 500)]);
    assert_eq!(b.limit, vec![fast, slow, slow]);
}

#[test]
fn a_step_that_goes_nowhere_is_dropped_and_doubling_back_is_not_straight() {
    let mut b = PathBuilder::from(at(0, 0));
    b.step(at(0, 0), None);
    assert_eq!(b.path.len(), 1);
    b.step(at(100, 0), None);
    b.step(at(50, 0), None);
    assert_eq!(b.path, vec![at(0, 0), at(100, 0), at(50, 0)]);
}

#[test]
fn the_road_candidate_rides_the_network_between_its_access_hops() {
    let roads = highway(2_000);
    let b = by_road(at(0, 200), at(2_000, 100), &roads).expect("both ends are near the road");
    // Onto the road, along it as one straight leg, and off it to the door.
    assert_eq!(b.path, vec![at(0, 200), at(0, 0), at(2_000, 0), at(2_000, 100)]);
    assert_eq!(b.limit, vec![None, Some(default_road_speed()), None]);
}

#[test]
fn there_is_no_road_candidate_far_from_the_road() {
    let roads = highway(2_000);
    assert!(by_road(at(0, 900), at(2_000, 0), &roads).is_none());
}

#[test]
fn there_is_no_road_candidate_between_unjoined_roads() {
    let mut roads = highway(1_000);
    let far = roads.add_node(at(9_000, 0));
    let farther = roads.add_node(at(9_500, 0));
    roads.connect(far, farther, default_road_speed());
    assert!(by_road(at(0, 0), at(9_500, 0), &roads).is_none());
}

/// A time `t` ticks into the game.
fn ticks(t: u64) -> Seconds {
    Seconds { millis: t * TICK_MILLIS }
}

fn lorry() -> Speed {
    Speed::from_kph(15)
}

#[test]
fn a_position_is_linear_along_the_leg_it_is_on() {
    let j = Journey::begin(vec![at(0, 0), at(1_000, 0)], vec![None], ticks(100), ticks(10));
    assert_eq!(j.position_at(ticks(100)), at(0, 0));
    assert_eq!(j.position_at(ticks(105)), at(500, 0));
    assert_eq!(j.position_at(ticks(110)), at(1_000, 0));
}

#[test]
fn sampling_outside_the_leg_clamps_to_its_ends() {
    let j = Journey::begin(vec![at(0, 0), at(1_000, 0)], vec![None], ticks(100), ticks(10));
    assert_eq!(j.position_at(ticks(0)), at(0, 0));
    assert_eq!(j.position_at(ticks(1_000_000_000)), at(1_000, 0));
}

#[test]
fn position_is_a_pure_function_of_plan_and_time() {
    let j = Journey::begin(
        vec![at(0, 0), at(900, 300)],
        vec![Some(red_republic_sim::network::default_road_speed())],
        ticks(7),
        ticks(3),
    );
    for i in 0..1_000u64 {
        let t = Seconds { millis: 7 * TICK_MILLIS + i * 180 };
        assert_eq!(j.position_at(t), j.position_at(t));
    }
}

#[test]
fn a_leg_that_goes_nowhere_still_takes_a_tick() {
    assert_eq!(leg_ticks(Metres::zero(), lorry()).millis, MIN_LEG_TICKS * TICK_MILLIS);
    // 15 km/h covers 250 m in a minute, so 250 m is exactly one tick and
    // anything shorter is floored.
    assert_eq!(leg_ticks(Metres(250), lorry()), tick());
    assert_eq!(leg_ticks(Metres(10), lorry()), tick());
    assert!(leg_ticks(Metres(2_500), lorry()).millis > 9 * TICK_MILLIS);
}

#[test]
fn arrival_times_do_not_drift_over_many_legs() {
    let path: Vec<Point> = (0..=20).map(|i| at(i * 1_000, 0)).collect();
    let one = leg_ticks(Metres(1_000), lorry());
    let mut j = Journey::begin(path, vec![None; 20], Seconds { millis: 0 }, one);
    while !j.on_last_leg() {
        let (leg, start, end) = j.next_leg(lorry());
        j.leg = leg;
        j.leg_start = start;
        j.leg_end = end;
    }
    assert_eq!(j.leg_end.millis, one.millis * 20);
}

#[test]
fn distance_is_the_sum_of_the_legs() {
    let j = Journey::begin(
        vec![at(0, 0), at(300, 400), at(300, 0)],
        vec![None, Some(red_republic_sim::network::default_road_speed())],
        Seconds { millis: 0 },
        tick(),
    );
    assert_eq!(j.distance(), Metres(900));
    assert_eq!(j.legs(), 2);
}

#[test]
fn a_journey_knows_its_leg_its_end_and_when_it_is_on_its_last() {
    let j = Journey::begin(
        vec![at(0, 0), at(300, 400), at(300, 1_400)],
        vec![None, None],
        Seconds { millis: 0 },
        tick(),
    );
    assert_eq!(j.destination(), at(300, 1_400));
    assert_eq!(j.leg_distance(), Metres(500));
    assert_eq!(j.leg_ends(1), (at(300, 400), at(300, 1_400)));
    assert!(!j.on_last_leg());
    assert!(!j.leg_done_by(Seconds { millis: 59_999 }));
    assert!(j.leg_done_by(tick()));
}

/// Flat, dry, open ground with nothing in the way, 24 km across: the crossing
/// these tests are not about.
fn firm() -> Lattice {
    let extent = Metres(24_000);
    let cells = cells_for(extent) as usize;
    let samples = vec![Some(Surface::Grass); cells * cells * 25];
    Lattice::from_samples(extent, &samples)
}

/// A dry day: the ground bears, and nothing lies on the roads.
fn dry(lattice: &Lattice) -> Crossing<'_> {
    Crossing { lattice, softness: 0 }
}

const CLEAR_ROAD: u64 = 1_000;

/// The same lorry's speed once it is on tarmac.
fn fast_lorry() -> Speed {
    Speed::from_kph(50)
}

/// Every leg of a journey timed at the pace it allows on firm, dry going.
fn total(j: &Journey, on_road: Speed) -> u64 {
    (0..j.legs())
        .map(|leg| {
            let hop = j.path[leg as usize].distance_to(j.path[leg as usize + 1]);
            leg_ticks(hop, j.speed_on(leg, on_road, lorry(), 1_000)).millis
        })
        .sum()
}

#[test]
fn open_ground_is_crossed_when_there_is_no_road() {
    let lattice = firm();
    let crossing = dry(&lattice);
    let j = plan(at(0, 0), at(3_000, 0), &Network::new(), &crossing, default_road_speed(), lorry(), CLEAR_ROAD, ticks(0));
    assert_eq!(j.path, vec![at(0, 0), at(3_000, 0)]);
    assert_eq!(j.limit, vec![None]);
    // 3 km at 15 km/h is twelve minutes, and a tick is a minute.
    assert_eq!(j.leg_end, ticks(12));
}

#[test]
fn a_road_beats_open_ground_over_the_same_ground() {
    let from = at(0, 100);
    let to = at(5_000, 100);
    let lattice = firm();
    let crossing = dry(&lattice);
    let cross_country = plan(from, to, &Network::new(), &crossing, default_road_speed(), lorry(), CLEAR_ROAD, ticks(0));
    let roads = highway(6_000);
    let driven = plan(from, to, &roads, &crossing, default_road_speed(), lorry(), CLEAR_ROAD, ticks(0));
    assert!(
        total(&driven, default_road_speed()) < total(&cross_country, default_road_speed()),
        "the road was not taken"
    );
    assert!(driven.limit.iter().any(|l| l.is_some()), "no leg rode the network");
    // The hops onto and off the network are never on tarmac.
    assert!(driven.limit[0].is_none());
    assert!(driven.limit[driven.limit.len() - 1].is_none());
}

#[test]
fn a_straight_road_is_one_leg_however_many_junctions_it_has() {
    let mut sparse = Network::new();
    let mut dense = Network::new();
    for (roads, spacing) in [(&mut sparse, 1_000), (&mut dense, 200)] {
        let steps = 6_000 / spacing;
        let mut previous = roads.add_node(at(0, 0));
        for i in 1..=steps {
            let next = roads.add_node(at(i * spacing, 0));
            roads.connect(previous, next, default_road_speed());
            previous = next;
        }
    }
    let ends = (at(0, 100), at(5_000, 100));
    let lattice = firm();
    let crossing = dry(&lattice);
    let a = plan(ends.0, ends.1, &sparse, &crossing, fast_lorry(), lorry(), CLEAR_ROAD, ticks(0));
    let b = plan(ends.0, ends.1, &dense, &crossing, fast_lorry(), lorry(), CLEAR_ROAD, ticks(0));
    assert_eq!(a.legs(), b.legs(), "junction spacing changed the shape of the journey");
    assert!(b.legs() <= 3, "{} legs down a straight road", b.legs());

    // And the dense road is still worth taking, which is the point.
    let across = plan(ends.0, ends.1, &Network::new(), &crossing, fast_lorry(), lorry(), CLEAR_ROAD, ticks(0));
    assert!(b.leg_end < across.leg_end || b.legs() > 1, "the subdivided road was refused");
    let by_road = total(&b, fast_lorry());
    assert!(
        by_road < leg_ticks(ends.0.distance_to(ends.1), lorry()).millis,
        "the road took {by_road} ms against open ground"
    );
}

#[test]
fn a_road_that_turns_keeps_its_corner() {
    let mut roads = Network::new();
    let a = roads.add_node(at(0, 0));
    let corner = roads.add_node(at(2_000, 0));
    let b = roads.add_node(at(2_000, 2_000));
    roads.connect(a, corner, default_road_speed());
    roads.connect(corner, b, default_road_speed());
    let lattice = firm();
    let crossing = dry(&lattice);
    let j = plan(at(0, 0), at(2_000, 2_000), &roads, &crossing, fast_lorry(), lorry(), CLEAR_ROAD, ticks(0));
    assert!(
        j.path.iter().any(|p| p.x.0 > 1_900 && p.y.0 < 100),
        "the corner was cut: {:?}",
        j.path
    );
}

#[test]
fn a_leg_is_capped_by_the_road_it_is_on() {
    let fast = Speed::from_kph(50);
    let track = Speed::from_kph(25);
    let j = Journey::begin(
        vec![at(0, 0), at(1_000, 0), at(2_000, 0)],
        vec![Some(track), Some(fast)],
        ticks(0),
        ticks(1),
    );
    assert_eq!(j.speed_on(0, fast, lorry(), 1_000), track, "the track should bind");
    assert_eq!(j.speed_on(1, fast, lorry(), 1_000), fast, "tarmac should not");
    // And a lorry slower than the road is still the slower of the two.
    assert_eq!(j.speed_on(1, lorry(), lorry(), 1_000), lorry());
}

#[test]
fn a_better_surface_wins_over_a_longer_detour_on_a_worse_one() {
    let mut roads = Network::new();
    let a = roads.add_node(at(0, 0));
    let b = roads.add_node(at(4_000, 0));
    let track = roads.add_node(at(2_000, 100));
    // A direct dirt track, and a paved way round through one junction.
    roads.connect(a, b, Speed::from_kph(25));
    roads.connect(a, track, Speed::from_kph(60));
    roads.connect(track, b, Speed::from_kph(60));
    let lattice = firm();
    let crossing = dry(&lattice);
    let j = plan(at(0, 0), at(4_000, 0), &roads, &crossing, fast_lorry(), lorry(), CLEAR_ROAD, ticks(0));
    assert!(j.path.iter().any(|p| p.y.0 > 50), "the lorry stayed on the dirt track: {:?}", j.path);
}

#[test]
fn a_road_going_the_wrong_way_is_ignored() {
    let mut roads = Network::new();
    let a = roads.add_node(at(0, 0));
    let b = roads.add_node(at(0, 20_000));
    let c = roads.add_node(at(200, 20_000));
    let d = roads.add_node(at(200, 0));
    roads.connect(a, b, default_road_speed());
    roads.connect(b, c, default_road_speed());
    roads.connect(c, d, default_road_speed());
    // Two hundred metres apart, with 40 km of road joining them the long way.
    let lattice = firm();
    let crossing = dry(&lattice);
    let j = plan(at(0, 0), at(200, 0), &roads, &crossing, default_road_speed(), lorry(), CLEAR_ROAD, ticks(0));
    assert_eq!(j.path.len(), 2, "took the scenic route: {:?}", j.path);
}

#[test]
fn a_waypoint_the_lorry_is_already_standing_on_is_dropped() {
    // Home sits exactly on the first junction.
    let roads = highway(6_000);
    let lattice = firm();
    let crossing = dry(&lattice);
    let j = plan(at(0, 0), at(5_000, 0), &roads, &crossing, default_road_speed(), lorry(), CLEAR_ROAD, ticks(0));
    assert_eq!(j.path[0], at(0, 0));
    assert_ne!(j.path[1], at(0, 0), "a leg that goes nowhere survived");
    assert_eq!(j.limit.len() + 1, j.path.len());
}

#[test]
fn a_journey_to_where_you_already_stand_still_finishes() {
    let lattice = firm();
    let crossing = dry(&lattice);
    let j = plan(at(500, 500), at(500, 500), &Network::new(), &crossing, default_road_speed(), lorry(), CLEAR_ROAD, ticks(42));
    assert_eq!(j.legs(), 1);
    assert!(j.on_last_leg());
    assert_eq!(j.leg_end, ticks(43), "one tick, not zero");
}

#[test]
fn snow_on_the_roads_can_send_a_lorry_across_the_field() {
    let from = at(0, 100);
    let to = at(5_000, 100);
    let lattice = firm();
    let crossing = dry(&lattice);
    let roads = highway(6_000);
    // Roads four times as slow as clear: open ground wins.
    let j = plan(from, to, &roads, &crossing, default_road_speed(), lorry(), 16_000, ticks(0));
    assert!(j.limit.iter().all(|l| l.is_none()), "a buried road was taken: {:?}", j.limit);
}

#[test]
fn a_confined_vehicle_stays_on_its_network_or_does_not_go() {
    let lattice = firm();
    let crossing = dry(&lattice);
    let roads = Network::new();
    let rails = highway(3_000);
    let nowhere = Network::new();
    let mut ways = Ways::on_roads(&roads, &nowhere);
    ways.rails = &rails;
    let speed = Speed::from_kph(60);
    let j = plan_for(Medium::Rail, at(0, 50), at(3_000, 50), ways, &crossing, speed, lorry(), CLEAR_ROAD, ticks(0))
        .expect("both yards are by the line");
    // In from the yard, along the line, out to the far yard: every hop is on the way.
    assert!(j.limit.iter().all(|l| l.is_some()));
    assert_eq!(j.limit[0], Some(shunting()));
    assert_eq!(*j.limit.last().unwrap(), Some(shunting()));
    assert_eq!(*j.path.last().unwrap(), at(3_000, 50));
    // A yard far from the line has no journey at all.
    assert_eq!(
        plan_for(Medium::Rail, at(0, 5_000), at(3_000, 50), ways, &crossing, speed, lorry(), CLEAR_ROAD, ticks(0)),
        None
    );
    // And there is no barge without water.
    assert_eq!(
        plan_for(Medium::Water, at(0, 50), at(3_000, 50), ways, &crossing, speed, lorry(), CLEAR_ROAD, ticks(0)),
        None
    );
    // A lorry always plans.
    assert!(plan_for(Medium::Road, at(0, 50), at(3_000, 50), ways, &crossing, speed, lorry(), CLEAR_ROAD, ticks(0)).is_some());
}
