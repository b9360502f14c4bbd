use red_republic_sim::network::{
    default_road_speed, fairway_point, navigable, navigable_speed, Network, NodeId, Segment, FAIRWAY_SPACING,
};
use red_republic_sim::units::{Metres, Point, Seconds, Speed};

/// Junctions in a line, 1 km apart.
fn straight(n: u32) -> Network {
    let mut r = Network::new();
    for i in 0..n {
        r.add_node(Point::new(Metres(i as i64 * 1_000), Metres(0)));
    }
    for i in 0..n - 1 {
        r.connect(NodeId(i), NodeId(i + 1), default_road_speed());
    }
    r
}

#[test]
fn a_segment_takes_the_time_its_length_and_speed_imply() {
    let r = straight(2);
    // 1 km at 50 km/h is 72 seconds.
    let route = r.route(NodeId(0), NodeId(1)).expect("connected");
    assert_eq!(route.time, Seconds::from_secs(72), "{:?}", route.time);
    assert_eq!(route.distance, Metres(1_000));
}

#[test]
fn routing_follows_the_chain_and_accumulates() {
    let r = straight(5);
    let route = r.route(NodeId(0), NodeId(4)).expect("connected");
    assert_eq!(
        route.nodes,
        vec![NodeId(0), NodeId(1), NodeId(2), NodeId(3), NodeId(4)]
    );
    assert_eq!(route.distance, Metres(4_000));
    assert_eq!(route.time, Seconds::from_secs(288));
}

#[test]
fn a_route_to_yourself_is_free() {
    let r = straight(3);
    let route = r.route(NodeId(1), NodeId(1)).expect("trivially connected");
    assert_eq!(route.nodes, vec![NodeId(1)]);
    assert_eq!(route.time, Seconds::zero());
}

#[test]
fn an_unconnected_junction_has_no_route() {
    let mut r = straight(3);
    let island = r.add_node(Point::new(Metres(0), Metres(9_000)));
    assert!(r.route(NodeId(0), island).is_none());
    assert!(r.route(island, NodeId(0)).is_none());
}

/// The shortcut has to win, or routing is just following insertion order.
#[test]
fn the_faster_way_round_is_the_one_taken() {
    let mut r = Network::new();
    let a = r.add_node(Point::new(Metres(0), Metres(0)));
    let long1 = r.add_node(Point::new(Metres(0), Metres(5_000)));
    let long2 = r.add_node(Point::new(Metres(10_000), Metres(5_000)));
    let b = r.add_node(Point::new(Metres(10_000), Metres(0)));

    // The long way is laid first, so insertion order favours it.
    r.connect(a, long1, default_road_speed());
    r.connect(long1, long2, default_road_speed());
    r.connect(long2, b, default_road_speed());
    // The direct road is laid last.
    r.connect(a, b, default_road_speed());

    let route = r.route(a, b).expect("connected");
    assert_eq!(route.nodes, vec![a, b], "took the scenic route");
    assert_eq!(route.distance, Metres(10_000));
}

/// A motorway that is longer in metres but quicker in minutes must win.
#[test]
fn a_longer_faster_road_beats_a_shorter_slow_one() {
    let mut r = Network::new();
    let a = r.add_node(Point::new(Metres(0), Metres(0)));
    let b = r.add_node(Point::new(Metres(10_000), Metres(0)));
    let detour = r.add_node(Point::new(Metres(5_000), Metres(6_000)));

    // Direct, but a crawl.
    r.connect(a, b, Speed::from_kph(10));
    // Longer, but a proper road.
    r.connect(a, detour, Speed::from_kph(90));
    r.connect(detour, b, Speed::from_kph(90));

    let route = r.route(a, b).expect("connected");
    assert_eq!(route.nodes, vec![a, detour, b]);
    assert!(route.distance > Metres(10_000), "it really is longer");
}

#[test]
fn routing_is_deterministic_when_two_ways_tie_exactly() {
    let mut r = Network::new();
    let a = r.add_node(Point::new(Metres(0), Metres(0)));
    let up = r.add_node(Point::new(Metres(0), Metres(1_000)));
    let down = r.add_node(Point::new(Metres(0), Metres(-1_000)));
    let b = r.add_node(Point::new(Metres(2_000), Metres(0)));
    for mid in [up, down] {
        r.connect(a, mid, default_road_speed());
        r.connect(mid, b, default_road_speed());
    }
    let first = r.route(a, b).expect("connected");
    for _ in 0..50 {
        assert_eq!(r.route(a, b).expect("connected"), first);
    }
}

#[test]
fn the_nearest_junction_is_found_only_within_reach() {
    let r = straight(3);
    let near = Point::new(Metres(1_050), Metres(0));
    assert_eq!(r.nearest_node(near, Metres(100)), Some(NodeId(1)));
    assert_eq!(r.nearest_node(near, Metres(10)), None);
}

/// A building nowhere near a road is unreachable, and says so rather than
/// returning a large number a caller would quietly serve anyway.
#[test]
fn travel_between_points_needs_both_ends_on_the_network() {
    let r = straight(3);
    let walking = Speed::from_kph(5);
    let access = Metres(200);

    let a = Point::new(Metres(50), Metres(50));
    let b = Point::new(Metres(1_950), Metres(50));
    let time = r
        .travel_time(a, b, access, walking)
        .expect("both connected");
    // Roughly 2 km of driving plus two short walks — minutes, not hours.
    let minutes = time.millis as f64 / 60_000.0;
    assert!((2.0..15.0).contains(&minutes), "{} minutes", minutes);

    let stranded = Point::new(Metres(0), Metres(9_000));
    assert!(r.travel_time(a, stranded, access, walking).is_none());
}

#[test]
fn total_length_counts_what_was_laid() {
    let r = straight(4);
    assert_eq!(r.total_length(), Metres(3_000));
    assert_eq!(r.segment_count(), 3);
    assert_eq!(r.node_count(), 4);
}

/// Every stretch of road is readable, with the points it runs between.
#[test]
fn every_stretch_of_road_reads_back_with_the_points_it_runs_between() {
    let r = straight(4);
    assert_eq!(r.segments().len(), r.segment_count());
    assert_eq!(r.segments().len(), 3);

    for (i, segment) in r.segments().iter().enumerate() {
        let (from, to) = r.segment_ends(segment).expect("both junctions exist");
        let step = |n: usize| Point::new(Metres(n as i64 * 1_000), Metres(0));
        assert_eq!(from, step(i));
        assert_eq!(to, step(i + 1));
        assert_eq!(segment.length, Metres(1_000));
        assert_eq!(segment.speed, default_road_speed());
    }
}

/// A segment whose junctions are not in this network resolves to nothing
/// rather than panicking.
#[test]
fn a_segment_from_elsewhere_has_no_ends_here() {
    let r = straight(2);
    let stray = Segment {
        from: NodeId(0),
        to: NodeId(99),
        length: Metres(1),
        speed: default_road_speed(),
    };
    assert_eq!(r.segment_ends(&stray), None);
}

/// Two junctions are connected exactly when road joins them, whichever way
/// round they are asked about, and the quicker of two parallel roads sets
/// the limit.
#[test]
fn parallel_roads_report_the_quicker_limit() {
    let mut r = straight(3);
    r.connect(NodeId(1), NodeId(0), Speed::from_kph(90));
    assert!(r.are_connected(NodeId(0), NodeId(1)));
    assert!(r.are_connected(NodeId(1), NodeId(0)));
    assert!(!r.are_connected(NodeId(0), NodeId(2)));
    assert_eq!(r.speed_between(NodeId(0), NodeId(1)), Some(Speed::from_kph(90)));
    assert_eq!(r.speed_between(NodeId(0), NodeId(2)), None);
}

/// A junction within reach is reused; anywhere else gets a new one.
#[test]
fn a_junction_is_reused_within_the_merge_distance() {
    let mut r = straight(2);
    assert_eq!(r.junction_at(Point::new(Metres(1_003), Metres(4)), Metres(10)), NodeId(1));
    assert_eq!(r.node_count(), 2);
    let fresh = r.junction_at(Point::new(Metres(5_000), Metres(0)), Metres(10));
    assert_eq!(fresh, NodeId(2));
    assert_eq!(r.node_count(), 3);
}

/// The fairway readings of a map `extent` metres across, with water wherever
/// `wet` says.
fn fairway_readings(extent: i64, wet: impl Fn(Point) -> bool) -> Vec<bool> {
    let across = (extent / FAIRWAY_SPACING) as u32;
    let mut readings = Vec::new();
    for c in 0..across * across {
        for k in 0..5 {
            readings.push(wet(fairway_point(across, c, k)));
        }
    }
    readings
}

#[test]
fn a_river_is_a_fairway_from_end_to_end() {
    // A river 40 m wide running north-south through a 200 m map.
    let readings = fairway_readings(200, |p| p.x.0 >= 80 && p.x.0 < 120);
    let water = navigable(Metres(200), &readings);
    assert_eq!(water.node_count(), 5);
    assert_eq!(water.segment_count(), 4);
    assert_eq!(water.position_of(NodeId(0)), Some(Point::new(Metres(100), Metres(20))));
    assert_eq!(water.position_of(NodeId(4)), Some(Point::new(Metres(100), Metres(180))));
    for s in water.segments() {
        assert_eq!(s.length, Metres(FAIRWAY_SPACING));
        assert_eq!(s.speed, navigable_speed());
    }
    let route = water.route(NodeId(0), NodeId(4)).expect("the river joins its ends");
    assert_eq!(route.nodes.len(), 5);
}

#[test]
fn a_pond_narrower_than_a_barge_either_way_is_not_navigable() {
    // A pond 20 m across: the middle of its cell is wet, but there is not a
    // beam of water across it in either direction.
    let readings = fairway_readings(200, |p| (p.x.0 - 100).abs() < 10 && (p.y.0 - 100).abs() < 10);
    let water = navigable(Metres(200), &readings);
    assert_eq!(water.node_count(), 0);
}

#[test]
fn a_narrow_river_is_navigable_along_its_length() {
    // Only 20 m wide, but a barge's beam of water runs along it.
    let readings = fairway_readings(200, |p| p.x.0 >= 90 && p.x.0 < 110);
    assert_eq!(navigable(Metres(200), &readings).node_count(), 5);
}

#[test]
fn open_water_is_joined_to_its_four_neighbours_and_no_further() {
    let readings = fairway_readings(80, |_| true);
    let water = navigable(Metres(80), &readings);
    // Two by two: four junctions, four spans, no diagonals.
    assert_eq!(water.node_count(), 4);
    assert_eq!(water.segment_count(), 4);
    assert!(!water.are_connected(NodeId(0), NodeId(3)));
    assert!(water.are_connected(NodeId(0), NodeId(1)));
    assert!(water.are_connected(NodeId(0), NodeId(2)));
}

#[test]
fn a_map_smaller_than_a_fairway_cell_has_no_water_to_sail() {
    let water = navigable(Metres(30), &[]);
    assert_eq!(water.node_count(), 0);
}
