use red_republic_sim::journey::Medium;
use red_republic_sim::network::Network;
use red_republic_sim::resource::Resource;
use red_republic_sim::roadworks::{open, Grade, RoadError, RoadSite, RoadWorks, LONGEST_ROAD};
use red_republic_sim::units::{Metres, Point, Speed, Tonnes};

fn at(x: i64, y: i64) -> Point {
    Point::new(Metres(x), Metres(y))
}

fn site(grade: Grade, length: i64) -> RoadSite {
    let mut works = RoadWorks::new();
    let id = works.order(at(0, 0), at(length, 0), grade, false, 0).expect("long enough");
    works.remove(id).expect("just ordered")
}

#[test]
fn every_grade_is_in_the_table_exactly_once_and_fully_authored() {
    let all = Grade::all();
    for grade in &all {
        assert_eq!(all.iter().filter(|g| *g == grade).count(), 1);
        let def = grade.def();
        assert_eq!(def.grade, *grade);
        assert!(def.speed > Speed(0), "{} goes nowhere", def.name);
        assert!(def.labour > 0, "{} builds itself", def.name);
        assert!(!def.name.is_empty());
    }
}

#[test]
fn a_better_road_is_faster_and_dearer() {
    let ladder = [Grade::Dirt, Grade::Gravel, Grade::Paved];
    for pair in ladder.windows(2) {
        let (worse, better) = (pair[0].def(), pair[1].def());
        assert!(better.speed > worse.speed, "{} is no faster than {}", better.name, worse.name);
        assert!(better.labour > worse.labour, "{} costs no more work than {}", better.name, worse.name);
    }
    assert!(Grade::Dirt.def().materials.is_empty());
    assert!(!Grade::Gravel.def().materials.is_empty());
}

#[test]
fn a_bill_of_materials_is_proportional_to_the_length() {
    let short = site(Grade::Gravel, 500);
    let long = site(Grade::Gravel, 2_000);
    assert_eq!(long.material(Resource::Gravel).0, short.material(Resource::Gravel).0 * 4);
    assert_eq!(long.labour(), short.labour() * 4);
    let per_km = site(Grade::Gravel, 1_000).material(Resource::Gravel);
    assert_eq!(per_km, Tonnes(60));
}

#[test]
fn a_part_tonne_is_billed_as_a_whole_one() {
    // 60 t a kilometre over 10 m is 0.6 t, charged as one.
    let mut works = RoadWorks::new();
    let id = works.order(at(0, 0), at(10, 0), Grade::Bridge, false, 0).expect("a bridge may be short");
    let bridge = works.get(id).unwrap();
    assert_eq!(bridge.material(Resource::Gravel), Tonnes(1));
    assert_eq!(bridge.material(Resource::Steel), Tonnes(2));
}

#[test]
fn a_dirt_track_needs_nobody_to_deliver_anything() {
    let track = site(Grade::Dirt, 1_000);
    assert!(track.materials().is_empty());
    assert!(track.has_materials(), "nothing to wait for");
    assert!(track.labour() > 0, "it still has to be graded");
}

#[test]
fn a_site_accepts_its_bill_and_not_a_tonne_more() {
    let mut road = site(Grade::Gravel, 1_000);
    assert_eq!(road.intake_capacity(Resource::Gravel), Tonnes(60));
    assert_eq!(road.intake_capacity(Resource::Coal), Tonnes(0));
    assert!(!road.has_materials());
    road.stock.add(Resource::Gravel, Tonnes(60));
    assert!(road.has_materials());
    assert_eq!(road.material_outstanding(Resource::Gravel), Tonnes(0));
}

#[test]
fn work_done_shrinks_what_the_site_still_needs() {
    let mut road = site(Grade::Gravel, 1_000);
    let labour = road.labour();
    road.work_done = labour / 2;
    assert_eq!(road.intake_capacity(Resource::Gravel), Tonnes(30));
    assert_eq!(road.material_outstanding(Resource::Gravel), Tonnes(30));
    road.stock.add(Resource::Gravel, Tonnes(30));
    assert!(road.has_materials());
    assert!(!road.is_finished());
    road.work_done = labour;
    assert!(road.is_finished());
    assert_eq!(road.intake_capacity(Resource::Gravel), Tonnes(0));
}

#[test]
fn a_road_too_short_to_be_a_road_is_refused() {
    let mut works = RoadWorks::new();
    assert_eq!(works.order(at(0, 0), at(10, 0), Grade::Gravel, false, 0), Err(RoadError::TooShort));
    assert!(works.is_empty());
    assert_eq!(works.order(at(5, 5), at(5, 5), Grade::Bridge, false, 0), Err(RoadError::TooShort));
}

#[test]
fn lamps_go_only_on_a_paved_road_and_cost_extra() {
    let mut works = RoadWorks::new();
    assert_eq!(
        works.order(at(0, 0), at(1_000, 0), Grade::Gravel, true, 0),
        Err(RoadError::NoLampsOnThisGrade(Grade::Gravel))
    );
    let lit = works.order(at(0, 0), at(1_000, 0), Grade::Paved, true, 0).unwrap();
    let dark = works.order(at(0, 0), at(1_000, 0), Grade::Paved, false, 1).unwrap();
    let lit = works.get(lit).unwrap();
    let dark = works.get(dark).unwrap();
    assert!(lit.labour() > dark.labour());
    assert_eq!(lit.material(Resource::Electronics), Tonnes(2));
    assert_eq!(dark.material(Resource::Electronics), Tonnes(0));
    assert_eq!(lit.per_km().len(), dark.per_km().len() + 2);
}

#[test]
fn a_way_joins_the_network_its_grade_names() {
    assert_eq!(Grade::Paved.def().carries, Medium::Road);
    assert_eq!(Grade::Railway.def().carries, Medium::Rail);
    assert_eq!(Grade::Tramway.def().carries, Medium::Tram);
    assert_eq!(Grade::MetroTunnel.def().carries, Medium::Metro);
    assert!(Grade::Bridge.def().spans_water());
    assert!(!Grade::Paved.def().spans_water());
}

#[test]
fn a_depot_is_halfway_along() {
    let mut works = RoadWorks::new();
    let id = works.order(at(-100, 0), at(301, 50), Grade::Gravel, false, 0).unwrap();
    assert_eq!(works.get(id).unwrap().depot(), at(100, 25));
    assert!(LONGEST_ROAD > 1_000_000);
}

#[test]
fn a_long_road_opens_with_junctions_all_the_way_along_it() {
    let mut roads = Network::new();
    let road = site(Grade::Gravel, 1_000);
    open(&mut roads, &road);

    assert_eq!(roads.segment_count(), 5, "a kilometre at 200 m a segment");
    assert_eq!(roads.node_count(), 6);
    let beside = at(500, 250);
    assert!(roads.nearest_node(beside, Metres(300)).is_some());
    let a = roads.nearest_node(at(0, 0), Metres(1)).expect("start");
    let b = roads.nearest_node(at(1_000, 0), Metres(1)).expect("end");
    assert!(roads.route(a, b).is_some());
}

#[test]
fn roads_that_meet_share_a_junction() {
    let mut roads = Network::new();
    let mut works = RoadWorks::new();
    let first = works.order(at(0, 0), at(600, 0), Grade::Gravel, false, 0).unwrap();
    let second = works.order(at(600, 0), at(600, 600), Grade::Gravel, false, 1).unwrap();
    open(&mut roads, works.get(first).unwrap());
    let joined = roads.node_count();
    open(&mut roads, works.get(second).unwrap());

    assert_eq!(roads.node_count(), joined + 3, "the shared corner was counted twice");
    let a = roads.nearest_node(at(0, 0), Metres(1)).unwrap();
    let b = roads.nearest_node(at(600, 600), Metres(1)).unwrap();
    assert!(roads.route(a, b).is_some(), "the two roads did not meet");
}

#[test]
fn a_road_laid_over_an_existing_one_adds_no_second_carriageway() {
    let mut roads = Network::new();
    let road = site(Grade::Gravel, 600);
    open(&mut roads, &road);
    let (nodes, segments) = (roads.node_count(), roads.segment_count());
    open(&mut roads, &road);
    assert_eq!((roads.node_count(), roads.segment_count()), (nodes, segments));
}

#[test]
fn a_refused_road_says_why() {
    assert_eq!(RoadError::TooShort.message(), "a road shorter than 50 m is not worth surveying");
    assert_eq!(
        RoadError::NoLampsOnThisGrade(Grade::Gravel).message(),
        "street lighting wants a kerb and a duct, which Gravel Road has not got"
    );
    assert_eq!(RoadError::NeedsABridge.message(), "this line crosses water; only a bridge can span it");
    assert_eq!(Grade::MetroTunnel.name(), "Metro Tunnel");
}
