use red_republic_sim::building::{BuildingKind, Buildings};
use red_republic_sim::geology::{Deposit, DepositId, Geology, Layer, Mineral};
use red_republic_sim::citizen::{CitizenRecord, Education};
use red_republic_sim::mapgen::{default_plan, generate_geology};
use red_republic_sim::resource::Resource;
use red_republic_sim::scenario::{find_site, found, town_site, StartingBase, SETTLERS};
use red_republic_sim::units::{Metres, Point, Tonnes};

fn at(x: i64, y: i64) -> Point {
    Point::new(Metres(x), Metres(y))
}

/// A ten-kilometre map that takes a building anywhere on it.
fn on_the_map(p: Point) -> bool {
    p.x.0 >= 100 && p.y.0 >= 100 && p.x.0 <= 9_900 && p.y.0 <= 9_900
}

#[test]
fn site_search_finds_ground_and_gives_up_honestly() {
    let b = Buildings::new();
    let g = Geology::new();
    let centre = at(3_000, 3_000);
    assert!(find_site(&b, &g, BuildingKind::House, centre, Metres(2_000), 20, on_the_map).is_some());
    // Nowhere near the map, so nowhere to build.
    let off = at(50_000, 50_000);
    assert!(find_site(&b, &g, BuildingKind::House, off, Metres(100), 20, on_the_map).is_none());
}

#[test]
fn the_search_takes_the_spot_asked_for_when_it_is_free() {
    let b = Buildings::new();
    let g = Geology::new();
    assert_eq!(find_site(&b, &g, BuildingKind::House, at(500, 500), Metres(100), 20, on_the_map), Some(at(500, 500)));
}

#[test]
fn the_search_spirals_out_row_by_row() {
    let b = Buildings::new();
    let g = Geology::new();
    let not_here = |p: Point| p != at(500, 500);
    // The first ring starts at its top-left corner.
    assert_eq!(find_site(&b, &g, BuildingKind::House, at(500, 500), Metres(100), 20, not_here), Some(at(480, 480)));
}

#[test]
fn the_search_steps_round_what_already_stands() {
    let mut b = Buildings::new();
    let g = Geology::new();
    b.place(BuildingKind::Apartment, at(500, 500), true, &g).unwrap();
    let found = find_site(&b, &g, BuildingKind::House, at(500, 500), Metres(200), 20, on_the_map).unwrap();
    // Fourteen metres deep of flats and ten of house: one step up clears the
    // block, and the first ring starts at its top-left corner.
    assert_eq!(found, at(480, 480));
    assert!(b.can_place(BuildingKind::House, found, true, &g).is_ok());
}

#[test]
fn a_search_of_no_reach_tries_only_the_spot_itself() {
    let b = Buildings::new();
    let g = Geology::new();
    let not_here = |p: Point| p != at(500, 500);
    assert_eq!(find_site(&b, &g, BuildingKind::House, at(500, 500), Metres(0), 20, not_here), None);
}

#[test]
fn the_founding_party_is_the_size_it_was_set() {
    assert_eq!(SETTLERS, 143);
}

fn body(id: u32, mineral: Mineral, centre: Point, top: i64, tonnes: u64) -> Deposit {
    Deposit::new(DepositId(id), mineral, centre, Metres(300), Metres(top), vec![Layer::new(Metres(20), Tonnes(tonnes))])
}

#[test]
fn the_town_goes_on_the_shallowest_coal() {
    let mut g = Geology::new();
    g.insert(body(1, Mineral::Coal, at(1_000, 1_000), 80, 500_000));
    // Shallower, but it is oil.
    g.insert(body(2, Mineral::Oil, at(2_000, 2_000), 10, 500_000));
    g.insert(body(3, Mineral::Coal, at(3_000, 3_000), 40, 500_000));
    // Shallowest of all, and worked out.
    g.insert(body(4, Mineral::Coal, at(4_000, 4_000), 5, 0));
    // As shallow as body 3, with a higher id.
    g.insert(body(5, Mineral::Coal, at(5_000, 5_000), 40, 500_000));
    assert_eq!(town_site(&g, Metres(10_000)), at(3_000, 3_000));
}

#[test]
fn with_no_coal_the_town_goes_in_the_middle_of_the_map() {
    let mut g = Geology::new();
    g.insert(body(1, Mineral::Gravel, at(1_000, 1_000), 5, 500_000));
    assert_eq!(town_site(&g, Metres(10_000)), at(5_000, 5_000));
    assert_eq!(town_site(&Geology::new(), Metres(4_001)), at(2_000, 2_000));
}

/// A six-kilometre map from a seed, founded with `citizens` settlers on
/// ground that takes a building anywhere on it.
fn founded(seed: u64, citizens: usize) -> (Buildings, Vec<CitizenRecord>, StartingBase) {
    let extent = Metres(6_000);
    let geology = generate_geology(seed, extent, &default_plan());
    let mut buildings = Buildings::new();
    let mut people = red_republic_sim::citizen::Population::new();
    let on_map = |p: Point| p.x.0 >= 100 && p.y.0 >= 100 && p.x.0 <= 5_900 && p.y.0 <= 5_900;
    let base = found(&geology, &mut buildings, extent, 200, on_map, Some(at(5_800, 3_000)), citizens, &mut people);
    (buildings, people.records(), base)
}

#[test]
fn founding_is_reproducible() {
    let (a, people_a, base_a) = founded(1961, 60);
    let (b, people_b, base_b) = founded(1961, 60);
    assert_eq!(base_a, base_b);
    assert_eq!(a.all(), b.all());
    assert_eq!(people_a, people_b);
}

#[test]
fn a_founded_republic_has_people_with_homes_and_a_mine() {
    let (buildings, people, base) = founded(1961, 60);
    assert!(!base.housing.is_empty(), "nowhere to live");
    assert!(base.mine.is_some(), "no mine on the coal it was sited for");
    assert_eq!(people.len(), 60);
    for (i, citizen) in people.iter().enumerate() {
        assert!(buildings.get(citizen.home.0).is_some(), "a citizen lives in a building that is not there");
        assert_eq!(citizen.home.0, base.housing[i % base.housing.len()]);
        assert_eq!(citizen.age.0, 18 + (i % 40) as u32);
        assert_eq!(citizen.education(), Education::Schooled, "a settler of working age is schooled");
        assert_eq!(citizen.id.0, i as u32 + 1);
    }
    assert!(base.customs.is_some(), "no customs house at the post");
    // The grant: coal to light the plant.
    let plant = buildings.get(base.plant.expect("a power station")).unwrap();
    assert_eq!(plant.stock.get(Resource::Coal), Tonnes(60));
}

#[test]
fn a_reach_short_of_nothing_still_tries_the_spot_itself() {
    let b = Buildings::new();
    let g = Geology::new();
    assert_eq!(find_site(&b, &g, BuildingKind::House, at(500, 500), Metres(-5), 20, on_the_map), Some(at(500, 500)));
    assert_eq!(find_site(&b, &g, BuildingKind::House, at(500, 500), Metres(-20), 20, on_the_map), None);
}

#[test]
fn ground_that_takes_nothing_founds_nothing() {
    let extent = Metres(6_000);
    let geology = generate_geology(1961, extent, &default_plan());
    let mut buildings = Buildings::new();
    let mut people = red_republic_sim::citizen::Population::new();
    let base = found(&geology, &mut buildings, extent, 200, |_p: Point| false, Some(at(5_800, 3_000)), 60, &mut people);
    assert!(base.housing.is_empty());
    assert!(base.mine.is_none() && base.plant.is_none() && base.customs.is_none());
    assert!(buildings.all().is_empty());
    assert_eq!(people.count(), 0, "nobody settles where nothing stands");
}
