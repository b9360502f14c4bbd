use red_republic_sim::building::{BuildingId, BuildingKind, Buildings};
use red_republic_sim::citizen::{
    assign_labour, birthday, can_work, commute_distance, is_reachable, stage, walking_speed, Age, CitizenId,
    Education, HomeCensus, Learning, LifeStage, Home, Population, Workplace, MAX_WALK,
};
use red_republic_sim::geology::{Deposit, DepositId, Geology, Layer, Mineral};
use red_republic_sim::units::Tonnes;
use red_republic_sim::network::{default_road_speed, Network};
use red_republic_sim::units::{Metres, Point, Speed};

fn at(x: i64, y: i64) -> Point {
    Point::new(Metres(x), Metres(y))
}

#[test]
fn schooling_adds_up_to_an_education() {
    assert_eq!(Learning::none().attainment(), Education::Unschooled);
    assert_eq!(Learning::schooled().attainment(), Education::Schooled);
    let graduate = Learning { days: 1_800 + 1_080, studying: false };
    assert_eq!(graduate.attainment(), Education::Graduate);
    assert!(Education::Graduate > Education::Schooled);
}

#[test]
fn a_student_is_of_working_age_and_not_working() {
    let studying = Learning { days: 1_900, studying: true };
    assert!(!can_work(Age(20), studying));
    assert_eq!(stage(Age(20), studying), LifeStage::Student);
    assert!(can_work(Age(20), Learning::schooled()));
    assert_eq!(stage(Age(3), Learning::none()), LifeStage::Infant);
    assert_eq!(stage(Age(10), Learning::none()), LifeStage::Pupil);
    assert_eq!(stage(Age(59), Learning::schooled()), LifeStage::Worker);
    assert_eq!(stage(Age(60), Learning::schooled()), LifeStage::Retired);
    assert!(!can_work(Age(60), Learning::schooled()));
    assert!(!can_work(Age(15), Learning::schooled()));
}

#[test]
fn every_stage_and_level_has_a_name() {
    for s in LifeStage::all() {
        assert!(!s.name().is_empty());
    }
    for e in Education::all() {
        assert!(!e.name().is_empty());
    }
    assert_eq!(LifeStage::Worker.name(), "Workers");
}

#[test]
fn birthdays_are_spread_over_the_year() {
    assert_eq!(birthday(CitizenId(5)), 5);
    assert_eq!(birthday(CitizenId(365)), 5);
    assert_ne!(birthday(CitizenId(1)), birthday(CitizenId(2)));
    let _ = Home(BuildingId(1));
}

#[test]
fn roads_shorten_a_commute_but_never_lengthen_one() {
    let mut roads = Network::new();
    let a = roads.add_node(at(0, 0));
    let b = roads.add_node(at(5_000, 0));
    roads.connect(a, b, default_road_speed());

    let home = at(10, 10);
    let work = at(4_990, 10);
    let straight = home.distance_to(work);
    assert!(commute_distance(home, work, &roads).0 <= straight.0);

    let wild_a = at(0, 9_000);
    let wild_b = at(500, 9_000);
    assert_eq!(commute_distance(wild_a, wild_b, &roads), wild_a.distance_to(wild_b));
}

#[test]
fn a_commute_past_the_walking_limit_is_out_of_reach() {
    let roads = Network::new();
    assert!(is_reachable(at(0, 0), at(MAX_WALK, 0), &roads));
    assert!(!is_reachable(at(0, 0), at(MAX_WALK + 1, 0), &roads));
    assert_eq!(walking_speed(), Speed::from_kph(5));
}

fn coal_at(centre: Point) -> Geology {
    let mut g = Geology::new();
    g.insert(Deposit::new(DepositId(1), Mineral::Coal, centre, Metres(200), Metres(30), vec![Layer::new(Metres(10), Tonnes(1_000))]));
    g
}

#[test]
fn only_working_age_citizens_take_jobs() {
    let g = Geology::new();
    let mut b = Buildings::new();
    let home = b.place_built(BuildingKind::Apartment, at(1_000, 1_000), true, &g).unwrap();
    let mill = b.place_built(BuildingKind::Sawmill, at(1_100, 1_000), true, &g).unwrap();

    let mut p = Population::new();
    p.spawn_citizen(home, 8);
    p.spawn_citizen(home, 70);
    for _ in 0..4 {
        p.spawn_citizen(home, 30);
    }

    let labour = assign_labour(&mut p, &b, &Network::new());
    assert_eq!(labour.staffing, vec![(mill, 4)]);
    assert_eq!(p.employed(), 4);
}

#[test]
fn a_mine_out_of_walking_range_gets_no_one() {
    let far = at(9_000, 9_000);
    let g = coal_at(far);
    let mut b = Buildings::new();
    let home = b.place_built(BuildingKind::Apartment, at(1_000, 1_000), true, &g).unwrap();
    let mine = b.place_built(BuildingKind::CoalMine, far, true, &g).unwrap();

    let mut p = Population::new();
    for _ in 0..48 {
        p.spawn_citizen(home, 30);
    }

    let labour = assign_labour(&mut p, &b, &Network::new());
    assert_eq!(labour.staffing, vec![(mine, 0)], "the old model would have staffed it");
    assert_eq!(p.employed(), 0);
}

#[test]
fn housing_beside_the_mine_staffs_it() {
    let far = at(9_000, 9_000);
    let g = coal_at(far);
    let mut b = Buildings::new();
    let mine = b.place_built(BuildingKind::CoalMine, far, true, &g).unwrap();
    let camp = b.place_built(BuildingKind::Apartment, at(9_300, 9_000), true, &g).unwrap();

    let mut p = Population::new();
    for _ in 0..20 {
        p.spawn_citizen(camp, 30);
    }

    let labour = assign_labour(&mut p, &b, &Network::new());
    assert_eq!(labour.staffing, vec![(mine, 14)], "a mining town staffs its mine");
}

#[test]
fn a_mining_town_dies_when_its_work_does() {
    let far = at(9_000, 9_000);
    let mut g = coal_at(far);
    let mut b = Buildings::new();
    let mine = b.place_built(BuildingKind::CoalMine, far, true, &g).unwrap();
    let camp = b.place_built(BuildingKind::Apartment, at(9_300, 9_000), true, &g).unwrap();
    let city = b.place_built(BuildingKind::Apartment, at(1_000, 1_000), true, &g).unwrap();
    let city_mill = b.place_built(BuildingKind::Sawmill, at(1_200, 1_000), true, &g).unwrap();

    let mut p = Population::new();
    for _ in 0..20 {
        p.spawn_citizen(camp, 30);
    }
    for _ in 0..10 {
        p.spawn_citizen(city, 30);
    }

    let roads = Network::new();
    assign_labour(&mut p, &b, &roads);
    assert_eq!(p.staff_of(mine), 14, "the town works its mine");

    g.get_mut(DepositId(1)).unwrap().extract(Tonnes(1_000));
    assert!(g.get(DepositId(1)).unwrap().is_exhausted());
    b.demolish(mine);

    assign_labour(&mut p, &b, &roads);
    let stranded = p.residents_of(camp);
    assert_eq!(stranded.len(), 20, "they still live there");
    assert!(stranded.iter().all(|c| c.workplace.0.is_none()), "the town should have no work within reach");
    assert_eq!(p.staff_of(city_mill), 6);
    assert!(
        p.records().iter().filter(|c| c.workplace.0 == Some(city_mill)).all(|c| c.home.0 == city),
        "the mining town cannot commute to the city's work"
    );
}

#[test]
fn assignment_is_reproducible() {
    let g = Geology::new();
    let mut b = Buildings::new();
    let home = b.place_built(BuildingKind::Apartment, at(1_000, 1_000), true, &g).unwrap();
    b.place_built(BuildingKind::Sawmill, at(1_150, 1_000), true, &g).unwrap();
    b.place_built(BuildingKind::Brickworks, at(1_000, 1_150), true, &g).unwrap();

    let build = || {
        let mut p = Population::new();
        for _ in 0..30 {
            p.spawn_citizen(home, 30);
        }
        p
    };
    let (mut first, mut second) = (build(), build());
    let a = assign_labour(&mut first, &b, &Network::new());
    let c = assign_labour(&mut second, &b, &Network::new());
    assert_eq!(a, c);
    assert_eq!(first.records(), second.records());
}

#[test]
fn a_citizen_whose_home_was_demolished_holds_no_job() {
    let g = Geology::new();
    let mut b = Buildings::new();
    let home = b.place_built(BuildingKind::Apartment, at(1_000, 1_000), true, &g).unwrap();
    b.place_built(BuildingKind::Sawmill, at(1_100, 1_000), true, &g).unwrap();

    let mut p = Population::new();
    for _ in 0..6 {
        p.spawn_citizen(home, 30);
    }
    assign_labour(&mut p, &b, &Network::new());
    assert_eq!(p.employed(), 6);

    b.demolish(home);
    assign_labour(&mut p, &b, &Network::new());
    assert_eq!(p.employed(), 0, "nobody commutes from a building that is gone");
}

#[test]
fn the_single_pass_counters_agree_with_walking_every_record() {
    let mut b = Buildings::new();
    let g = coal_at(at(1_000, 1_000));
    let home = b.place_built(BuildingKind::Apartment, at(1_000, 1_100), true, &g).expect("housing");
    let mine = b.place_built(BuildingKind::CoalMine, at(1_000, 1_000), true, &g).expect("a mine on the deposit");

    let mut p = Population::new();
    for i in 0..12 {
        p.spawn_citizen(home, 20 + i);
    }
    let labour = assign_labour(&mut p, &b, &Network::new());
    assert_eq!(labour.staffing, vec![(mine, p.staff_of(mine))]);

    let records = p.records();
    assert_eq!(p.count(), records.len());
    assert_eq!(p.employed(), records.iter().filter(|c| c.workplace.0.is_some()).count());
    assert_eq!(p.staff_of(mine), records.iter().filter(|c| c.workplace.0 == Some(mine)).count() as u32);
    assert!(p.employed() > 0, "nobody was hired, so this proved nothing");
}

#[test]
fn the_nearest_are_hired_first_and_a_crew_is_the_cap() {
    let g = Geology::new();
    let mut b = Buildings::new();
    let near = b.place_built(BuildingKind::Apartment, at(1_000, 1_060), true, &g).unwrap();
    let far = b.place_built(BuildingKind::Apartment, at(1_000, 1_600), true, &g).unwrap();
    let mill = b.place_built(BuildingKind::Sawmill, at(1_000, 1_000), true, &g).unwrap();

    let mut p = Population::new();
    let mut distant = Vec::new();
    for _ in 0..4 {
        distant.push(p.spawn_citizen(far, 30));
    }
    for _ in 0..4 {
        p.spawn_citizen(near, 30);
    }
    let labour = assign_labour(&mut p, &b, &Network::new());
    assert_eq!(labour.staffing, vec![(mill, 6)]);
    assert!(p.records().iter().filter(|c| c.home.0 == near).all(|c| c.workplace.0 == Some(mill)));
    let hired_far: Vec<CitizenId> = p.records().iter().filter(|c| c.home.0 == far && c.workplace.0.is_some()).map(|c| c.id).collect();
    assert_eq!(hired_far, vec![distant[0], distant[1]], "ties go to the lower id");
}

#[test]
fn an_old_post_is_cleared_when_the_workplace_goes() {
    let g = Geology::new();
    let mut b = Buildings::new();
    let home = b.place_built(BuildingKind::Apartment, at(1_000, 1_000), true, &g).unwrap();
    let mill = b.place_built(BuildingKind::Sawmill, at(1_100, 1_000), true, &g).unwrap();
    let mut p = Population::new();
    let id = p.spawn_citizen(home, 30);
    assign_labour(&mut p, &b, &Network::new());
    assert_eq!(p.records()[0].workplace, Workplace(Some(mill)));
    b.demolish(mill);
    let labour = assign_labour(&mut p, &b, &Network::new());
    assert!(labour.staffing.is_empty());
    assert_eq!(p.records()[0].id, id);
    assert_eq!(p.records()[0].workplace, Workplace(None));
}

#[test]
fn citizens_are_stored_and_come_back_in_id_order() {
    let mut p = Population::new();
    let a = p.spawn_citizen(BuildingId(1), 30);
    let b = p.spawn_citizen(BuildingId(1), 40);
    assert_eq!(p.count(), 2);
    let ids: Vec<_> = p.records().iter().map(|c| c.id).collect();
    assert_eq!(ids, vec![a, b]);
}

#[test]
fn order_survives_deaths_and_births() {
    let mut p = Population::new();
    let ids: Vec<_> = (0..6).map(|i| p.spawn_citizen(BuildingId(1), 20 + i)).collect();
    assert!(p.remove(ids[2]));
    assert!(p.remove(ids[0]));
    let fresh = p.spawn_citizen(BuildingId(1), 25);

    let seen: Vec<_> = p.records().iter().map(|c| c.id).collect();
    let mut expected = vec![ids[1], ids[3], ids[4], ids[5], fresh];
    expected.sort();
    assert_eq!(seen, expected);
    assert!(!p.remove(ids[0]), "removing twice is not a second success");
}

#[test]
fn a_census_counts_stages_and_schooling() {
    let mut p = Population::new();
    p.spawn_citizen(BuildingId(1), 3);
    p.spawn_citizen(BuildingId(1), 10);
    p.spawn_citizen(BuildingId(2), 30);
    p.spawn_citizen(BuildingId(2), 70);
    assert_eq!(p.by_stage(), [1, 1, 0, 1, 1]);
    assert_eq!(p.by_education(), [2, 2, 0]);
    let r = p.records()[2];
    assert!(r.can_work());
    assert_eq!(r.stage(), LifeStage::Worker);
    assert_eq!(r.education(), Education::Schooled);
    assert_eq!(r.birthday(), 3);
    assert_eq!(p.residents_of(BuildingId(2)).len(), 2);
}

#[test]
fn a_home_census_counts_each_home_in_one_walk() {
    let mut p = Population::new();
    p.spawn_citizen(BuildingId(4), 8);
    p.spawn_citizen(BuildingId(4), 25);
    p.spawn_citizen(BuildingId(4), 70);
    p.spawn_citizen(BuildingId(9), 30);
    let by_home = p.residents_by_home();
    assert_eq!(by_home.get(&4), Some(&3));
    assert_eq!(by_home.get(&9), Some(&1));
    assert_eq!(by_home.get(&5), None);
    let census = p.census_by_home();
    assert_eq!(
        census.get(&4),
        Some(&HomeCensus { residents: 3, working_age: 1, employed: 0, pupils: 1, fertile: 1 })
    );
    assert_eq!(
        census.get(&9),
        Some(&HomeCensus { residents: 1, working_age: 1, employed: 0, pupils: 0, fertile: 1 })
    );
    assert_eq!(census.len(), 2);
}
