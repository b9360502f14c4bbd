use red_republic_sim::building::BuildingId;
use red_republic_sim::fleet::Destination;
use red_republic_sim::policy::BuildPolicy;
use red_republic_sim::resource::Resource;
use red_republic_sim::roadworks::RoadSiteId;
use red_republic_sim::trade::CrossingId;
use red_republic_sim::units::Tonnes;

fn site(n: u32) -> Destination {
    Destination::Building(BuildingId(n))
}

#[test]
fn nothing_is_imported_until_a_post_is_named() {
    let policy = BuildPolicy::new();
    assert_eq!(policy.global(), None);
    assert_eq!(policy.crossing_for(site(1)), None);
}

#[test]
fn a_site_can_opt_out_of_a_republic_that_imports() {
    let mut policy = BuildPolicy::new();
    policy.set_global(Some(CrossingId(2)));
    assert_eq!(policy.crossing_for(site(1)), Some(CrossingId(2)));

    policy.set_site(site(1), None);
    assert_eq!(policy.crossing_for(site(1)), None, "opted out");
    assert_eq!(
        policy.crossing_for(site(9)),
        Some(CrossingId(2)),
        "and only this one"
    );
    assert!(policy.is_overridden(site(1)));

    assert!(policy.clear_site(site(1)));
    assert_eq!(policy.crossing_for(site(1)), Some(CrossingId(2)));
    assert!(
        !policy.clear_site(site(1)),
        "there was nothing left to clear"
    );
}

#[test]
fn a_site_can_import_through_a_different_post_from_the_rest() {
    let mut policy = BuildPolicy::new();
    policy.set_global(Some(CrossingId(1)));
    policy.set_site(site(4), Some(CrossingId(3)));
    assert_eq!(policy.crossing_for(site(4)), Some(CrossingId(3)));
    assert_eq!(policy.overrides(), 1);

    policy.forget(site(4));
    assert_eq!(policy.overrides(), 0);
    assert_eq!(policy.crossing_for(site(4)), Some(CrossingId(1)));
}

#[test]
fn a_bill_is_bought_once() {
    let mut policy = BuildPolicy::new();
    assert_eq!(policy.allowance(site(1), Resource::Bricks, Tonnes(6)), Tonnes(6));
    policy.record_bought(site(1), Resource::Bricks, Tonnes(4));
    assert_eq!(policy.bought_for(site(1), Resource::Bricks), Tonnes(4));
    assert_eq!(policy.allowance(site(1), Resource::Bricks, Tonnes(6)), Tonnes(2));
    policy.record_bought(site(1), Resource::Bricks, Tonnes(2));
    assert_eq!(policy.allowance(site(1), Resource::Bricks, Tonnes(6)), Tonnes(0));
    assert_eq!(policy.allowance(site(1), Resource::Bricks, Tonnes(5)), Tonnes(0), "never negative");
    assert_eq!(policy.allowance(site(1), Resource::Steel, Tonnes(6)), Tonnes(6), "another resource");
    assert_eq!(policy.allowance(site(2), Resource::Bricks, Tonnes(6)), Tonnes(6), "another site");
}

#[test]
fn forgetting_a_site_clears_its_accounts_and_no_one_elses() {
    let mut policy = BuildPolicy::new();
    let road = Destination::RoadSite(RoadSiteId(1));
    policy.record_bought(site(1), Resource::Bricks, Tonnes(4));
    policy.record_bought(site(1), Resource::Waste, Tonnes(1));
    policy.record_bought(road, Resource::Gravel, Tonnes(9));
    policy.record_bought(site(2), Resource::Bricks, Tonnes(3));
    policy.forget(site(1));
    assert_eq!(policy.bought_for(site(1), Resource::Bricks), Tonnes(0));
    assert_eq!(policy.bought_for(site(1), Resource::Waste), Tonnes(0));
    assert_eq!(policy.bought_for(road, Resource::Gravel), Tonnes(9));
    assert_eq!(policy.bought_for(site(2), Resource::Bricks), Tonnes(3));
}

#[test]
fn a_road_site_and_a_building_with_the_same_number_are_different_sites() {
    let mut policy = BuildPolicy::new();
    policy.set_site(Destination::RoadSite(RoadSiteId(1)), Some(CrossingId(5)));
    assert_eq!(policy.crossing_for(site(1)), None);
    assert_eq!(
        policy.crossing_for(Destination::RoadSite(RoadSiteId(1))),
        Some(CrossingId(5))
    );
}
