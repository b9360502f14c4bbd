use red_republic_sim::geology::Mineral;
use red_republic_sim::resource::{Form, Resource};

#[test]
fn extractable_resources_name_their_mineral() {
    assert_eq!(Resource::Coal.from_mineral(), Some(Mineral::Coal));
    assert_eq!(Resource::Gravel.from_mineral(), Some(Mineral::Gravel));
    assert_eq!(Resource::Steel.from_mineral(), None);
}

#[test]
fn every_resource_is_in_the_roster_exactly_once() {
    let mut sorted = Resource::all();
    sorted.sort();
    sorted.windows(2).for_each(|pair| {
        assert_ne!(pair[0], pair[1], "{:?} is listed twice", pair[0]);
    });
    for (index, resource) in Resource::all().into_iter().enumerate() {
        assert_eq!(resource.index(), index, "{resource:?} is out of place");
    }
}

#[test]
fn every_resource_has_a_name_and_a_form() {
    for r in Resource::all() {
        assert!(!r.name().is_empty(), "{r:?}");
        assert!(Form::all().contains(&r.form()), "{r:?}");
    }
}

#[test]
fn food_and_clothes_are_needs_not_comforts() {
    let comforts: Vec<Resource> = Resource::all().into_iter().filter(|r| r.is_comfort()).collect();
    assert!(!comforts.is_empty(), "nothing is a comfort");
    assert!(!Resource::Food.is_comfort(), "food is a need, not a treat");
    assert!(!Resource::Clothes.is_comfort(), "clothes are a need");
}

use red_republic_sim::resource::Stock;
use red_republic_sim::units::Tonnes;

#[test]
fn stock_holds_and_returns_what_was_put_in() {
    let mut s = Stock::empty();
    s.add(Resource::Coal, Tonnes(10));
    s.add(Resource::Coal, Tonnes(5));
    assert_eq!(s.get(Resource::Coal), Tonnes(15));
    assert_eq!(s.get(Resource::Steel), Tonnes(0));
}

#[test]
fn taking_more_than_is_there_returns_what_was_there() {
    let mut s = Stock::empty();
    s.add(Resource::Coal, Tonnes(3));
    assert_eq!(s.take(Resource::Coal, Tonnes(10)), Tonnes(3));
    assert_eq!(s.get(Resource::Coal), Tonnes(0));
    assert_eq!(s.take(Resource::Coal, Tonnes(1)), Tonnes(0));
}

#[test]
fn iteration_skips_empties_and_keeps_the_declared_order() {
    let mut s = Stock::empty();
    s.add(Resource::Machinery, Tonnes(1));
    s.add(Resource::Coal, Tonnes(2));
    let seen: Vec<Resource> = s.iter().into_iter().map(|(r, _)| r).collect();
    assert_eq!(seen, vec![Resource::Coal, Resource::Machinery]);
}

#[test]
fn a_stock_totals_what_it_holds_and_knows_when_it_is_empty() {
    let mut s = Stock::empty();
    assert!(s.is_empty());
    assert_eq!(s.total(), Tonnes(0));
    s.set(Resource::Waste, Tonnes(7));
    s.add(Resource::Food, Tonnes(5));
    assert!(!s.is_empty());
    assert_eq!(s.total(), Tonnes(12));
    s.take(Resource::Waste, Tonnes(7));
    s.take(Resource::Food, Tonnes(5));
    assert!(s.is_empty());
}

#[test]
fn every_resource_is_priced_on_both_sides_of_the_border() {
    for r in Resource::all() {
        assert!(r.price_east() > 0, "{r:?}");
        assert!(r.price_west() > 0, "{r:?}");
    }
}

#[test]
fn the_two_markets_price_differently() {
    for r in Resource::all() {
        assert_ne!(r.price_east(), r.price_west(), "{r:?}");
    }
}

#[test]
fn a_comfort_is_worth_selling_and_worth_keeping() {
    let comforts: Vec<Resource> = Resource::all().into_iter().filter(|r| r.is_comfort()).collect();
    assert!(!comforts.is_empty(), "nothing is a comfort");
    for r in comforts {
        assert!(r.price_west() > Resource::Steel.price_west(), "{r:?} is a comfort nobody would bother exporting");
    }
    assert!(!Resource::Food.is_comfort(), "food is a need, not a treat");
    assert!(!Resource::Clothes.is_comfort(), "clothes are a need");
}

#[test]
fn prices_are_kept_in_hundredths() {
    assert_eq!(Resource::Coal.price_east(), 250);
    assert_eq!(Resource::Waste.price_west(), 10);
    assert_eq!(Resource::Electronics.price_east(), 14_000);
}
