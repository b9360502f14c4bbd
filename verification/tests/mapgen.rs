use red_republic_sim::geology::{Geology, Mineral};
use red_republic_sim::mapgen::{default_plan, generate_geology};
use red_republic_sim::units::{Metres, Point};

const EXTENT: Metres = Metres(10_000);

fn generate(seed: u64) -> Geology {
    generate_geology(seed, EXTENT, &default_plan())
}

#[test]
fn the_same_seed_generates_the_same_ground() {
    assert_eq!(generate(1961), generate(1961));
}

#[test]
fn different_seeds_generate_different_ground() {
    assert_ne!(generate(1961), generate(1962));
}

#[test]
fn every_planned_body_is_placed() {
    let g = generate(7);
    let expected: u32 = default_plan().iter().map(|p| p.bodies).sum();
    assert_eq!(g.all().len(), expected as usize);
    for entry in &default_plan() {
        let placed = g.all().iter().filter(|d| d.mineral == entry.mineral).count();
        assert_eq!(placed, entry.bodies as usize, "{:?}", entry.mineral);
    }
}

#[test]
fn deposit_ids_are_unique() {
    let g = generate(11);
    let mut ids: Vec<_> = g.all().iter().map(|d| d.id).collect();
    ids.sort();
    let before = ids.len();
    ids.dedup();
    assert_eq!(ids.len(), before);
}

#[test]
fn every_body_respects_its_plan() {
    let g = generate(2024);
    let plan = default_plan();
    for d in g.all() {
        let entry = plan.iter().find(|p| p.mineral == d.mineral).expect("every generated mineral is planned");
        assert!((0..EXTENT.0).contains(&d.centre.x.0));
        assert!((0..EXTENT.0).contains(&d.centre.y.0));
        assert!((entry.radius.0 .0..entry.radius.1 .0).contains(&d.radius.0));
        assert!((entry.top.0 .0..entry.top.1 .0).contains(&d.top.0));
        assert_eq!(d.layers.len(), entry.layers as usize);
        for layer in &d.layers {
            assert!((entry.layer_thickness.0 .0..entry.layer_thickness.1 .0).contains(&layer.thickness.0));
            assert!((entry.tonnes_per_layer.0 .0..entry.tonnes_per_layer.1 .0).contains(&layer.initial.0));
            assert_eq!(layer.remaining, layer.initial, "a fresh map is untouched");
        }
    }
}

#[test]
fn a_generated_map_can_be_asked_what_it_holds() {
    let g = generate(1961);
    for mineral in Mineral::all() {
        assert!(g.remaining_of(mineral).is_positive(), "{mineral:?} was planned but the map holds none");
    }
}

#[test]
fn distance_to_coal_from_the_map_centre_varies_by_seed() {
    let centre = Point::new(Metres(EXTENT.0 / 2), Metres(EXTENT.0 / 2));
    let distances: Vec<i64> = (0..40)
        .map(|seed| generate(seed).distance_to_nearest(centre, Mineral::Coal).expect("coal is always planned").0)
        .collect();
    let min = *distances.iter().min().unwrap();
    let max = *distances.iter().max().unwrap();
    assert!(max - min > 1_000, "coal distance spanned only {} m across 40 seeds", max - min);
}

#[test]
fn generated_ground_is_pinned_across_machines() {
    let g = generate(1961);
    // FNV-1a over the field values, in a fixed order, each as the eight
    // little-endian bytes of a whole number.
    let mut h: u64 = 0xcbf2_9ce4_8422_2325;
    let mut eat = |x: i64| {
        for byte in x.to_le_bytes() {
            h ^= u64::from(byte);
            h = h.wrapping_mul(0x1000_0000_01b3);
        }
    };
    for d in g.all() {
        eat(i64::from(d.id.0));
        eat(d.centre.x.0);
        eat(d.centre.y.0);
        eat(d.radius.0);
        eat(d.top.0);
        for layer in &d.layers {
            eat(layer.thickness.0);
            eat(layer.initial.0 as i64);
        }
    }
    assert_eq!(h, 4_225_876_905_872_167_073);
}
