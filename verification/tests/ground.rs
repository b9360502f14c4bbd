use red_republic_sim::ground::{
    cells_for, going, sample_point, Crossing, Ground, Lattice, Surface, MIN_TRACK_CELLS, PROMOTE_AT,
    WEAR_PER_PASS,
};
use red_republic_sim::units::{Metres, Point};

fn at(x: i64, y: i64) -> Point {
    Point::new(Metres(x), Metres(y))
}

/// A lattice for a map `extent` metres across, every sample of a cell read as
/// `surface(cx, cy)`.
fn lattice(extent: i64, surface: impl Fn(u32, u32) -> Option<Surface>) -> Lattice {
    let cells = cells_for(Metres(extent));
    let mut samples = Vec::new();
    for cy in 0..cells {
        for cx in 0..cells {
            for sy in 0..5 {
                for sx in 0..5 {
                    let _spot = sample_point(cx, cy, sx, sy);
                    samples.push(surface(cx, cy));
                }
            }
        }
    }
    Lattice::from_samples(Metres(extent), &samples)
}

fn grass(extent: i64) -> Lattice {
    lattice(extent, |_, _| Some(Surface::Grass))
}

#[test]
fn a_frozen_bog_is_a_road() {
    let soaked_and_frozen = Ground { moisture: 1000, water: 1000, snow: 1000, frost: 1000 };
    assert_eq!(soaked_and_frozen.softness(), 0);
    let soaked_and_thawed = Ground { frost: 0, ..soaked_and_frozen };
    assert_eq!(soaked_and_thawed.softness(), 1000);
}

#[test]
fn dry_ground_is_firm_whatever_the_season() {
    let dry = Ground { moisture: 0, water: 0, snow: 0, frost: 0 };
    assert_eq!(dry.softness(), 0);
}

#[test]
fn rock_stays_firm_when_grass_turns_to_mud() {
    let wet = Ground { moisture: 1000, water: 1000, snow: 0, frost: 0 };
    assert_eq!(wet.going_on(Surface::Grass), 1000);
    assert!(wet.going_on(Surface::Rock) < 500);
    assert!(wet.going_on(Surface::Forest) >= wet.going_on(Surface::Grass));
    assert_eq!(wet.going_on(Surface::Water), 1000, "water is impassable");
}

#[test]
fn snow_lies_below_freezing_and_runs_into_the_ground_above_it() {
    let mut g = Ground::founding();
    // Five degrees of frost and ten millimetres of snow.
    g.advance(-50, 100);
    assert_eq!(g.snow, 100);
    assert_eq!(g.moisture, 500, "nothing reaches frozen topsoil");
    // The air would freeze it to 625 thousandths; the soil closes 12% of the gap.
    assert_eq!(g.frost, 339);
    // Two degrees above freezing melts five millimetres into the topsoil.
    g.advance(20, 0);
    assert_eq!(g.snow, 50);
    assert_eq!(g.moisture, 625);
    assert_eq!(g.water, 531);
}

#[test]
fn a_warm_dry_day_dries_the_ground() {
    let mut g = Ground { moisture: 500, water: 500, snow: 0, frost: 0 };
    g.advance(150, 0);
    assert_eq!(g.moisture, 400);
    assert_eq!(g.water, 488);
    assert_eq!(g.snow, 0);
}

#[test]
fn a_forecast_is_what_the_next_days_will_actually_do() {
    let weather = [(-30i64, 40u64), (-10, 0), (25, 80), (60, 0), (120, 0), (-5, 10)];
    let mut lived = Ground::founding();
    for &(t, r) in weather.iter() {
        lived.advance(t, r);
    }
    let before = Ground::founding();
    let forecast = before.forecast(&weather);
    assert_eq!(forecast, lived, "the forecast was not what happened");
    assert_eq!(before, Ground::founding(), "forecasting changed the ground");
}

#[test]
fn each_surface_has_its_going() {
    assert_eq!(going(Surface::Grass), Some(1000));
    assert_eq!(going(Surface::Forest), Some(1300));
    assert_eq!(going(Surface::Rock), Some(350));
    assert_eq!(going(Surface::Water), None);
}

#[test]
fn a_cell_a_quarter_water_is_water() {
    let cells = cells_for(Metres(100));
    assert_eq!(cells, 1);
    // Seven of twenty-five samples wet drowns the cell; six does not.
    let mut samples: Vec<Option<Surface>> = vec![Some(Surface::Grass); 25];
    for s in samples.iter_mut().take(6) {
        *s = Some(Surface::Water);
    }
    let l = Lattice::from_samples(Metres(100), &samples);
    let c = Crossing { lattice: &l, softness: 1000 };
    assert_eq!(c.going_in(0), Some(1000));
    samples[6] = None;
    let l = Lattice::from_samples(Metres(100), &samples);
    let c = Crossing { lattice: &l, softness: 1000 };
    assert_eq!(c.going_in(0), None);
    assert_eq!(c.drag_in(0), None);
}

#[test]
fn a_cell_is_the_mean_of_what_it_stands_on() {
    let mut samples: Vec<Option<Surface>> = vec![Some(Surface::Grass); 25];
    for s in samples.iter_mut().take(5) {
        *s = Some(Surface::Rock);
    }
    let l = Lattice::from_samples(Metres(100), &samples);
    let c = Crossing { lattice: &l, softness: 1000 };
    // (20 x 1000 + 5 x 350) / 25 = 870.
    assert_eq!(c.going_in(0), Some(870));
    assert_eq!(c.drag_in(0), Some(2740));
}

#[test]
fn cells_are_found_and_centred() {
    let l = grass(1_000);
    assert_eq!(l.cells(), 10);
    assert_eq!(l.cell_size(), Metres(100));
    assert_eq!(l.cell_of(at(250, 130)), Some(12));
    assert_eq!(l.cell_of(at(-1, 130)), None);
    assert_eq!(l.cell_of(at(1_000, 0)), None);
    assert_eq!(l.centre_of(12), at(250, 150));
}

#[test]
fn neighbours_come_in_a_fixed_order_and_stop_at_the_edge() {
    let l = grass(300);
    assert_eq!(l.neighbours(4), vec![0, 1, 2, 3, 5, 6, 7, 8]);
    assert_eq!(l.neighbours(0), vec![1, 3, 4]);
    assert_eq!(l.neighbours(8), vec![4, 5, 7]);
}

#[test]
fn wear_is_capped_and_fades() {
    let mut l = grass(300);
    l.wear_in(4, 600);
    l.wear_in(4, 600);
    assert_eq!(l.wear_at(4), 1_000);
    l.wear_in(3, i64::from(WEAR_PER_PASS));
    l.fade(30);
    assert_eq!(l.wear_at(4), 970);
    assert_eq!(l.wear_at(3), 0);
    l.wear_in(4, -2_000);
    assert_eq!(l.wear_at(4), 0);
}

#[test]
fn worn_cells_come_back_in_index_order() {
    let mut l = grass(300);
    for cell in [7, 2, 5] {
        l.wear_in(cell, 900);
    }
    assert_eq!(l.worn_beyond(PROMOTE_AT), vec![2, 5, 7]);
    assert_eq!(l.worn_beyond(950), Vec::<usize>::new());
}

#[test]
fn a_straight_run_meets_each_cell_once() {
    let l = grass(1_000);
    assert_eq!(l.cells_along(at(50, 50), at(350, 50)), vec![0, 1, 2, 3]);
    assert_eq!(l.cells_along(at(50, 50), at(50, 50)), vec![0]);
}

#[test]
fn a_worn_corridor_is_a_track_and_a_yard_is_not() {
    let mut l = grass(1_000);
    // A corridor of four along the top row, and a yard of two elsewhere.
    for cell in [0, 1, 2, 3, 55, 66] {
        l.wear_in(cell, 900);
    }
    let tracks = l.tracks_beyond(PROMOTE_AT);
    assert_eq!(tracks, vec![vec![0, 1, 2, 3]]);
    assert!(tracks[0].len() >= MIN_TRACK_CELLS);
    // Joined diagonally, the yard grows into a third run.
    l.wear_in(77, 900);
    assert_eq!(l.tracks_beyond(PROMOTE_AT), vec![vec![0, 1, 2, 3], vec![55, 66, 77]]);
}

#[test]
fn going_and_drag_follow_the_softness_and_the_wear() {
    let mut l = grass(300);
    l.wear_in(1, 1_000);
    let c = Crossing { lattice: &l, softness: 500 };
    assert_eq!(c.going_in(0), Some(500));
    // A made track takes four fifths of the going away.
    assert_eq!(c.going_in(1), Some(100));
    assert_eq!(c.drag_in(0), Some(2_000));
    assert_eq!(c.going_at(at(-5, -5)), 1_000);
    assert_eq!(c.going_at(at(150, 50)), 100);
}

#[test]
fn firm_ground_is_crossed_in_a_straight_line() {
    let l = grass(2_000);
    let c = Crossing { lattice: &l, softness: 300 };
    assert_eq!(c.route(at(50, 50), at(1_850, 1_250)), Some(vec![at(50, 50), at(1_850, 1_250)]));
    assert!(c.is_clear(at(50, 50), at(1_850, 1_250)));
    assert_eq!(c.drag_along(at(50, 50), at(1_850, 50)), 1_600);
    assert_eq!(c.going_along(at(50, 50), at(1_850, 50)), 300);
    assert_eq!(c.profile_along(at(50, 50), at(1_850, 50)), Some((1_600, 1_600, 1_600)));
}

#[test]
fn a_lake_is_driven_round() {
    // A wall of water down the middle column, open only on the bottom row.
    let l = lattice(500, |cx, cy| if cx == 2 && cy < 4 { Some(Surface::Water) } else { Some(Surface::Grass) });
    let c = Crossing { lattice: &l, softness: 500 };
    let from = at(50, 50);
    let to = at(450, 50);
    assert!(!c.is_clear(from, to));
    assert_eq!(c.profile_along(from, to), None);
    let path = c.route(from, to).expect("there is a way round");
    assert_eq!(path[0], from);
    assert_eq!(*path.last().unwrap(), to);
    assert!(path.len() > 2);
    // Every waypoint stands on crossable ground, and the way goes through the gap.
    for p in &path {
        let cell = l.cell_of(*p).unwrap();
        assert!(c.drag_in(cell).is_some(), "{p:?} is in the lake");
    }
    assert!(path.iter().any(|p| l.cell_of(*p) == Some(22)), "{path:?}");
}

#[test]
fn the_far_side_of_a_lake_cannot_be_reached() {
    let l = lattice(500, |cx, _| if cx == 2 { Some(Surface::Water) } else { Some(Surface::Grass) });
    let c = Crossing { lattice: &l, softness: 500 };
    assert_eq!(c.route(at(50, 50), at(450, 450)), None);
    assert_eq!(c.route(at(50, 50), at(250, 250)), None, "the goal is in the lake");
    assert_eq!(c.route(at(-50, 50), at(150, 150)), None, "the start is off the map");
    assert_eq!(c.route(at(50, 50), at(150, 450)), Some(vec![at(50, 50), at(150, 450)]));
}

#[test]
fn a_clear_line_through_mud_gives_way_to_firm_ground_only_when_much_dearer() {
    // A strip of grass turned to mud along row 1, rock everywhere else.
    let l = lattice(700, |cx, cy| if cy == 1 && (1..=5).contains(&cx) { Some(Surface::Grass) } else { Some(Surface::Rock) });
    let from = at(50, 150);
    let to = at(650, 150);
    let wet = Crossing { lattice: &l, softness: 1_000 };
    assert!(wet.is_clear(from, to));
    let path = wet.route(from, to).expect("rock all round");
    assert!(path.len() > 2, "the rock beside the mud is far cheaper: {path:?}");
    for p in &path[1..path.len() - 1] {
        assert_ne!(l.cell_of(*p).unwrap() / 7, 1, "{p:?} is in the mud");
    }
    // On a dry day every cell is as good as any other, and the line is straight.
    let dry = Crossing { lattice: &l, softness: 0 };
    assert_eq!(dry.route(from, to), Some(vec![from, to]));
}
