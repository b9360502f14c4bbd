use red_republic_sim::units::{isqrt_u128, lerp_exec, Metres, Point, Seconds, Speed, Tonnes};

/// The arithmetic the simulation was first written in is not associative, and
/// the compiler must not pretend otherwise.
#[test]
fn float_addition_is_not_reassociated() {
    let (a, b, c) = (1e16_f64, -1e16_f64, 1.0_f64);
    assert_eq!((a + b) + c, 1.0, "left grouping must keep the 1.0");
    assert_eq!(a + (b + c), 0.0, "right grouping must round the 1.0 away");
}

#[test]
fn a_distance_is_the_floor_of_the_true_one() {
    let o = Point::origin();
    assert_eq!(o.distance_to(Point::new(Metres(3), Metres(4))), Metres(5));
    assert_eq!(o.distance_to(Point::new(Metres(1), Metres(1))), Metres(1));
    assert_eq!(Point::new(Metres(-300), Metres(0)).distance_to(Point::new(Metres(300), Metres(800))), Metres(1_000));
    assert_eq!(o.distance_to(o), Metres::zero());
}

#[test]
fn square_roots_round_down() {
    assert_eq!(isqrt_u128(0), 0);
    assert_eq!(isqrt_u128(15), 3);
    assert_eq!(isqrt_u128(16), 4);
    assert_eq!(isqrt_u128(u64::MAX as u128 * u64::MAX as u128), u64::MAX);
}

#[test]
fn a_speed_covers_its_distance_in_the_time_it_implies() {
    // 15 km/h covers 250 m in exactly a minute.
    assert_eq!(Speed::from_kph(15).time_to_cover(Metres(250)), Seconds::from_secs(60));
    assert_eq!(Speed::zero().time_to_cover(Metres(1)).millis, u64::MAX);
    assert_eq!(Seconds::from_secs(150).whole_minutes(), 2);
}

#[test]
fn interpolation_runs_from_one_end_to_the_other() {
    assert_eq!(lerp_exec(0, 1_000, 0, 10), 0);
    assert_eq!(lerp_exec(0, 1_000, 5, 10), 500);
    assert_eq!(lerp_exec(1_000, 0, 5, 10), 500);
    assert_eq!(lerp_exec(-7, 9, 10, 10), 9);
}

#[test]
fn tonnes_never_go_below_nothing() {
    assert_eq!(Tonnes(3).saturating_sub(Tonnes(5)), Tonnes::zero());
    assert_eq!(Tonnes(5).saturating_sub(Tonnes(3)), Tonnes(2));
    assert_eq!(Tonnes(5).min(Tonnes(3)), Tonnes(3));
    assert!(Tonnes(1).is_positive() && !Tonnes(0).is_positive());
}
