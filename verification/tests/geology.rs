use red_republic_sim::geology::{Deposit, DepositId, Geology, Layer, Mineral};
use red_republic_sim::units::{Metres, Point, Tonnes};

fn seam(top_m: i64, layers: &[(i64, u64)]) -> Deposit {
    Deposit::new(
        DepositId(1),
        Mineral::Coal,
        Point::origin(),
        Metres(400),
        Metres(top_m),
        layers
            .iter()
            .map(|&(thickness, tonnes)| Layer::new(Metres(thickness), Tonnes(tonnes)))
            .collect(),
    )
}

#[test]
fn a_mine_over_the_body_taps_it_and_one_outside_does_not() {
    let d = seam(20, &[(10, 1_000)]);
    assert!(d.covers(Point::new(Metres(399), Metres(0))));
    assert!(!d.covers(Point::new(Metres(401), Metres(0))));
}

/// A single small rig and a big one draw on the same body, and the only
/// difference is how fast it goes.
#[test]
fn extraction_rate_is_the_only_difference_between_a_small_mine_and_a_large_one() {
    let mut small = seam(20, &[(10, 1_000)]);
    let mut large = seam(20, &[(10, 1_000)]);
    for _ in 0..10 {
        small.extract(Tonnes(1));
    }
    large.extract(Tonnes(10));
    assert_eq!(small.remaining(), large.remaining());
}

#[test]
fn extraction_cannot_take_more_than_is_there() {
    let mut d = seam(20, &[(10, 50)]);
    let got = d.extract(Tonnes(500));
    assert_eq!(got.tonnes, Tonnes(50));
    assert!(d.is_exhausted());
    // And an exhausted body yields nothing rather than going negative.
    assert_eq!(d.extract(Tonnes(10)).tonnes, Tonnes::zero());
    assert_eq!(d.remaining(), Tonnes::zero());
}

#[test]
fn working_out_a_layer_pushes_the_work_deeper() {
    let mut d = seam(20, &[(30, 100), (30, 100)]);
    assert_eq!(d.working_depth(), Metres(20));
    let shallow = d.working_depth();

    d.extract(Tonnes(100)); // exactly finishes the first horizon
    assert_eq!(d.working_depth(), Metres(50), "top + first thickness");
    assert!(d.working_depth() > shallow, "deeper work must be deeper");
}

#[test]
fn a_draw_spanning_two_layers_reports_the_depth_it_finished_at() {
    let mut d = seam(0, &[(40, 10), (40, 100)]);
    let got = d.extract(Tonnes(30));
    assert_eq!(got.tonnes, Tonnes(30));
    // It had to break into the second horizon, so it is priced there.
    assert_eq!(got.depth, Metres(40));
}

#[test]
fn an_aquifer_refills_but_never_past_what_the_ground_held() {
    let mut water = Deposit::new(
        DepositId(2),
        Mineral::Groundwater,
        Point::origin(),
        Metres(500),
        Metres(5),
        vec![Layer::new(Metres(20), Tonnes(100))],
    );
    water.extract(Tonnes(80));
    assert_eq!(water.remaining(), Tonnes(20));

    water.recharge(Tonnes(30));
    assert_eq!(water.remaining(), Tonnes(50));

    water.recharge(Tonnes(1_000));
    assert_eq!(
        water.remaining(),
        Tonnes(100),
        "recharge must not invent an aquifer bigger than the ground"
    );
}

#[test]
fn only_groundwater_recharges() {
    assert!(Mineral::Groundwater.recharges());
    for m in Mineral::all() {
        if m != Mineral::Groundwater {
            assert!(!m.recharges(), "{m:?} should not recharge");
        }
    }
}

#[test]
fn tappable_bodies_come_back_shallowest_first() {
    let mut g = Geology::new();
    g.insert(Deposit::new(
        DepositId(1),
        Mineral::Coal,
        Point::origin(),
        Metres(300),
        Metres(120),
        vec![Layer::new(Metres(10), Tonnes(500))],
    ));
    g.insert(Deposit::new(
        DepositId(2),
        Mineral::Gravel,
        Point::origin(),
        Metres(300),
        Metres(3),
        vec![Layer::new(Metres(4), Tonnes(500))],
    ));
    assert_eq!(
        g.tappable_at(Point::origin()),
        vec![DepositId(2), DepositId(1)],
        "the shallow gravel is the cheaper thing to reach"
    );
    assert!(g
        .tappable_at(Point::new(Metres(5_000), Metres(0)))
        .is_empty());
}

#[test]
fn distance_to_the_nearest_body_is_measured_to_its_edge() {
    let mut g = Geology::new();
    g.insert(Deposit::new(
        DepositId(1),
        Mineral::Coal,
        Point::new(Metres(1_000), Metres(0)),
        Metres(200),
        Metres(30),
        vec![Layer::new(Metres(10), Tonnes(500))],
    ));
    // 1000 m to the centre, 200 m of body — 800 m of walking.
    assert_eq!(
        g.distance_to_nearest(Point::origin(), Mineral::Coal),
        Some(Metres(800))
    );
    // Standing over it is zero, not negative.
    assert_eq!(
        g.distance_to_nearest(Point::new(Metres(1_000), Metres(0)), Mineral::Coal),
        Some(Metres(0))
    );
    assert_eq!(g.distance_to_nearest(Point::origin(), Mineral::Oil), None);
}

/// An exhausted body stops counting as somewhere to build.
#[test]
fn a_worked_out_body_no_longer_counts_as_the_nearest() {
    let mut g = Geology::new();
    g.insert(Deposit::new(
        DepositId(1),
        Mineral::Coal,
        Point::origin(),
        Metres(100),
        Metres(10),
        vec![Layer::new(Metres(5), Tonnes(10))],
    ));
    assert!(g
        .distance_to_nearest(Point::origin(), Mineral::Coal)
        .is_some());
    g.get_mut(DepositId(1)).unwrap().extract(Tonnes(10));
    assert!(g
        .distance_to_nearest(Point::origin(), Mineral::Coal)
        .is_none());
}

#[test]
fn the_survey_reports_what_is_left_and_what_was_there() {
    let mut d = seam(20, &[(30, 100), (30, 100)]);
    assert_eq!(d.survey().remaining, d.survey().initial);
    d.extract(Tonnes(150));
    assert_eq!(d.survey().remaining, Tonnes(50));
    assert_eq!(d.survey().initial, Tonnes(200));
    assert_eq!(d.survey().working_depth, Metres(50));
}

#[test]
fn totals_by_mineral_answer_whether_a_posting_is_rich() {
    let mut g = Geology::new();
    for (id, mineral, tonnes) in [
        (1u32, Mineral::Coal, 500u64),
        (2, Mineral::Coal, 300),
        (3, Mineral::IronOre, 200),
    ] {
        g.insert(Deposit::new(
            DepositId(id),
            mineral,
            Point::origin(),
            Metres(100),
            Metres(10),
            vec![Layer::new(Metres(5), Tonnes(tonnes))],
        ));
    }
    assert_eq!(g.remaining_of(Mineral::Coal), Tonnes(800));
    assert_eq!(g.remaining_of(Mineral::IronOre), Tonnes(200));
    assert_eq!(g.remaining_of(Mineral::Oil), Tonnes::zero());
}

/// Bodies at the same depth come back in id order, whatever order they were
/// laid down in.
#[test]
fn equally_deep_bodies_come_back_in_id_order() {
    let mut g = Geology::new();
    for id in [5u32, 3, 9] {
        g.insert(Deposit::new(
            DepositId(id),
            Mineral::Coal,
            Point::origin(),
            Metres(50),
            Metres(10),
            vec![Layer::new(Metres(5), Tonnes(10))],
        ));
    }
    assert_eq!(
        g.tappable_at(Point::new(Metres(30), Metres(40))),
        vec![DepositId(3), DepositId(5), DepositId(9)]
    );
}
