use red_republic_sim::building::BuildingId;
use red_republic_sim::fleet::{Fleet, Role, VehicleKind, VehicleState};
use red_republic_sim::journey::Journey;
use red_republic_sim::resource::Resource;
use red_republic_sim::units::{Metres, Point, Speed, Tonnes};

fn at(x: i64, y: i64) -> Point {
    Point::new(Metres(x), Metres(y))
}

#[test]
fn every_vehicle_kind_is_in_the_table_exactly_once() {
    let kinds = VehicleKind::all();
    for kind in kinds.iter() {
        assert_eq!(kind.def().kind, *kind);
        assert_eq!(kinds.iter().filter(|k| *k == kind).count(), 1, "{kind:?}");
    }
}

#[test]
fn every_vehicle_is_fully_authored() {
    for kind in VehicleKind::all() {
        let def = kind.def();
        let carries = def.capacity.is_positive();
        let seats = def.seats > 0;
        match def.role {
            Role::Freight => assert!(carries && !seats, "{} hauls freight", def.name),
            Role::Crew => assert!(seats && !carries, "{} carries crews", def.name),
            Role::Recovery => assert!(!seats && !carries, "{} recovers and also carries things", def.name),
            Role::Passenger => assert!(seats && !carries, "{} carries settlers", def.name),
        }
        assert!(def.on_road > Speed::zero(), "{} cannot move", def.name);
        if def.medium.free_ranging() {
            assert!(def.ground > 0, "{} cannot leave a road", def.name);
            assert!(def.load_penalty < def.ground, "{} cannot cross its own yard with a load on", def.name);
            assert!(def.cross_country > Speed::zero(), "{} cannot leave the road", def.name);
            assert!(def.cross_country < def.on_road, "{} is no slower off road", def.name);
        } else {
            assert_eq!(def.cross_country, Speed::zero(), "{} rides {}", def.name, def.medium.name());
            assert_eq!(def.ground, 0, "{} rides {} and has a view about mud", def.name, def.medium.name());
            assert_eq!(def.load_penalty, 0, "{} sinks when laden", def.name);
        }
        assert!(def.fuel_per_km > 0, "{} burns nothing", def.name);
        assert!(def.tank > 0, "{} has no tank", def.name);
    }
}

#[test]
fn a_full_tank_crosses_a_republic_and_comes_back() {
    for kind in VehicleKind::all() {
        let def = kind.def();
        // Kilograms over grams a kilometre is kilometres.
        let range_km = def.tank * 1_000 / def.fuel_per_km;
        assert!(range_km >= 100, "{} has {} km of range", def.name, range_km);
    }
}

#[test]
fn a_commissioned_lorry_arrives_parked_and_fuelled() {
    let mut fleet = Fleet::new();
    let id = fleet.commission(VehicleKind::Lorry, BuildingId(1), at(500, 500));
    let v = fleet.get(id).expect("just commissioned");
    assert!(v.is_idle());
    assert_eq!(v.load_fraction(), 0);
    assert_eq!(v.capability(), VehicleKind::Lorry.def().ground as i64);
    assert!(v.job.is_none() && v.journey.is_none());
    assert_eq!(v.fuel, VehicleKind::Lorry.def().tank);
    assert_eq!(v.spare_capacity(), VehicleKind::Lorry.def().capacity);
    assert_eq!(fleet.count_of(BuildingId(1), VehicleKind::Lorry), 1);
    assert_eq!(fleet.count_of(BuildingId(2), VehicleKind::Lorry), 0);
}

#[test]
fn fuel_is_charged_against_the_kilometres_actually_driven() {
    let mut fleet = Fleet::new();
    let id = fleet.commission(VehicleKind::Lorry, BuildingId(1), Point::origin());
    let v = fleet.get(id).unwrap();
    // 300 g a kilometre over 100 km is 30 kg.
    assert_eq!(v.fuel_for(Metres(100_000)), 30);
    assert_eq!(v.fuel_for(Metres::zero()), 0);
    // A part-kilogram is charged as a whole one.
    assert_eq!(v.fuel_for(Metres(1)), 1);
}

#[test]
fn ids_are_handed_out_in_order_and_found_again() {
    let mut fleet = Fleet::new();
    assert!(fleet.is_empty());
    let a = fleet.commission(VehicleKind::Lorry, BuildingId(1), at(0, 0));
    let b = fleet.commission(VehicleKind::Barge, BuildingId(2), at(10, 0));
    let c = fleet.commission(VehicleKind::HeavyLorry, BuildingId(1), at(20, 0));
    assert_eq!((a.0, b.0, c.0), (1, 2, 3));
    assert_eq!(fleet.len(), 3);
    assert_eq!(fleet.get(b).unwrap().kind, VehicleKind::Barge);
    assert_eq!(fleet.of_garage(BuildingId(1)), vec![a, c]);
    assert_eq!(fleet.of_garage(BuildingId(3)), vec![]);
    assert_eq!(fleet.all().len(), 3);
}

#[test]
fn a_laden_lorry_copes_with_less_and_has_less_room() {
    let mut fleet = Fleet::new();
    let id = fleet.commission(VehicleKind::Lorry, BuildingId(1), at(0, 0));
    {
        let v = fleet.get_mut(id).unwrap();
        v.cargo.add(Resource::Coal, Tonnes(4));
    }
    let v = fleet.get(id).unwrap();
    // Half of eight tonnes: half the load penalty of 350 is lost.
    assert_eq!(v.load_fraction(), 500);
    assert_eq!(v.capability(), 750 - 175);
    assert_eq!(v.spare_capacity(), Tonnes(4));
    assert_eq!(fleet.cargo_afloat(Resource::Coal), Tonnes(4));
    assert_eq!(fleet.cargo_afloat(Resource::Wood), Tonnes(0));
}

#[test]
fn only_vehicles_out_on_a_job_are_running() {
    let mut fleet = Fleet::new();
    let a = fleet.commission(VehicleKind::Lorry, BuildingId(1), at(0, 0));
    let _b = fleet.commission(VehicleKind::Lorry, BuildingId(1), at(0, 0));
    assert_eq!(fleet.running(), 0);
    fleet.get_mut(a).unwrap().state = VehicleState::Delivering;
    assert_eq!(fleet.running(), 1);
    assert_eq!(fleet.bogged(), 0);
}

#[test]
fn a_vehicle_keeps_the_pace_of_the_leg_it_is_on() {
    let mut fleet = Fleet::new();
    let id = fleet.commission(VehicleKind::Lorry, BuildingId(1), at(0, 0));
    assert_eq!(fleet.get(id).unwrap().leg_speed(1_000), Speed(0));
    let j = Journey::begin(
        vec![at(0, 0), at(1_000, 0), at(2_000, 0)],
        vec![Some(Speed(30_000)), None],
        red_republic_sim::units::Seconds { millis: 0 },
        red_republic_sim::units::Seconds { millis: 60_000 },
    );
    fleet.get_mut(id).unwrap().journey = Some(j);
    // Capped by the road, then halved by heavy going.
    assert_eq!(fleet.get(id).unwrap().leg_speed(1_000), Speed(30_000));
    assert_eq!(fleet.get(id).unwrap().leg_speed(2_000), Speed(15_000));
}
