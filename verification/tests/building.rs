use red_republic_sim::building::{BuildingKind, Buildings, PlacementError, Teaching};
use red_republic_sim::citizen::Education;
use red_republic_sim::fleet::{crewed, VehicleKind};
use red_republic_sim::geology::{Deposit, DepositId, Geology, Layer, Mineral};
use red_republic_sim::resource::Resource;
use red_republic_sim::units::{Metres, Point, Tonnes};

/// Open, buildable ground: the terrain's answer for every footprint here.
const OPEN: bool = true;

fn at(x: i64, y: i64) -> Point {
    Point::new(Metres(x), Metres(y))
}

fn all_kinds() -> Vec<BuildingKind> {
    vec![
        BuildingKind::House,
        BuildingKind::Apartment,
        BuildingKind::Woodcutter,
        BuildingKind::Sawmill,
        BuildingKind::GravelQuarry,
        BuildingKind::Brickworks,
        BuildingKind::CoalMine,
        BuildingKind::IronMine,
        BuildingKind::SteelMill,
        BuildingKind::OilPump,
        BuildingKind::Refinery,
        BuildingKind::PowerPlant,
        BuildingKind::OilPowerPlant,
        BuildingKind::HeatingPlant,
        BuildingKind::Farm,
        BuildingKind::FoodFactory,
        BuildingKind::TextileMill,
        BuildingKind::MachineWorks,
        BuildingKind::Store,
        BuildingKind::Clinic,
        BuildingKind::CultureClub,
        BuildingKind::School,
        BuildingKind::University,
        BuildingKind::TransformerStation,
        BuildingKind::Landfill,
        BuildingKind::Incinerator,
        BuildingKind::Warehouse,
        BuildingKind::Depot,
        BuildingKind::ConstructionOffice,
        BuildingKind::MotorDepot,
        BuildingKind::GasStation,
        BuildingKind::BusDepot,
        BuildingKind::Customs,
    ]
}

fn body_under(id: u32, mineral: Mineral, centre: Point) -> Deposit {
    Deposit::new(DepositId(id), mineral, centre, Metres(300), Metres(40), vec![Layer::new(Metres(20), Tonnes(500_000))])
}

fn coal_under(centre: Point) -> Geology {
    let mut g = Geology::new();
    g.insert(body_under(1, Mineral::Coal, centre));
    g
}

#[test]
fn every_kind_appears_exactly_once_in_the_table() {
    let kinds = all_kinds();
    for k in kinds.iter() {
        assert_eq!(k.def().kind, *k);
        assert_eq!(kinds.iter().filter(|x| *x == k).count(), 1);
    }
}

#[test]
fn footprints_are_plausible_real_structures() {
    for k in all_kinds() {
        let d = k.def();
        assert!(d.width.0 >= 10, "{} is {}m wide", d.name, d.width.0);
        assert!(d.width.0 <= 300, "{} is {}m wide", d.name, d.width.0);
        assert!(d.depth.0 >= 10, "{} is {}m deep", d.name, d.depth.0);
        assert!(d.depth.0 <= 300, "{} is {}m deep", d.name, d.depth.0);
    }
    assert!(BuildingKind::Apartment.def().width.0 > BuildingKind::House.def().width.0 * 4);
    assert!(BuildingKind::SteelMill.def().width.0 > BuildingKind::Apartment.def().width.0 * 2);
}

#[test]
fn only_extractors_tap_and_each_taps_what_it_produces() {
    for k in all_kinds() {
        let Some(mineral) = k.def().taps else { continue };
        let produced = k.outputs().iter().any(|(r, _)| r.from_mineral() == Some(mineral));
        assert!(produced, "{} taps {mineral:?} but does not produce it", k.def().name);
    }
}

#[test]
fn the_table_is_authored_in_its_units() {
    let mill = BuildingKind::SteelMill.def();
    assert_eq!(mill.name, "Steel Mill");
    assert_eq!(mill.power_draw, 40_000);
    assert_eq!(mill.labour, 220_000);
    assert_eq!(mill.waste, 1_200_000);
    assert_eq!(BuildingKind::SteelMill.inputs(), vec![(Resource::IronOre, 2_000), (Resource::Coal, 1_000)]);
    assert_eq!(BuildingKind::SteelMill.outputs(), vec![(Resource::Steel, 1_500)]);
    assert_eq!(BuildingKind::Store.sells(), vec![Resource::Food, Resource::Clothes]);
    assert_eq!(BuildingKind::School.def().teaches, Some(Teaching::School));
    assert_eq!(BuildingKind::Refinery.def().schooling, Education::Graduate);
    assert_eq!(
        BuildingKind::MotorDepot.vehicles(),
        vec![(VehicleKind::Lorry, 4), (VehicleKind::HeavyLorry, 2), (VehicleKind::RecoveryVehicle, 1)]
    );
}

#[test]
fn only_a_boiler_a_bus_depot_or_a_garage_burns_its_own_inputs() {
    assert!(BuildingKind::HeatingPlant.def().burns_its_own_inputs());
    assert!(BuildingKind::BusDepot.def().burns_its_own_inputs());
    assert!(BuildingKind::MotorDepot.def().burns_its_own_inputs());
    assert!(BuildingKind::ConstructionOffice.def().burns_its_own_inputs());
    assert!(!BuildingKind::SteelMill.def().burns_its_own_inputs());
}

#[test]
fn a_building_goes_up_on_open_ground() {
    let mut b = Buildings::new();
    let id = b.place(BuildingKind::House, at(500, 500), OPEN, &Geology::new()).expect("open ground");
    assert_eq!(b.all().len(), 1);
    assert_eq!(b.get(id).unwrap().kind, BuildingKind::House);
    assert_eq!(b.commissioned(), 1);
}

#[test]
fn two_buildings_cannot_share_ground() {
    let mut b = Buildings::new();
    let g = Geology::new();
    b.place(BuildingKind::Apartment, at(500, 500), OPEN, &g).expect("first");
    // Well inside the 62 m frontage of the block already there.
    assert_eq!(b.place(BuildingKind::House, at(520, 500), OPEN, &g), Err(PlacementError::Occupied));
    // Just clear of it.
    assert!(b.place(BuildingKind::House, at(560, 500), OPEN, &g).is_ok());
}

#[test]
fn nothing_is_built_on_water_or_off_the_map() {
    let mut b = Buildings::new();
    assert_eq!(b.place(BuildingKind::House, at(500, 500), false, &Geology::new()), Err(PlacementError::Unbuildable));
    assert!(b.all().is_empty());
}

#[test]
fn a_mine_needs_a_body_beneath_it_and_remembers_which() {
    let spot = at(700, 700);
    let mut b = Buildings::new();
    assert_eq!(
        b.place(BuildingKind::CoalMine, spot, OPEN, &Geology::new()),
        Err(PlacementError::NothingToTap(Mineral::Coal))
    );
    let g = coal_under(spot);
    let id = b.place(BuildingKind::CoalMine, spot, OPEN, &g).expect("over coal");
    assert_eq!(b.get(id).unwrap().tapped, Some(DepositId(1)));
}

#[test]
fn a_mine_will_not_tap_the_wrong_mineral() {
    let spot = at(700, 700);
    let mut g = Geology::new();
    g.insert(body_under(1, Mineral::IronOre, spot));
    let mut b = Buildings::new();
    assert_eq!(b.place(BuildingKind::CoalMine, spot, OPEN, &g), Err(PlacementError::NothingToTap(Mineral::Coal)));
    assert!(b.place(BuildingKind::IronMine, spot, OPEN, &g).is_ok());
}

#[test]
fn staffing_is_the_fraction_of_jobs_filled() {
    let mut b = Buildings::new();
    let spot = at(700, 700);
    let id = b.place_built(BuildingKind::CoalMine, spot, OPEN, &coal_under(spot)).expect("over coal");
    assert_eq!(b.get(id).unwrap().staffing(), 0);
    b.get_mut(id).unwrap().staff = 7;
    assert_eq!(b.get(id).unwrap().staffing(), 500);
    // Overstaffing is capped rather than producing above capacity.
    b.get_mut(id).unwrap().staff = 100;
    assert_eq!(b.get(id).unwrap().staffing(), 1_000);
}

#[test]
fn a_building_with_no_jobs_is_always_fully_working() {
    let mut b = Buildings::new();
    let id = b.place_built(BuildingKind::House, at(500, 500), OPEN, &Geology::new()).unwrap();
    assert_eq!(b.get(id).unwrap().staffing(), 1_000);
}

#[test]
fn demolishing_frees_the_ground() {
    let g = Geology::new();
    let mut b = Buildings::new();
    let spot = at(500, 500);
    let id = b.place(BuildingKind::Apartment, spot, OPEN, &g).unwrap();
    assert_eq!(b.place(BuildingKind::House, spot, OPEN, &g), Err(PlacementError::Occupied));
    assert!(b.demolish(id));
    assert!(b.place(BuildingKind::House, spot, OPEN, &g).is_ok());
    assert!(!b.demolish(id), "demolishing twice is not a second success");
}

#[test]
fn housing_and_jobs_total_across_the_republic() {
    let g = Geology::new();
    let mut b = Buildings::new();
    b.place_built(BuildingKind::Apartment, at(200, 200), OPEN, &g).unwrap();
    b.place_built(BuildingKind::House, at(400, 200), OPEN, &g).unwrap();
    b.place_built(BuildingKind::Sawmill, at(600, 200), OPEN, &g).unwrap();
    assert_eq!(b.housing(), 48 + 6);
    assert_eq!(b.jobs(), 6);
    assert_eq!(b.of_kind(BuildingKind::House).len(), 1);
}

#[test]
fn a_site_houses_and_employs_nobody_until_it_opens() {
    let g = Geology::new();
    let mut b = Buildings::new();
    let flats = b.place(BuildingKind::Apartment, at(200, 200), OPEN, &g).unwrap();
    b.place(BuildingKind::Sawmill, at(600, 200), OPEN, &g).unwrap();
    assert_eq!(b.housing(), 0, "a site is not a home");
    assert_eq!(b.jobs(), 0, "a site is not a workplace");
    assert!(!b.get(flats).unwrap().is_built());
    assert_eq!(b.get(flats).unwrap().progress(), 0);

    b.get_mut(flats).unwrap().work_done = BuildingKind::Apartment.def().labour;
    assert!(b.get(flats).unwrap().is_built());
    assert_eq!(b.housing(), 48);
}

#[test]
fn a_site_knows_whether_its_materials_have_arrived() {
    let mut b = Buildings::new();
    let id = b.place(BuildingKind::Woodcutter, at(200, 200), OPEN, &Geology::new()).unwrap();
    assert!(!b.get(id).unwrap().has_materials());
    assert_eq!(b.get(id).unwrap().material_outstanding(Resource::Planks), Tonnes(4));
    // A woodcutter post wants four tonnes of planks.
    b.get_mut(id).unwrap().stock.add(Resource::Planks, Tonnes(4));
    assert!(b.get(id).unwrap().has_materials());
    assert_eq!(b.get(id).unwrap().material_outstanding(Resource::Planks), Tonnes(0));
}

#[test]
fn the_bill_falls_as_the_work_is_done() {
    let mut b = Buildings::new();
    let id = b.place(BuildingKind::Woodcutter, at(200, 200), OPEN, &Geology::new()).unwrap();
    // Half the fifty builder-days done: two tonnes of the four still wanted.
    b.get_mut(id).unwrap().work_done = 25_000;
    assert_eq!(b.get(id).unwrap().progress(), 500);
    assert_eq!(b.get(id).unwrap().material_outstanding(Resource::Planks), Tonnes(2));
    b.get_mut(id).unwrap().stock.add(Resource::Planks, Tonnes(2));
    assert!(b.get(id).unwrap().has_materials());
    assert_eq!(b.get(id).unwrap().material_outstanding(Resource::Bricks), Tonnes(0));
}

#[test]
fn a_site_may_take_in_more_than_it_will_hold_when_open() {
    let mut b = Buildings::new();
    let id = b.place(BuildingKind::SteelMill, at(500, 500), OPEN, &Geology::new()).unwrap();
    // 30 t of brick to build; 40 t of anything once open.
    assert_eq!(b.get(id).unwrap().intake_capacity(Resource::Bricks), Tonnes(40));
    b.get_mut(id).unwrap().work_done = BuildingKind::SteelMill.def().labour;
    assert_eq!(b.get(id).unwrap().intake_capacity(Resource::Bricks), Tonnes(40));
    // A landfill's bill of gravel is within its bin; a house's bricks are not.
    let house = b.place(BuildingKind::House, at(900, 900), OPEN, &Geology::new()).unwrap();
    assert_eq!(b.get(house).unwrap().intake_capacity(Resource::Bricks), Tonnes(4));
    assert_eq!(b.get(house).unwrap().storage_cap(), Tonnes(2));
}

#[test]
fn an_unstaffed_garage_runs_nothing_and_a_full_one_runs_everything() {
    let mut b = Buildings::new();
    let id = b.place_built(BuildingKind::MotorDepot, at(1_000, 1_000), OPEN, &Geology::new()).expect("open ground");
    assert_eq!(crewed(b.get(id).unwrap()), 0, "nobody to drive");
    let establishment: u32 = BuildingKind::MotorDepot.vehicles().iter().map(|&(_, n)| n).sum();
    b.get_mut(id).unwrap().staff = BuildingKind::MotorDepot.def().workers;
    assert_eq!(crewed(b.get(id).unwrap()), establishment);
}

#[test]
fn a_half_staffed_garage_runs_half_its_lorries() {
    let mut b = Buildings::new();
    let id = b.place_built(BuildingKind::MotorDepot, at(1_000, 1_000), OPEN, &Geology::new()).expect("open ground");
    let establishment: u32 = BuildingKind::MotorDepot.vehicles().iter().map(|&(_, n)| n).sum();
    b.get_mut(id).unwrap().staff = BuildingKind::MotorDepot.def().workers / 2;
    let running = crewed(b.get(id).unwrap());
    assert!(running > 0 && running <= establishment / 2 + 1, "{running} of {establishment} on half a shift");
}

#[test]
fn a_half_built_garage_owns_nothing() {
    let mut b = Buildings::new();
    let id = b.place(BuildingKind::MotorDepot, at(1_000, 1_000), OPEN, &Geology::new()).expect("open ground");
    b.get_mut(id).unwrap().staff = BuildingKind::MotorDepot.def().workers;
    assert_eq!(crewed(b.get(id).unwrap()), 0);
}

#[test]
fn a_garage_keeps_only_vehicles_that_exist() {
    let mut garages = 0;
    for k in all_kinds() {
        let keeps = k.vehicles();
        if keeps.is_empty() {
            continue;
        }
        garages += 1;
        for &(kind, count) in keeps.iter() {
            assert!(count > 0, "{} keeps zero {kind:?}", k.def().name);
            assert_eq!(kind.def().kind, kind);
        }
    }
    assert!(garages > 0, "no building keeps any vehicles at all");
}

#[test]
fn footprints_are_measured_in_half_metres() {
    let mut b = Buildings::new();
    let id = b.place(BuildingKind::HeatingPlant, at(100, 100), OPEN, &Geology::new()).unwrap();
    // Forty-five by thirty-five metres, centred on (100, 100).
    assert_eq!(b.get(id).unwrap().bounds(), (155, 165, 245, 235));
}
