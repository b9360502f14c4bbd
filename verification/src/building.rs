//! Buildings: what they are, and where they stand.
//!
//! A building has a metric footprint and a continuous position; placement is
//! a rectangle overlap test against other rectangles, and whether the ground
//! takes it is the terrain's answer over the cells that rectangle covers.
//! Footprints are the honest sizes of the things they represent.
//!
//! Rates are per day. Power is in kilowatts, heat in thousandths of a heat
//! unit, inputs and outputs in kilograms a day, machinery wear in kilograms a
//! day, rubbish in grams a day, pollution in thousandths of a unit, and
//! building work in thousandths of a builder-day.
//!
//! Mines tap, they do not own: an extractor needs a body of its mineral under
//! the site, and once built it draws on the whole body.

use crate::citizen::Education;
use crate::fleet::VehicleKind;
use crate::geology::{covering_keys, has_id, index_of, key_leq, Deposit, DepositId, Geology, Mineral, mineral_name};
use crate::resource::{Resource, Stock};
use crate::units::{Metres, Point, Tonnes};
use vstd::prelude::*;
use vstd::string::StringExecFns;

verus! {

/// Every kind of building. Roads are not here — they are a graph, not a
/// building, and live in [`crate::network`].
#[derive(Debug, Clone, Copy, PartialEq, Eq, Structural, Hash, PartialOrd, Ord)]
pub enum BuildingKind {
    House,
    Apartment,
    Woodcutter,
    Sawmill,
    GravelQuarry,
    Brickworks,
    CoalMine,
    IronMine,
    SteelMill,
    OilPump,
    Refinery,
    PowerPlant,
    OilPowerPlant,
    HeatingPlant,
    Farm,
    FoodFactory,
    TextileMill,
    MachineWorks,
    Store,
    Clinic,
    CultureClub,
    School,
    University,
    TransformerStation,
    Landfill,
    Incinerator,
    Warehouse,
    Depot,
    ConstructionOffice,
    MotorDepot,
    GasStation,
    BusDepot,
    Customs,
}

/// What a place of education does.
#[derive(Debug, Clone, Copy, PartialEq, Eq, Structural)]
pub enum Teaching {
    /// Children of school age.
    School,
    /// Adults who finished school — and while they attend, they are not
    /// available for work.
    University,
}


/// What a building is and does. The lists of what it keeps, burns, makes,
/// costs and sells are on [`BuildingKind`].
#[derive(Debug, Clone, Copy, PartialEq, Eq)]
pub struct BuildingDef {
    pub kind: BuildingKind,
    pub name: &'static str,
    /// Footprint across.
    pub width: Metres,
    /// Footprint deep.
    pub depth: Metres,
    /// Jobs at full staffing.
    pub workers: u32,
    /// Kilowatts drawn.
    pub power_draw: u32,
    /// Kilowatts generated.
    pub power_output: u32,
    /// Heat wanted on a design-cold day, in thousandths of a unit.
    pub heat: u32,
    /// Heat produced, in thousandths of a unit. Only a boiler house has this.
    pub heat_output: u32,
    /// Commuters it can carry to work each day. Only a bus depot has this.
    pub seats: u32,
    /// Thousandths of a builder-day of work the site needs.
    pub labour: u64,
    /// The body it works, if it is an extractor.
    pub taps: Option<Mineral>,
    /// How many people can live here.
    pub residents: u32,
    /// Tonnes of each resource it can hold.
    pub storage: Tonnes,
    /// Kilograms of machinery worn out a day at full activity.
    pub wear: u32,
    /// Whether output answers to growing conditions.
    pub farms: bool,
    /// The least somebody must have been taught to hold a job here.
    pub schooling: Education,
    /// What it teaches, and to whom.
    pub teaches: Option<Teaching>,
    /// Whether this is what a consumer plugs into.
    pub transforms: bool,
    /// Grams of rubbish a day at full activity; on housing, per resident.
    pub waste: u64,
    /// Thousandths of a unit of pollution a day at full activity.
    pub pollution: u32,
}

/// The row of the building table for a kind.
pub open spec fn building_def(kind: BuildingKind) -> BuildingDef {
    match kind {
        BuildingKind::House => BuildingDef { kind: kind, name: "Small House", width: Metres(12), depth: Metres(10), workers: 0, power_draw: 0, power_output: 0, heat: 500, heat_output: 0, seats: 0, labour: 60_000, taps: None, residents: 6, storage: Tonnes(2), wear: 0, farms: false, schooling: Education::Unschooled, teaches: None, transforms: false, waste: 1500, pollution: 20 },
        BuildingKind::Apartment => BuildingDef { kind: kind, name: "Apartment Block", width: Metres(62), depth: Metres(14), workers: 0, power_draw: 3000, power_output: 0, heat: 2000, heat_output: 0, seats: 0, labour: 300_000, taps: None, residents: 48, storage: Tonnes(8), wear: 0, farms: false, schooling: Education::Unschooled, teaches: None, transforms: false, waste: 1500, pollution: 50 },
        BuildingKind::Woodcutter => BuildingDef { kind: kind, name: "Woodcutter Post", width: Metres(20), depth: Metres(16), workers: 6, power_draw: 0, power_output: 0, heat: 0, heat_output: 0, seats: 0, labour: 50_000, taps: None, residents: 0, storage: Tonnes(30), wear: 10, farms: false, schooling: Education::Unschooled, teaches: None, transforms: false, waste: 50_000, pollution: 100 },
        BuildingKind::Sawmill => BuildingDef { kind: kind, name: "Sawmill", width: Metres(34), depth: Metres(22), workers: 6, power_draw: 0, power_output: 0, heat: 0, heat_output: 0, seats: 0, labour: 120_000, taps: None, residents: 0, storage: Tonnes(40), wear: 15, farms: false, schooling: Education::Unschooled, teaches: None, transforms: false, waste: 200_000, pollution: 400 },
        BuildingKind::GravelQuarry => BuildingDef { kind: kind, name: "Gravel Quarry", width: Metres(60), depth: Metres(60), workers: 8, power_draw: 0, power_output: 0, heat: 0, heat_output: 0, seats: 0, labour: 80_000, taps: Some(Mineral::Gravel), residents: 0, storage: Tonnes(60), wear: 20, farms: false, schooling: Education::Unschooled, teaches: None, transforms: false, waste: 100_000, pollution: 1200 },
        BuildingKind::Brickworks => BuildingDef { kind: kind, name: "Brickworks", width: Metres(40), depth: Metres(28), workers: 10, power_draw: 0, power_output: 0, heat: 0, heat_output: 0, seats: 0, labour: 130_000, taps: None, residents: 0, storage: Tonnes(50), wear: 15, farms: false, schooling: Education::Unschooled, teaches: None, transforms: false, waste: 300_000, pollution: 1600 },
        BuildingKind::CoalMine => BuildingDef { kind: kind, name: "Coal Mine", width: Metres(55), depth: Metres(45), workers: 14, power_draw: 6000, power_output: 0, heat: 0, heat_output: 0, seats: 0, labour: 200_000, taps: Some(Mineral::Coal), residents: 0, storage: Tonnes(60), wear: 30, farms: false, schooling: Education::Schooled, teaches: None, transforms: false, waste: 500_000, pollution: 2000 },
        BuildingKind::IronMine => BuildingDef { kind: kind, name: "Iron Ore Mine", width: Metres(55), depth: Metres(45), workers: 14, power_draw: 6000, power_output: 0, heat: 0, heat_output: 0, seats: 0, labour: 200_000, taps: Some(Mineral::IronOre), residents: 0, storage: Tonnes(60), wear: 30, farms: false, schooling: Education::Schooled, teaches: None, transforms: false, waste: 500_000, pollution: 2000 },
        BuildingKind::SteelMill => BuildingDef { kind: kind, name: "Steel Mill", width: Metres(180), depth: Metres(140), workers: 20, power_draw: 40_000, power_output: 0, heat: 0, heat_output: 0, seats: 0, labour: 220_000, taps: None, residents: 0, storage: Tonnes(40), wear: 30, farms: false, schooling: Education::Schooled, teaches: None, transforms: false, waste: 1_200_000, pollution: 6000 },
        BuildingKind::OilPump => BuildingDef { kind: kind, name: "Oil Pump", width: Metres(24), depth: Metres(24), workers: 10, power_draw: 1000, power_output: 0, heat: 0, heat_output: 0, seats: 0, labour: 220_000, taps: Some(Mineral::Oil), residents: 0, storage: Tonnes(40), wear: 25, farms: false, schooling: Education::Schooled, teaches: None, transforms: false, waste: 200_000, pollution: 1500 },
        BuildingKind::Refinery => BuildingDef { kind: kind, name: "Oil Refinery", width: Metres(160), depth: Metres(120), workers: 25, power_draw: 30_000, power_output: 0, heat: 0, heat_output: 0, seats: 0, labour: 420_000, taps: None, residents: 0, storage: Tonnes(60), wear: 30, farms: false, schooling: Education::Graduate, teaches: None, transforms: false, waste: 800_000, pollution: 5000 },
        BuildingKind::PowerPlant => BuildingDef { kind: kind, name: "Coal Power Plant", width: Metres(150), depth: Metres(110), workers: 15, power_draw: 0, power_output: 60_000, heat: 0, heat_output: 0, seats: 0, labour: 200_000, taps: None, residents: 0, storage: Tonnes(80), wear: 25, farms: false, schooling: Education::Schooled, teaches: None, transforms: false, waste: 1_500_000, pollution: 8000 },
        BuildingKind::OilPowerPlant => BuildingDef { kind: kind, name: "Oil Power Plant", width: Metres(140), depth: Metres(100), workers: 16, power_draw: 0, power_output: 70_000, heat: 0, heat_output: 0, seats: 0, labour: 400_000, taps: None, residents: 0, storage: Tonnes(80), wear: 25, farms: false, schooling: Education::Schooled, teaches: None, transforms: false, waste: 1_000_000, pollution: 5500 },
        BuildingKind::HeatingPlant => BuildingDef { kind: kind, name: "Heating Plant", width: Metres(45), depth: Metres(35), workers: 8, power_draw: 1000, power_output: 0, heat: 0, heat_output: 8000, seats: 0, labour: 180_000, taps: None, residents: 0, storage: Tonnes(40), wear: 15, farms: false, schooling: Education::Schooled, teaches: None, transforms: false, waste: 400_000, pollution: 2200 },
        BuildingKind::Farm => BuildingDef { kind: kind, name: "Collective Farm", width: Metres(240), depth: Metres(240), workers: 10, power_draw: 0, power_output: 0, heat: 0, heat_output: 0, seats: 0, labour: 150_000, taps: None, residents: 0, storage: Tonnes(60), wear: 20, farms: true, schooling: Education::Unschooled, teaches: None, transforms: false, waste: 200_000, pollution: 300 },
        BuildingKind::FoodFactory => BuildingDef { kind: kind, name: "Food Factory", width: Metres(50), depth: Metres(35), workers: 12, power_draw: 4000, power_output: 0, heat: 0, heat_output: 0, seats: 0, labour: 200_000, taps: None, residents: 0, storage: Tonnes(50), wear: 15, farms: false, schooling: Education::Schooled, teaches: None, transforms: false, waste: 500_000, pollution: 600 },
        BuildingKind::TextileMill => BuildingDef { kind: kind, name: "Textile Mill", width: Metres(55), depth: Metres(35), workers: 12, power_draw: 4000, power_output: 0, heat: 0, heat_output: 0, seats: 0, labour: 180_000, taps: None, residents: 0, storage: Tonnes(50), wear: 15, farms: false, schooling: Education::Schooled, teaches: None, transforms: false, waste: 400_000, pollution: 900 },
        BuildingKind::MachineWorks => BuildingDef { kind: kind, name: "Machine Works", width: Metres(150), depth: Metres(110), workers: 22, power_draw: 20_000, power_output: 0, heat: 0, heat_output: 0, seats: 0, labour: 250_000, taps: None, residents: 0, storage: Tonnes(40), wear: 20, farms: false, schooling: Education::Graduate, teaches: None, transforms: false, waste: 700_000, pollution: 3000 },
        BuildingKind::Store => BuildingDef { kind: kind, name: "State Store", width: Metres(30), depth: Metres(20), workers: 3, power_draw: 1000, power_output: 0, heat: 0, heat_output: 0, seats: 0, labour: 80_000, taps: None, residents: 0, storage: Tonnes(30), wear: 0, farms: false, schooling: Education::Unschooled, teaches: None, transforms: false, waste: 150_000, pollution: 50 },
        BuildingKind::Clinic => BuildingDef { kind: kind, name: "Polyclinic", width: Metres(45), depth: Metres(30), workers: 6, power_draw: 2000, power_output: 0, heat: 0, heat_output: 0, seats: 0, labour: 150_000, taps: None, residents: 0, storage: Tonnes(10), wear: 0, farms: false, schooling: Education::Schooled, teaches: None, transforms: false, waste: 100_000, pollution: 100 },
        BuildingKind::CultureClub => BuildingDef { kind: kind, name: "Culture Club", width: Metres(40), depth: Metres(30), workers: 4, power_draw: 1000, power_output: 0, heat: 0, heat_output: 0, seats: 0, labour: 100_000, taps: None, residents: 0, storage: Tonnes(10), wear: 0, farms: false, schooling: Education::Schooled, teaches: None, transforms: false, waste: 80_000, pollution: 20 },
        BuildingKind::School => BuildingDef { kind: kind, name: "Ten-Year School", width: Metres(55), depth: Metres(35), workers: 10, power_draw: 2000, power_output: 0, heat: 1500, heat_output: 0, seats: 0, labour: 160_000, taps: None, residents: 0, storage: Tonnes(10), wear: 0, farms: false, schooling: Education::Schooled, teaches: Some(Teaching::School), transforms: false, waste: 120_000, pollution: 20 },
        BuildingKind::University => BuildingDef { kind: kind, name: "Polytechnic Institute", width: Metres(90), depth: Metres(60), workers: 14, power_draw: 5000, power_output: 0, heat: 3000, heat_output: 0, seats: 0, labour: 320_000, taps: None, residents: 0, storage: Tonnes(20), wear: 0, farms: false, schooling: Education::Schooled, teaches: Some(Teaching::University), transforms: false, waste: 200_000, pollution: 50 },
        BuildingKind::TransformerStation => BuildingDef { kind: kind, name: "Transformer Station", width: Metres(24), depth: Metres(20), workers: 3, power_draw: 0, power_output: 0, heat: 0, heat_output: 0, seats: 0, labour: 90_000, taps: None, residents: 0, storage: Tonnes(10), wear: 5, farms: false, schooling: Education::Schooled, teaches: None, transforms: true, waste: 0, pollution: 50 },
        BuildingKind::Landfill => BuildingDef { kind: kind, name: "Landfill", width: Metres(120), depth: Metres(90), workers: 5, power_draw: 0, power_output: 0, heat: 0, heat_output: 0, seats: 0, labour: 100_000, taps: None, residents: 0, storage: Tonnes(400), wear: 10, farms: false, schooling: Education::Unschooled, teaches: None, transforms: false, waste: 0, pollution: 3500 },
        BuildingKind::Incinerator => BuildingDef { kind: kind, name: "Refuse Incinerator", width: Metres(80), depth: Metres(60), workers: 12, power_draw: 0, power_output: 12_000, heat: 0, heat_output: 0, seats: 0, labour: 300_000, taps: None, residents: 0, storage: Tonnes(120), wear: 20, farms: false, schooling: Education::Schooled, teaches: None, transforms: false, waste: 0, pollution: 7000 },
        BuildingKind::Warehouse => BuildingDef { kind: kind, name: "Warehouse", width: Metres(60), depth: Metres(30), workers: 2, power_draw: 1000, power_output: 0, heat: 0, heat_output: 0, seats: 0, labour: 90_000, taps: None, residents: 0, storage: Tonnes(200), wear: 0, farms: false, schooling: Education::Unschooled, teaches: None, transforms: false, waste: 50_000, pollution: 50 },
        BuildingKind::Depot => BuildingDef { kind: kind, name: "Council Depot", width: Metres(80), depth: Metres(60), workers: 4, power_draw: 1000, power_output: 0, heat: 0, heat_output: 0, seats: 0, labour: 120_000, taps: None, residents: 0, storage: Tonnes(300), wear: 0, farms: false, schooling: Education::Unschooled, teaches: None, transforms: false, waste: 50_000, pollution: 100 },
        BuildingKind::ConstructionOffice => BuildingDef { kind: kind, name: "Construction Office", width: Metres(35), depth: Metres(25), workers: 16, power_draw: 0, power_output: 0, heat: 0, heat_output: 0, seats: 0, labour: 110_000, taps: None, residents: 0, storage: Tonnes(40), wear: 0, farms: false, schooling: Education::Schooled, teaches: None, transforms: false, waste: 200_000, pollution: 300 },
        BuildingKind::MotorDepot => BuildingDef { kind: kind, name: "Motor Depot", width: Metres(90), depth: Metres(70), workers: 16, power_draw: 1000, power_output: 0, heat: 0, heat_output: 0, seats: 0, labour: 150_000, taps: None, residents: 0, storage: Tonnes(60), wear: 20, farms: false, schooling: Education::Schooled, teaches: None, transforms: false, waste: 300_000, pollution: 1000 },
        BuildingKind::GasStation => BuildingDef { kind: kind, name: "Gas Station", width: Metres(30), depth: Metres(20), workers: 4, power_draw: 1000, power_output: 0, heat: 0, heat_output: 0, seats: 0, labour: 90_000, taps: None, residents: 0, storage: Tonnes(40), wear: 5, farms: false, schooling: Education::Unschooled, teaches: None, transforms: false, waste: 50_000, pollution: 600 },
        BuildingKind::BusDepot => BuildingDef { kind: kind, name: "Bus Depot", width: Metres(70), depth: Metres(50), workers: 12, power_draw: 1000, power_output: 0, heat: 0, heat_output: 0, seats: 400, labour: 140_000, taps: None, residents: 0, storage: Tonnes(40), wear: 20, farms: false, schooling: Education::Schooled, teaches: None, transforms: false, waste: 250_000, pollution: 1000 },
        BuildingKind::Customs => BuildingDef { kind: kind, name: "Customs House", width: Metres(90), depth: Metres(60), workers: 8, power_draw: 2000, power_output: 0, heat: 0, heat_output: 0, seats: 0, labour: 200_000, taps: None, residents: 0, storage: Tonnes(200), wear: 0, farms: false, schooling: Education::Schooled, teaches: None, transforms: false, waste: 100_000, pollution: 150 },
    }
}

/// The vehicles a building keeps, and how many of each: a garage's establishment.
pub open spec fn vehicles_of(kind: BuildingKind) -> Seq<(VehicleKind, u32)> {
    match kind {
        BuildingKind::House => Seq::empty(),
        BuildingKind::Apartment => Seq::empty(),
        BuildingKind::Woodcutter => Seq::empty(),
        BuildingKind::Sawmill => Seq::empty(),
        BuildingKind::GravelQuarry => Seq::empty(),
        BuildingKind::Brickworks => Seq::empty(),
        BuildingKind::CoalMine => Seq::empty(),
        BuildingKind::IronMine => Seq::empty(),
        BuildingKind::SteelMill => Seq::empty(),
        BuildingKind::OilPump => Seq::empty(),
        BuildingKind::Refinery => Seq::empty(),
        BuildingKind::PowerPlant => Seq::empty(),
        BuildingKind::OilPowerPlant => Seq::empty(),
        BuildingKind::HeatingPlant => Seq::empty(),
        BuildingKind::Farm => Seq::empty(),
        BuildingKind::FoodFactory => Seq::empty(),
        BuildingKind::TextileMill => Seq::empty(),
        BuildingKind::MachineWorks => Seq::empty(),
        BuildingKind::Store => Seq::empty(),
        BuildingKind::Clinic => Seq::empty(),
        BuildingKind::CultureClub => Seq::empty(),
        BuildingKind::School => Seq::empty(),
        BuildingKind::University => Seq::empty(),
        BuildingKind::TransformerStation => Seq::empty(),
        BuildingKind::Landfill => Seq::empty(),
        BuildingKind::Incinerator => Seq::empty(),
        BuildingKind::Warehouse => Seq::empty(),
        BuildingKind::Depot => Seq::empty(),
        BuildingKind::ConstructionOffice => seq![(VehicleKind::CrewBus, 2u32)],
        BuildingKind::MotorDepot => seq![(VehicleKind::Lorry, 4u32), (VehicleKind::HeavyLorry, 2u32), (VehicleKind::RecoveryVehicle, 1u32)],
        BuildingKind::GasStation => Seq::empty(),
        BuildingKind::BusDepot => seq![(VehicleKind::Coach, 2u32)],
        BuildingKind::Customs => Seq::empty(),
    }
}

/// Kilograms a day a building consumes at full efficiency.
pub open spec fn inputs_of(kind: BuildingKind) -> Seq<(Resource, u64)> {
    match kind {
        BuildingKind::House => Seq::empty(),
        BuildingKind::Apartment => Seq::empty(),
        BuildingKind::Woodcutter => Seq::empty(),
        BuildingKind::Sawmill => seq![(Resource::Wood, 2000u64)],
        BuildingKind::GravelQuarry => Seq::empty(),
        BuildingKind::Brickworks => seq![(Resource::Gravel, 3000u64)],
        BuildingKind::CoalMine => Seq::empty(),
        BuildingKind::IronMine => Seq::empty(),
        BuildingKind::SteelMill => seq![(Resource::IronOre, 2000u64), (Resource::Coal, 1000u64)],
        BuildingKind::OilPump => Seq::empty(),
        BuildingKind::Refinery => seq![(Resource::Oil, 3000u64)],
        BuildingKind::PowerPlant => seq![(Resource::Coal, 4000u64)],
        BuildingKind::OilPowerPlant => seq![(Resource::Oil, 4000u64)],
        BuildingKind::HeatingPlant => seq![(Resource::Coal, 1000u64)],
        BuildingKind::Farm => Seq::empty(),
        BuildingKind::FoodFactory => seq![(Resource::Crops, 2500u64)],
        BuildingKind::TextileMill => seq![(Resource::Crops, 2000u64)],
        BuildingKind::MachineWorks => seq![(Resource::Steel, 3000u64)],
        BuildingKind::Store => Seq::empty(),
        BuildingKind::Clinic => Seq::empty(),
        BuildingKind::CultureClub => Seq::empty(),
        BuildingKind::School => Seq::empty(),
        BuildingKind::University => Seq::empty(),
        BuildingKind::TransformerStation => Seq::empty(),
        BuildingKind::Landfill => seq![(Resource::Waste, 10_000u64)],
        BuildingKind::Incinerator => seq![(Resource::Waste, 20_000u64)],
        BuildingKind::Warehouse => Seq::empty(),
        BuildingKind::Depot => Seq::empty(),
        BuildingKind::ConstructionOffice => seq![(Resource::Machinery, 300u64), (Resource::Fuel, 120u64)],
        BuildingKind::MotorDepot => seq![(Resource::Fuel, 200u64)],
        BuildingKind::GasStation => Seq::empty(),
        BuildingKind::BusDepot => seq![(Resource::Fuel, 800u64)],
        BuildingKind::Customs => Seq::empty(),
    }
}

/// Kilograms a day a building produces at full efficiency.
pub open spec fn outputs_of(kind: BuildingKind) -> Seq<(Resource, u64)> {
    match kind {
        BuildingKind::House => Seq::empty(),
        BuildingKind::Apartment => Seq::empty(),
        BuildingKind::Woodcutter => seq![(Resource::Wood, 4000u64)],
        BuildingKind::Sawmill => seq![(Resource::Planks, 3000u64)],
        BuildingKind::GravelQuarry => seq![(Resource::Gravel, 5000u64)],
        BuildingKind::Brickworks => seq![(Resource::Bricks, 4000u64)],
        BuildingKind::CoalMine => seq![(Resource::Coal, 6000u64)],
        BuildingKind::IronMine => seq![(Resource::IronOre, 5000u64)],
        BuildingKind::SteelMill => seq![(Resource::Steel, 1500u64)],
        BuildingKind::OilPump => seq![(Resource::Oil, 4000u64)],
        BuildingKind::Refinery => seq![(Resource::Fuel, 2000u64)],
        BuildingKind::PowerPlant => Seq::empty(),
        BuildingKind::OilPowerPlant => Seq::empty(),
        BuildingKind::HeatingPlant => Seq::empty(),
        BuildingKind::Farm => seq![(Resource::Crops, 6000u64)],
        BuildingKind::FoodFactory => seq![(Resource::Food, 2500u64)],
        BuildingKind::TextileMill => seq![(Resource::Clothes, 1200u64)],
        BuildingKind::MachineWorks => seq![(Resource::Machinery, 1000u64)],
        BuildingKind::Store => Seq::empty(),
        BuildingKind::Clinic => Seq::empty(),
        BuildingKind::CultureClub => Seq::empty(),
        BuildingKind::School => Seq::empty(),
        BuildingKind::University => Seq::empty(),
        BuildingKind::TransformerStation => Seq::empty(),
        BuildingKind::Landfill => Seq::empty(),
        BuildingKind::Incinerator => Seq::empty(),
        BuildingKind::Warehouse => Seq::empty(),
        BuildingKind::Depot => Seq::empty(),
        BuildingKind::ConstructionOffice => Seq::empty(),
        BuildingKind::MotorDepot => Seq::empty(),
        BuildingKind::GasStation => Seq::empty(),
        BuildingKind::BusDepot => Seq::empty(),
        BuildingKind::Customs => Seq::empty(),
    }
}

/// Tonnes of material a site consumes before it can open.
pub open spec fn materials_of(kind: BuildingKind) -> Seq<(Resource, u64)> {
    match kind {
        BuildingKind::House => seq![(Resource::Planks, 6u64), (Resource::Bricks, 4u64)],
        BuildingKind::Apartment => seq![(Resource::Planks, 10u64), (Resource::Bricks, 30u64), (Resource::Steel, 6u64), (Resource::Gravel, 8u64)],
        BuildingKind::Woodcutter => seq![(Resource::Planks, 4u64)],
        BuildingKind::Sawmill => seq![(Resource::Bricks, 10u64), (Resource::Planks, 6u64), (Resource::Steel, 2u64)],
        BuildingKind::GravelQuarry => seq![(Resource::Planks, 6u64), (Resource::Bricks, 4u64)],
        BuildingKind::Brickworks => seq![(Resource::Bricks, 12u64), (Resource::Steel, 4u64), (Resource::Planks, 4u64)],
        BuildingKind::CoalMine => seq![(Resource::Bricks, 15u64), (Resource::Steel, 6u64), (Resource::Planks, 4u64), (Resource::Machinery, 2u64)],
        BuildingKind::IronMine => seq![(Resource::Bricks, 15u64), (Resource::Steel, 6u64), (Resource::Planks, 4u64), (Resource::Machinery, 2u64)],
        BuildingKind::SteelMill => seq![(Resource::Bricks, 30u64), (Resource::Steel, 15u64), (Resource::Planks, 8u64), (Resource::Gravel, 16u64), (Resource::Machinery, 8u64)],
        BuildingKind::OilPump => seq![(Resource::Bricks, 12u64), (Resource::Steel, 10u64), (Resource::Machinery, 3u64)],
        BuildingKind::Refinery => seq![(Resource::Bricks, 30u64), (Resource::Steel, 18u64), (Resource::Planks, 6u64), (Resource::Gravel, 16u64), (Resource::Machinery, 6u64)],
        BuildingKind::PowerPlant => seq![(Resource::Bricks, 25u64), (Resource::Steel, 12u64), (Resource::Planks, 6u64), (Resource::Gravel, 12u64), (Resource::Machinery, 5u64)],
        BuildingKind::OilPowerPlant => seq![(Resource::Bricks, 30u64), (Resource::Steel, 18u64), (Resource::Planks, 6u64), (Resource::Gravel, 16u64), (Resource::Machinery, 8u64)],
        BuildingKind::HeatingPlant => seq![(Resource::Bricks, 18u64), (Resource::Steel, 8u64), (Resource::Planks, 4u64), (Resource::Machinery, 1u64)],
        BuildingKind::Farm => seq![(Resource::Planks, 12u64), (Resource::Bricks, 8u64)],
        BuildingKind::FoodFactory => seq![(Resource::Bricks, 18u64), (Resource::Steel, 6u64), (Resource::Planks, 6u64), (Resource::Machinery, 1u64)],
        BuildingKind::TextileMill => seq![(Resource::Bricks, 16u64), (Resource::Steel, 5u64), (Resource::Planks, 6u64), (Resource::Machinery, 1u64)],
        BuildingKind::MachineWorks => seq![(Resource::Bricks, 35u64), (Resource::Steel, 20u64), (Resource::Planks, 10u64), (Resource::Gravel, 16u64), (Resource::Machinery, 6u64)],
        BuildingKind::Store => seq![(Resource::Planks, 6u64), (Resource::Bricks, 8u64)],
        BuildingKind::Clinic => seq![(Resource::Bricks, 14u64), (Resource::Steel, 4u64), (Resource::Planks, 6u64)],
        BuildingKind::CultureClub => seq![(Resource::Planks, 8u64), (Resource::Bricks, 10u64)],
        BuildingKind::School => seq![(Resource::Bricks, 16u64), (Resource::Planks, 10u64), (Resource::Steel, 4u64)],
        BuildingKind::University => seq![(Resource::Bricks, 30u64), (Resource::Planks, 14u64), (Resource::Steel, 10u64), (Resource::Gravel, 12u64)],
        BuildingKind::TransformerStation => seq![(Resource::Bricks, 8u64), (Resource::Steel, 10u64), (Resource::Gravel, 6u64)],
        BuildingKind::Landfill => seq![(Resource::Gravel, 20u64), (Resource::Planks, 6u64)],
        BuildingKind::Incinerator => seq![(Resource::Bricks, 24u64), (Resource::Steel, 16u64), (Resource::Gravel, 14u64), (Resource::Machinery, 4u64)],
        BuildingKind::Warehouse => seq![(Resource::Planks, 8u64), (Resource::Bricks, 10u64)],
        BuildingKind::Depot => seq![(Resource::Bricks, 15u64), (Resource::Planks, 10u64)],
        BuildingKind::ConstructionOffice => seq![(Resource::Bricks, 10u64), (Resource::Planks, 8u64), (Resource::Machinery, 1u64)],
        BuildingKind::MotorDepot => seq![(Resource::Bricks, 18u64), (Resource::Planks, 12u64), (Resource::Steel, 6u64), (Resource::Gravel, 8u64)],
        BuildingKind::GasStation => seq![(Resource::Bricks, 8u64), (Resource::Steel, 6u64), (Resource::Planks, 4u64)],
        BuildingKind::BusDepot => seq![(Resource::Bricks, 16u64), (Resource::Planks, 10u64), (Resource::Steel, 5u64), (Resource::Gravel, 8u64)],
        BuildingKind::Customs => seq![(Resource::Bricks, 20u64), (Resource::Steel, 6u64), (Resource::Planks, 8u64), (Resource::Gravel, 10u64)],
    }
}

/// What a building puts on shelves for citizens to take.
pub open spec fn sells_of(kind: BuildingKind) -> Seq<Resource> {
    match kind {
        BuildingKind::House => Seq::empty(),
        BuildingKind::Apartment => Seq::empty(),
        BuildingKind::Woodcutter => Seq::empty(),
        BuildingKind::Sawmill => Seq::empty(),
        BuildingKind::GravelQuarry => Seq::empty(),
        BuildingKind::Brickworks => Seq::empty(),
        BuildingKind::CoalMine => Seq::empty(),
        BuildingKind::IronMine => Seq::empty(),
        BuildingKind::SteelMill => Seq::empty(),
        BuildingKind::OilPump => Seq::empty(),
        BuildingKind::Refinery => Seq::empty(),
        BuildingKind::PowerPlant => Seq::empty(),
        BuildingKind::OilPowerPlant => Seq::empty(),
        BuildingKind::HeatingPlant => Seq::empty(),
        BuildingKind::Farm => Seq::empty(),
        BuildingKind::FoodFactory => Seq::empty(),
        BuildingKind::TextileMill => Seq::empty(),
        BuildingKind::MachineWorks => Seq::empty(),
        BuildingKind::Store => seq![Resource::Food, Resource::Clothes],
        BuildingKind::Clinic => Seq::empty(),
        BuildingKind::CultureClub => Seq::empty(),
        BuildingKind::School => Seq::empty(),
        BuildingKind::University => Seq::empty(),
        BuildingKind::TransformerStation => Seq::empty(),
        BuildingKind::Landfill => Seq::empty(),
        BuildingKind::Incinerator => Seq::empty(),
        BuildingKind::Warehouse => Seq::empty(),
        BuildingKind::Depot => Seq::empty(),
        BuildingKind::ConstructionOffice => Seq::empty(),
        BuildingKind::MotorDepot => Seq::empty(),
        BuildingKind::GasStation => Seq::empty(),
        BuildingKind::BusDepot => Seq::empty(),
        BuildingKind::Customs => Seq::empty(),
    }
}

impl BuildingKind {
    /// The row of the building table for this kind.
    pub fn def(self) -> (d: BuildingDef)
        ensures
            d == building_def(self),
    {
        match self {
            BuildingKind::House => BuildingDef { kind: self, name: "Small House", width: Metres(12), depth: Metres(10), workers: 0, power_draw: 0, power_output: 0, heat: 500, heat_output: 0, seats: 0, labour: 60_000, taps: None, residents: 6, storage: Tonnes(2), wear: 0, farms: false, schooling: Education::Unschooled, teaches: None, transforms: false, waste: 1500, pollution: 20 },
            BuildingKind::Apartment => BuildingDef { kind: self, name: "Apartment Block", width: Metres(62), depth: Metres(14), workers: 0, power_draw: 3000, power_output: 0, heat: 2000, heat_output: 0, seats: 0, labour: 300_000, taps: None, residents: 48, storage: Tonnes(8), wear: 0, farms: false, schooling: Education::Unschooled, teaches: None, transforms: false, waste: 1500, pollution: 50 },
            BuildingKind::Woodcutter => BuildingDef { kind: self, name: "Woodcutter Post", width: Metres(20), depth: Metres(16), workers: 6, power_draw: 0, power_output: 0, heat: 0, heat_output: 0, seats: 0, labour: 50_000, taps: None, residents: 0, storage: Tonnes(30), wear: 10, farms: false, schooling: Education::Unschooled, teaches: None, transforms: false, waste: 50_000, pollution: 100 },
            BuildingKind::Sawmill => BuildingDef { kind: self, name: "Sawmill", width: Metres(34), depth: Metres(22), workers: 6, power_draw: 0, power_output: 0, heat: 0, heat_output: 0, seats: 0, labour: 120_000, taps: None, residents: 0, storage: Tonnes(40), wear: 15, farms: false, schooling: Education::Unschooled, teaches: None, transforms: false, waste: 200_000, pollution: 400 },
            BuildingKind::GravelQuarry => BuildingDef { kind: self, name: "Gravel Quarry", width: Metres(60), depth: Metres(60), workers: 8, power_draw: 0, power_output: 0, heat: 0, heat_output: 0, seats: 0, labour: 80_000, taps: Some(Mineral::Gravel), residents: 0, storage: Tonnes(60), wear: 20, farms: false, schooling: Education::Unschooled, teaches: None, transforms: false, waste: 100_000, pollution: 1200 },
            BuildingKind::Brickworks => BuildingDef { kind: self, name: "Brickworks", width: Metres(40), depth: Metres(28), workers: 10, power_draw: 0, power_output: 0, heat: 0, heat_output: 0, seats: 0, labour: 130_000, taps: None, residents: 0, storage: Tonnes(50), wear: 15, farms: false, schooling: Education::Unschooled, teaches: None, transforms: false, waste: 300_000, pollution: 1600 },
            BuildingKind::CoalMine => BuildingDef { kind: self, name: "Coal Mine", width: Metres(55), depth: Metres(45), workers: 14, power_draw: 6000, power_output: 0, heat: 0, heat_output: 0, seats: 0, labour: 200_000, taps: Some(Mineral::Coal), residents: 0, storage: Tonnes(60), wear: 30, farms: false, schooling: Education::Schooled, teaches: None, transforms: false, waste: 500_000, pollution: 2000 },
            BuildingKind::IronMine => BuildingDef { kind: self, name: "Iron Ore Mine", width: Metres(55), depth: Metres(45), workers: 14, power_draw: 6000, power_output: 0, heat: 0, heat_output: 0, seats: 0, labour: 200_000, taps: Some(Mineral::IronOre), residents: 0, storage: Tonnes(60), wear: 30, farms: false, schooling: Education::Schooled, teaches: None, transforms: false, waste: 500_000, pollution: 2000 },
            BuildingKind::SteelMill => BuildingDef { kind: self, name: "Steel Mill", width: Metres(180), depth: Metres(140), workers: 20, power_draw: 40_000, power_output: 0, heat: 0, heat_output: 0, seats: 0, labour: 220_000, taps: None, residents: 0, storage: Tonnes(40), wear: 30, farms: false, schooling: Education::Schooled, teaches: None, transforms: false, waste: 1_200_000, pollution: 6000 },
            BuildingKind::OilPump => BuildingDef { kind: self, name: "Oil Pump", width: Metres(24), depth: Metres(24), workers: 10, power_draw: 1000, power_output: 0, heat: 0, heat_output: 0, seats: 0, labour: 220_000, taps: Some(Mineral::Oil), residents: 0, storage: Tonnes(40), wear: 25, farms: false, schooling: Education::Schooled, teaches: None, transforms: false, waste: 200_000, pollution: 1500 },
            BuildingKind::Refinery => BuildingDef { kind: self, name: "Oil Refinery", width: Metres(160), depth: Metres(120), workers: 25, power_draw: 30_000, power_output: 0, heat: 0, heat_output: 0, seats: 0, labour: 420_000, taps: None, residents: 0, storage: Tonnes(60), wear: 30, farms: false, schooling: Education::Graduate, teaches: None, transforms: false, waste: 800_000, pollution: 5000 },
            BuildingKind::PowerPlant => BuildingDef { kind: self, name: "Coal Power Plant", width: Metres(150), depth: Metres(110), workers: 15, power_draw: 0, power_output: 60_000, heat: 0, heat_output: 0, seats: 0, labour: 200_000, taps: None, residents: 0, storage: Tonnes(80), wear: 25, farms: false, schooling: Education::Schooled, teaches: None, transforms: false, waste: 1_500_000, pollution: 8000 },
            BuildingKind::OilPowerPlant => BuildingDef { kind: self, name: "Oil Power Plant", width: Metres(140), depth: Metres(100), workers: 16, power_draw: 0, power_output: 70_000, heat: 0, heat_output: 0, seats: 0, labour: 400_000, taps: None, residents: 0, storage: Tonnes(80), wear: 25, farms: false, schooling: Education::Schooled, teaches: None, transforms: false, waste: 1_000_000, pollution: 5500 },
            BuildingKind::HeatingPlant => BuildingDef { kind: self, name: "Heating Plant", width: Metres(45), depth: Metres(35), workers: 8, power_draw: 1000, power_output: 0, heat: 0, heat_output: 8000, seats: 0, labour: 180_000, taps: None, residents: 0, storage: Tonnes(40), wear: 15, farms: false, schooling: Education::Schooled, teaches: None, transforms: false, waste: 400_000, pollution: 2200 },
            BuildingKind::Farm => BuildingDef { kind: self, name: "Collective Farm", width: Metres(240), depth: Metres(240), workers: 10, power_draw: 0, power_output: 0, heat: 0, heat_output: 0, seats: 0, labour: 150_000, taps: None, residents: 0, storage: Tonnes(60), wear: 20, farms: true, schooling: Education::Unschooled, teaches: None, transforms: false, waste: 200_000, pollution: 300 },
            BuildingKind::FoodFactory => BuildingDef { kind: self, name: "Food Factory", width: Metres(50), depth: Metres(35), workers: 12, power_draw: 4000, power_output: 0, heat: 0, heat_output: 0, seats: 0, labour: 200_000, taps: None, residents: 0, storage: Tonnes(50), wear: 15, farms: false, schooling: Education::Schooled, teaches: None, transforms: false, waste: 500_000, pollution: 600 },
            BuildingKind::TextileMill => BuildingDef { kind: self, name: "Textile Mill", width: Metres(55), depth: Metres(35), workers: 12, power_draw: 4000, power_output: 0, heat: 0, heat_output: 0, seats: 0, labour: 180_000, taps: None, residents: 0, storage: Tonnes(50), wear: 15, farms: false, schooling: Education::Schooled, teaches: None, transforms: false, waste: 400_000, pollution: 900 },
            BuildingKind::MachineWorks => BuildingDef { kind: self, name: "Machine Works", width: Metres(150), depth: Metres(110), workers: 22, power_draw: 20_000, power_output: 0, heat: 0, heat_output: 0, seats: 0, labour: 250_000, taps: None, residents: 0, storage: Tonnes(40), wear: 20, farms: false, schooling: Education::Graduate, teaches: None, transforms: false, waste: 700_000, pollution: 3000 },
            BuildingKind::Store => BuildingDef { kind: self, name: "State Store", width: Metres(30), depth: Metres(20), workers: 3, power_draw: 1000, power_output: 0, heat: 0, heat_output: 0, seats: 0, labour: 80_000, taps: None, residents: 0, storage: Tonnes(30), wear: 0, farms: false, schooling: Education::Unschooled, teaches: None, transforms: false, waste: 150_000, pollution: 50 },
            BuildingKind::Clinic => BuildingDef { kind: self, name: "Polyclinic", width: Metres(45), depth: Metres(30), workers: 6, power_draw: 2000, power_output: 0, heat: 0, heat_output: 0, seats: 0, labour: 150_000, taps: None, residents: 0, storage: Tonnes(10), wear: 0, farms: false, schooling: Education::Schooled, teaches: None, transforms: false, waste: 100_000, pollution: 100 },
            BuildingKind::CultureClub => BuildingDef { kind: self, name: "Culture Club", width: Metres(40), depth: Metres(30), workers: 4, power_draw: 1000, power_output: 0, heat: 0, heat_output: 0, seats: 0, labour: 100_000, taps: None, residents: 0, storage: Tonnes(10), wear: 0, farms: false, schooling: Education::Schooled, teaches: None, transforms: false, waste: 80_000, pollution: 20 },
            BuildingKind::School => BuildingDef { kind: self, name: "Ten-Year School", width: Metres(55), depth: Metres(35), workers: 10, power_draw: 2000, power_output: 0, heat: 1500, heat_output: 0, seats: 0, labour: 160_000, taps: None, residents: 0, storage: Tonnes(10), wear: 0, farms: false, schooling: Education::Schooled, teaches: Some(Teaching::School), transforms: false, waste: 120_000, pollution: 20 },
            BuildingKind::University => BuildingDef { kind: self, name: "Polytechnic Institute", width: Metres(90), depth: Metres(60), workers: 14, power_draw: 5000, power_output: 0, heat: 3000, heat_output: 0, seats: 0, labour: 320_000, taps: None, residents: 0, storage: Tonnes(20), wear: 0, farms: false, schooling: Education::Schooled, teaches: Some(Teaching::University), transforms: false, waste: 200_000, pollution: 50 },
            BuildingKind::TransformerStation => BuildingDef { kind: self, name: "Transformer Station", width: Metres(24), depth: Metres(20), workers: 3, power_draw: 0, power_output: 0, heat: 0, heat_output: 0, seats: 0, labour: 90_000, taps: None, residents: 0, storage: Tonnes(10), wear: 5, farms: false, schooling: Education::Schooled, teaches: None, transforms: true, waste: 0, pollution: 50 },
            BuildingKind::Landfill => BuildingDef { kind: self, name: "Landfill", width: Metres(120), depth: Metres(90), workers: 5, power_draw: 0, power_output: 0, heat: 0, heat_output: 0, seats: 0, labour: 100_000, taps: None, residents: 0, storage: Tonnes(400), wear: 10, farms: false, schooling: Education::Unschooled, teaches: None, transforms: false, waste: 0, pollution: 3500 },
            BuildingKind::Incinerator => BuildingDef { kind: self, name: "Refuse Incinerator", width: Metres(80), depth: Metres(60), workers: 12, power_draw: 0, power_output: 12_000, heat: 0, heat_output: 0, seats: 0, labour: 300_000, taps: None, residents: 0, storage: Tonnes(120), wear: 20, farms: false, schooling: Education::Schooled, teaches: None, transforms: false, waste: 0, pollution: 7000 },
            BuildingKind::Warehouse => BuildingDef { kind: self, name: "Warehouse", width: Metres(60), depth: Metres(30), workers: 2, power_draw: 1000, power_output: 0, heat: 0, heat_output: 0, seats: 0, labour: 90_000, taps: None, residents: 0, storage: Tonnes(200), wear: 0, farms: false, schooling: Education::Unschooled, teaches: None, transforms: false, waste: 50_000, pollution: 50 },
            BuildingKind::Depot => BuildingDef { kind: self, name: "Council Depot", width: Metres(80), depth: Metres(60), workers: 4, power_draw: 1000, power_output: 0, heat: 0, heat_output: 0, seats: 0, labour: 120_000, taps: None, residents: 0, storage: Tonnes(300), wear: 0, farms: false, schooling: Education::Unschooled, teaches: None, transforms: false, waste: 50_000, pollution: 100 },
            BuildingKind::ConstructionOffice => BuildingDef { kind: self, name: "Construction Office", width: Metres(35), depth: Metres(25), workers: 16, power_draw: 0, power_output: 0, heat: 0, heat_output: 0, seats: 0, labour: 110_000, taps: None, residents: 0, storage: Tonnes(40), wear: 0, farms: false, schooling: Education::Schooled, teaches: None, transforms: false, waste: 200_000, pollution: 300 },
            BuildingKind::MotorDepot => BuildingDef { kind: self, name: "Motor Depot", width: Metres(90), depth: Metres(70), workers: 16, power_draw: 1000, power_output: 0, heat: 0, heat_output: 0, seats: 0, labour: 150_000, taps: None, residents: 0, storage: Tonnes(60), wear: 20, farms: false, schooling: Education::Schooled, teaches: None, transforms: false, waste: 300_000, pollution: 1000 },
            BuildingKind::GasStation => BuildingDef { kind: self, name: "Gas Station", width: Metres(30), depth: Metres(20), workers: 4, power_draw: 1000, power_output: 0, heat: 0, heat_output: 0, seats: 0, labour: 90_000, taps: None, residents: 0, storage: Tonnes(40), wear: 5, farms: false, schooling: Education::Unschooled, teaches: None, transforms: false, waste: 50_000, pollution: 600 },
            BuildingKind::BusDepot => BuildingDef { kind: self, name: "Bus Depot", width: Metres(70), depth: Metres(50), workers: 12, power_draw: 1000, power_output: 0, heat: 0, heat_output: 0, seats: 400, labour: 140_000, taps: None, residents: 0, storage: Tonnes(40), wear: 20, farms: false, schooling: Education::Schooled, teaches: None, transforms: false, waste: 250_000, pollution: 1000 },
            BuildingKind::Customs => BuildingDef { kind: self, name: "Customs House", width: Metres(90), depth: Metres(60), workers: 8, power_draw: 2000, power_output: 0, heat: 0, heat_output: 0, seats: 0, labour: 200_000, taps: None, residents: 0, storage: Tonnes(200), wear: 0, farms: false, schooling: Education::Schooled, teaches: None, transforms: false, waste: 100_000, pollution: 150 },
        }
    }

    /// The vehicles a building keeps, and how many of each: a garage's establishment.
    pub fn vehicles(self) -> (r: Vec<(VehicleKind, u32)>)
        ensures
            r@ == vehicles_of(self),
    {
        let r: Vec<(VehicleKind, u32)> = match self {
            BuildingKind::House => vec![],
            BuildingKind::Apartment => vec![],
            BuildingKind::Woodcutter => vec![],
            BuildingKind::Sawmill => vec![],
            BuildingKind::GravelQuarry => vec![],
            BuildingKind::Brickworks => vec![],
            BuildingKind::CoalMine => vec![],
            BuildingKind::IronMine => vec![],
            BuildingKind::SteelMill => vec![],
            BuildingKind::OilPump => vec![],
            BuildingKind::Refinery => vec![],
            BuildingKind::PowerPlant => vec![],
            BuildingKind::OilPowerPlant => vec![],
            BuildingKind::HeatingPlant => vec![],
            BuildingKind::Farm => vec![],
            BuildingKind::FoodFactory => vec![],
            BuildingKind::TextileMill => vec![],
            BuildingKind::MachineWorks => vec![],
            BuildingKind::Store => vec![],
            BuildingKind::Clinic => vec![],
            BuildingKind::CultureClub => vec![],
            BuildingKind::School => vec![],
            BuildingKind::University => vec![],
            BuildingKind::TransformerStation => vec![],
            BuildingKind::Landfill => vec![],
            BuildingKind::Incinerator => vec![],
            BuildingKind::Warehouse => vec![],
            BuildingKind::Depot => vec![],
            BuildingKind::ConstructionOffice => vec![(VehicleKind::CrewBus, 2u32)],
            BuildingKind::MotorDepot => vec![(VehicleKind::Lorry, 4u32), (VehicleKind::HeavyLorry, 2u32), (VehicleKind::RecoveryVehicle, 1u32)],
            BuildingKind::GasStation => vec![],
            BuildingKind::BusDepot => vec![(VehicleKind::Coach, 2u32)],
            BuildingKind::Customs => vec![],
        };
        assert(r@ =~= vehicles_of(self));
        r
    }

    /// Kilograms a day a building consumes at full efficiency.
    pub fn inputs(self) -> (r: Vec<(Resource, u64)>)
        ensures
            r@ == inputs_of(self),
    {
        let r: Vec<(Resource, u64)> = match self {
            BuildingKind::House => vec![],
            BuildingKind::Apartment => vec![],
            BuildingKind::Woodcutter => vec![],
            BuildingKind::Sawmill => vec![(Resource::Wood, 2000u64)],
            BuildingKind::GravelQuarry => vec![],
            BuildingKind::Brickworks => vec![(Resource::Gravel, 3000u64)],
            BuildingKind::CoalMine => vec![],
            BuildingKind::IronMine => vec![],
            BuildingKind::SteelMill => vec![(Resource::IronOre, 2000u64), (Resource::Coal, 1000u64)],
            BuildingKind::OilPump => vec![],
            BuildingKind::Refinery => vec![(Resource::Oil, 3000u64)],
            BuildingKind::PowerPlant => vec![(Resource::Coal, 4000u64)],
            BuildingKind::OilPowerPlant => vec![(Resource::Oil, 4000u64)],
            BuildingKind::HeatingPlant => vec![(Resource::Coal, 1000u64)],
            BuildingKind::Farm => vec![],
            BuildingKind::FoodFactory => vec![(Resource::Crops, 2500u64)],
            BuildingKind::TextileMill => vec![(Resource::Crops, 2000u64)],
            BuildingKind::MachineWorks => vec![(Resource::Steel, 3000u64)],
            BuildingKind::Store => vec![],
            BuildingKind::Clinic => vec![],
            BuildingKind::CultureClub => vec![],
            BuildingKind::School => vec![],
            BuildingKind::University => vec![],
            BuildingKind::TransformerStation => vec![],
            BuildingKind::Landfill => vec![(Resource::Waste, 10_000u64)],
            BuildingKind::Incinerator => vec![(Resource::Waste, 20_000u64)],
            BuildingKind::Warehouse => vec![],
            BuildingKind::Depot => vec![],
            BuildingKind::ConstructionOffice => vec![(Resource::Machinery, 300u64), (Resource::Fuel, 120u64)],
            BuildingKind::MotorDepot => vec![(Resource::Fuel, 200u64)],
            BuildingKind::GasStation => vec![],
            BuildingKind::BusDepot => vec![(Resource::Fuel, 800u64)],
            BuildingKind::Customs => vec![],
        };
        assert(r@ =~= inputs_of(self));
        r
    }

    /// Kilograms a day a building produces at full efficiency.
    pub fn outputs(self) -> (r: Vec<(Resource, u64)>)
        ensures
            r@ == outputs_of(self),
    {
        let r: Vec<(Resource, u64)> = match self {
            BuildingKind::House => vec![],
            BuildingKind::Apartment => vec![],
            BuildingKind::Woodcutter => vec![(Resource::Wood, 4000u64)],
            BuildingKind::Sawmill => vec![(Resource::Planks, 3000u64)],
            BuildingKind::GravelQuarry => vec![(Resource::Gravel, 5000u64)],
            BuildingKind::Brickworks => vec![(Resource::Bricks, 4000u64)],
            BuildingKind::CoalMine => vec![(Resource::Coal, 6000u64)],
            BuildingKind::IronMine => vec![(Resource::IronOre, 5000u64)],
            BuildingKind::SteelMill => vec![(Resource::Steel, 1500u64)],
            BuildingKind::OilPump => vec![(Resource::Oil, 4000u64)],
            BuildingKind::Refinery => vec![(Resource::Fuel, 2000u64)],
            BuildingKind::PowerPlant => vec![],
            BuildingKind::OilPowerPlant => vec![],
            BuildingKind::HeatingPlant => vec![],
            BuildingKind::Farm => vec![(Resource::Crops, 6000u64)],
            BuildingKind::FoodFactory => vec![(Resource::Food, 2500u64)],
            BuildingKind::TextileMill => vec![(Resource::Clothes, 1200u64)],
            BuildingKind::MachineWorks => vec![(Resource::Machinery, 1000u64)],
            BuildingKind::Store => vec![],
            BuildingKind::Clinic => vec![],
            BuildingKind::CultureClub => vec![],
            BuildingKind::School => vec![],
            BuildingKind::University => vec![],
            BuildingKind::TransformerStation => vec![],
            BuildingKind::Landfill => vec![],
            BuildingKind::Incinerator => vec![],
            BuildingKind::Warehouse => vec![],
            BuildingKind::Depot => vec![],
            BuildingKind::ConstructionOffice => vec![],
            BuildingKind::MotorDepot => vec![],
            BuildingKind::GasStation => vec![],
            BuildingKind::BusDepot => vec![],
            BuildingKind::Customs => vec![],
        };
        assert(r@ =~= outputs_of(self));
        r
    }

    /// Tonnes of material a site consumes before it can open.
    pub fn materials(self) -> (r: Vec<(Resource, u64)>)
        ensures
            r@ == materials_of(self),
    {
        let r: Vec<(Resource, u64)> = match self {
            BuildingKind::House => vec![(Resource::Planks, 6u64), (Resource::Bricks, 4u64)],
            BuildingKind::Apartment => vec![(Resource::Planks, 10u64), (Resource::Bricks, 30u64), (Resource::Steel, 6u64), (Resource::Gravel, 8u64)],
            BuildingKind::Woodcutter => vec![(Resource::Planks, 4u64)],
            BuildingKind::Sawmill => vec![(Resource::Bricks, 10u64), (Resource::Planks, 6u64), (Resource::Steel, 2u64)],
            BuildingKind::GravelQuarry => vec![(Resource::Planks, 6u64), (Resource::Bricks, 4u64)],
            BuildingKind::Brickworks => vec![(Resource::Bricks, 12u64), (Resource::Steel, 4u64), (Resource::Planks, 4u64)],
            BuildingKind::CoalMine => vec![(Resource::Bricks, 15u64), (Resource::Steel, 6u64), (Resource::Planks, 4u64), (Resource::Machinery, 2u64)],
            BuildingKind::IronMine => vec![(Resource::Bricks, 15u64), (Resource::Steel, 6u64), (Resource::Planks, 4u64), (Resource::Machinery, 2u64)],
            BuildingKind::SteelMill => vec![(Resource::Bricks, 30u64), (Resource::Steel, 15u64), (Resource::Planks, 8u64), (Resource::Gravel, 16u64), (Resource::Machinery, 8u64)],
            BuildingKind::OilPump => vec![(Resource::Bricks, 12u64), (Resource::Steel, 10u64), (Resource::Machinery, 3u64)],
            BuildingKind::Refinery => vec![(Resource::Bricks, 30u64), (Resource::Steel, 18u64), (Resource::Planks, 6u64), (Resource::Gravel, 16u64), (Resource::Machinery, 6u64)],
            BuildingKind::PowerPlant => vec![(Resource::Bricks, 25u64), (Resource::Steel, 12u64), (Resource::Planks, 6u64), (Resource::Gravel, 12u64), (Resource::Machinery, 5u64)],
            BuildingKind::OilPowerPlant => vec![(Resource::Bricks, 30u64), (Resource::Steel, 18u64), (Resource::Planks, 6u64), (Resource::Gravel, 16u64), (Resource::Machinery, 8u64)],
            BuildingKind::HeatingPlant => vec![(Resource::Bricks, 18u64), (Resource::Steel, 8u64), (Resource::Planks, 4u64), (Resource::Machinery, 1u64)],
            BuildingKind::Farm => vec![(Resource::Planks, 12u64), (Resource::Bricks, 8u64)],
            BuildingKind::FoodFactory => vec![(Resource::Bricks, 18u64), (Resource::Steel, 6u64), (Resource::Planks, 6u64), (Resource::Machinery, 1u64)],
            BuildingKind::TextileMill => vec![(Resource::Bricks, 16u64), (Resource::Steel, 5u64), (Resource::Planks, 6u64), (Resource::Machinery, 1u64)],
            BuildingKind::MachineWorks => vec![(Resource::Bricks, 35u64), (Resource::Steel, 20u64), (Resource::Planks, 10u64), (Resource::Gravel, 16u64), (Resource::Machinery, 6u64)],
            BuildingKind::Store => vec![(Resource::Planks, 6u64), (Resource::Bricks, 8u64)],
            BuildingKind::Clinic => vec![(Resource::Bricks, 14u64), (Resource::Steel, 4u64), (Resource::Planks, 6u64)],
            BuildingKind::CultureClub => vec![(Resource::Planks, 8u64), (Resource::Bricks, 10u64)],
            BuildingKind::School => vec![(Resource::Bricks, 16u64), (Resource::Planks, 10u64), (Resource::Steel, 4u64)],
            BuildingKind::University => vec![(Resource::Bricks, 30u64), (Resource::Planks, 14u64), (Resource::Steel, 10u64), (Resource::Gravel, 12u64)],
            BuildingKind::TransformerStation => vec![(Resource::Bricks, 8u64), (Resource::Steel, 10u64), (Resource::Gravel, 6u64)],
            BuildingKind::Landfill => vec![(Resource::Gravel, 20u64), (Resource::Planks, 6u64)],
            BuildingKind::Incinerator => vec![(Resource::Bricks, 24u64), (Resource::Steel, 16u64), (Resource::Gravel, 14u64), (Resource::Machinery, 4u64)],
            BuildingKind::Warehouse => vec![(Resource::Planks, 8u64), (Resource::Bricks, 10u64)],
            BuildingKind::Depot => vec![(Resource::Bricks, 15u64), (Resource::Planks, 10u64)],
            BuildingKind::ConstructionOffice => vec![(Resource::Bricks, 10u64), (Resource::Planks, 8u64), (Resource::Machinery, 1u64)],
            BuildingKind::MotorDepot => vec![(Resource::Bricks, 18u64), (Resource::Planks, 12u64), (Resource::Steel, 6u64), (Resource::Gravel, 8u64)],
            BuildingKind::GasStation => vec![(Resource::Bricks, 8u64), (Resource::Steel, 6u64), (Resource::Planks, 4u64)],
            BuildingKind::BusDepot => vec![(Resource::Bricks, 16u64), (Resource::Planks, 10u64), (Resource::Steel, 5u64), (Resource::Gravel, 8u64)],
            BuildingKind::Customs => vec![(Resource::Bricks, 20u64), (Resource::Steel, 6u64), (Resource::Planks, 8u64), (Resource::Gravel, 10u64)],
        };
        assert(r@ =~= materials_of(self));
        r
    }

    /// What a building puts on shelves for citizens to take.
    pub fn sells(self) -> (r: Vec<Resource>)
        ensures
            r@ == sells_of(self),
    {
        let r: Vec<Resource> = match self {
            BuildingKind::House => vec![],
            BuildingKind::Apartment => vec![],
            BuildingKind::Woodcutter => vec![],
            BuildingKind::Sawmill => vec![],
            BuildingKind::GravelQuarry => vec![],
            BuildingKind::Brickworks => vec![],
            BuildingKind::CoalMine => vec![],
            BuildingKind::IronMine => vec![],
            BuildingKind::SteelMill => vec![],
            BuildingKind::OilPump => vec![],
            BuildingKind::Refinery => vec![],
            BuildingKind::PowerPlant => vec![],
            BuildingKind::OilPowerPlant => vec![],
            BuildingKind::HeatingPlant => vec![],
            BuildingKind::Farm => vec![],
            BuildingKind::FoodFactory => vec![],
            BuildingKind::TextileMill => vec![],
            BuildingKind::MachineWorks => vec![],
            BuildingKind::Store => vec![Resource::Food, Resource::Clothes],
            BuildingKind::Clinic => vec![],
            BuildingKind::CultureClub => vec![],
            BuildingKind::School => vec![],
            BuildingKind::University => vec![],
            BuildingKind::TransformerStation => vec![],
            BuildingKind::Landfill => vec![],
            BuildingKind::Incinerator => vec![],
            BuildingKind::Warehouse => vec![],
            BuildingKind::Depot => vec![],
            BuildingKind::ConstructionOffice => vec![],
            BuildingKind::MotorDepot => vec![],
            BuildingKind::GasStation => vec![],
            BuildingKind::BusDepot => vec![],
            BuildingKind::Customs => vec![],
        };
        assert(r@ =~= sells_of(self));
        r
    }
}

impl BuildingDef {
    /// Whether some system other than production burns this building's
    /// inputs: a boiler house against the temperature, a bus depot against
    /// seats filled, a garage against kilometres driven. Read off the authored
    /// data rather than a list of kinds.
    pub fn burns_its_own_inputs(&self) -> (r: bool)
        ensures
            r == (self.heat_output > 0 || self.seats > 0 || vehicles_of(self.kind).len() > 0),
    {
        self.heat_output > 0 || self.seats > 0 || self.kind.vehicles().len() > 0
    }
}

/// A stable handle to a placed building.
#[derive(Debug, Clone, Copy, PartialEq, Eq, Structural, Hash, PartialOrd, Ord)]
pub struct BuildingId(pub u32);

/// Why a building could not go there.
#[derive(Debug, Clone, Copy, PartialEq, Eq, Structural)]
pub enum PlacementError {
    /// Off the map, or the ground will not take it.
    Unbuildable,
    /// Something is already standing there.
    Occupied,
    /// An extractor with no body of its mineral beneath.
    NothingToTap(Mineral),
    /// A customs house away from the border. Trade is physical: a crossing has
    /// to be at the crossing.
    NotOnTheBorder,
}

/// What a placement refusal says.
pub open spec fn placement_message(why: PlacementError) -> Seq<char> {
    match why {
        PlacementError::Unbuildable => "the ground here will not take it"@,
        PlacementError::Occupied => "something already stands here"@,
        PlacementError::NothingToTap(m) => "there is no "@ + mineral_name(m) + " beneath this ground"@,
        PlacementError::NotOnTheBorder => "a customs house must stand at the national border"@,
    }
}

impl PlacementError {
    /// The refusal in words a panel can print.
    pub fn message(&self) -> (s: String)
        ensures
            s@ == placement_message(*self),
    {
        match self {
            PlacementError::Unbuildable => String::from_str("the ground here will not take it"),
            PlacementError::Occupied => String::from_str("something already stands here"),
            PlacementError::NothingToTap(mineral) => {
                let mut s = String::from_str("there is no ");
                s.append(mineral.name());
                s.append(" beneath this ground");
                s
            },
            PlacementError::NotOnTheBorder => String::from_str(
                "a customs house must stand at the national border",
            ),
        }
    }
}

/// A building standing on the map, or a site where one is going up.
#[derive(Debug, Clone, Copy, PartialEq, Eq)]
pub struct Building {
    pub id: BuildingId,
    pub kind: BuildingKind,
    /// Centre of the footprint.
    pub centre: Point,
    pub stock: Stock,
    /// People actually turning up — set by the labour system.
    pub staff: u32,
    /// Whether the grid is feeding it.
    pub powered: bool,
    /// Whether the boilers are reaching it. `true` all summer.
    pub heated: bool,
    /// How much of its residents' needs the shops met, in thousandths.
    pub provisioned: u32,
    /// Builder-work done on the site so far, in thousandths of a builder-day.
    /// A building is a site until this reaches its labour.
    pub work_done: u64,
    /// The body it works, once sited.
    pub tapped: Option<DepositId>,
}

/// The first entry for a resource in a list of quantities, or nothing.
pub open spec fn quantity_in(list: Seq<(Resource, u64)>, r: Resource) -> u64
    decreases list.len(),
{
    if list.len() == 0 {
        0
    } else if list[0].0 == r {
        list[0].1
    } else {
        quantity_in(list.drop_first(), r)
    }
}

/// The share of the build still to do, in thousandths of a builder-day.
pub open spec fn work_left(kind: BuildingKind, work_done: u64) -> int {
    let labour = building_def(kind).labour;
    if work_done >= labour {
        0
    } else {
        labour - work_done
    }
}

/// What is still to be brought of a material: what the work left needs of
/// it, rounded up to a whole tonne, less what is on hand.
pub open spec fn outstanding(b: Building, r: Resource) -> int {
    let labour = building_def(b.kind).labour;
    let wanted = if labour == 0 {
        0
    } else {
        (quantity_in(materials_of(b.kind), r) * work_left(b.kind, b.work_done) + labour - 1) / (labour as int)
    };
    if wanted >= b.stock.amount_of(r) {
        wanted - b.stock.amount_of(r)
    } else {
        0
    }
}

/// The rectangle a footprint covers, in half-metres so odd sizes stay exact:
/// `(min_x, min_y, max_x, max_y)`.
pub open spec fn footprint(kind: BuildingKind, centre: Point) -> (int, int, int, int) {
    let d = building_def(kind);
    (2 * centre.x.0 - d.width.0, 2 * centre.y.0 - d.depth.0, 2 * centre.x.0 + d.width.0, 2 * centre.y.0 + d.depth.0)
}

/// Whether two footprints share ground. Touching edges do not.
pub open spec fn overlap(a: (int, int, int, int), b: (int, int, int, int)) -> bool {
    a.0 < b.2 && b.0 < a.2 && a.1 < b.3 && b.1 < a.3
}

fn quantity_of(list: &Vec<(Resource, u64)>, r: Resource) -> (q: u64)
    ensures
        q == quantity_in(list@, r),
{
    let mut i: usize = 0;
    assert(list@.skip(0) =~= list@);
    while i < list.len()
        invariant
            i <= list@.len(),
            quantity_in(list@, r) == quantity_in(list@.skip(i as int), r),
        decreases list@.len() - i,
    {
        proof {
            assert(list@.skip(i as int).drop_first() =~= list@.skip(i + 1));
        }
        if list[i].0 == r {
            return list[i].1;
        }
        i = i + 1;
    }
    0
}

impl Building {
    pub fn def(&self) -> (d: BuildingDef)
        ensures
            d == building_def(self.kind),
    {
        self.kind.def()
    }

    /// Whether the site is finished and open.
    pub fn is_built(&self) -> (r: bool)
        ensures
            r == (self.work_done >= building_def(self.kind).labour),
    {
        self.work_done >= self.def().labour
    }

    /// How far along the site is, in thousandths.
    pub fn progress(&self) -> (p: u32)
        ensures
            p == if building_def(self.kind).labour == 0 || self.work_done >= building_def(self.kind).labour {
                1000
            } else {
                self.work_done * 1000 / (building_def(self.kind).labour as int)
            },
    {
        let labour = self.def().labour;
        if labour == 0 || self.work_done >= labour {
            return 1000;
        }
        let p = self.work_done as u128 * 1000 / labour as u128;
        assert(p < 1000) by (nonlinear_arith)
            requires
                p == self.work_done * 1000 / (labour as int),
                self.work_done < labour,
        ;
        p as u32
    }

    /// Whether the materials for the work still to do are on hand.
    ///
    /// The bill is consumed in step with the work, so the requirement falls
    /// as the work is done: a site that has had its full bill once never reads
    /// as short of it, and what a site consumes over its life is its bill.
    pub fn has_materials(&self) -> (r: bool)
        ensures
            r == forall|i: int|
                0 <= i < materials_of(self.kind).len() ==> #[trigger] self.stock.amount_of(materials_of(self.kind)[i].0)
                    * building_def(self.kind).labour >= materials_of(self.kind)[i].1 * work_left(self.kind, self.work_done),
    {
        let def = self.def();
        let labour = def.labour;
        let left: u64 = if self.work_done >= labour {
            0
        } else {
            labour - self.work_done
        };
        let bill = self.kind.materials();
        let mut i: usize = 0;
        while i < bill.len()
            invariant
                bill@ == materials_of(self.kind),
                labour == building_def(self.kind).labour,
                left == work_left(self.kind, self.work_done),
                i <= bill@.len(),
                forall|j: int|
                    0 <= j < i ==> #[trigger] self.stock.amount_of(bill@[j].0) * labour >= bill@[j].1 * left,
            decreases bill@.len() - i,
        {
            let (r, q) = bill[i];
            let held = self.stock.get(r).0 as u128;
            let lab = labour as u128;
            let qq = q as u128;
            let lf = left as u128;
            assert(held * lab <= 0xFFFF_FFFF_FFFF_FFFF * 0xFFFF_FFFF_FFFF_FFFF) by (nonlinear_arith)
                requires
                    held <= 0xFFFF_FFFF_FFFF_FFFF,
                    lab <= 0xFFFF_FFFF_FFFF_FFFF,
            ;
            assert(qq * lf <= 0xFFFF_FFFF_FFFF_FFFF * 0xFFFF_FFFF_FFFF_FFFF) by (nonlinear_arith)
                requires
                    qq <= 0xFFFF_FFFF_FFFF_FFFF,
                    lf <= 0xFFFF_FFFF_FFFF_FFFF,
            ;
            if held * lab < qq * lf {
                assert(!(self.stock.amount_of(bill@[i as int].0) * labour >= bill@[i as int].1 * left));
                return false;
            }
            i = i + 1;
        }
        true
    }

    /// How much of a material the site still has to be brought, in whole
    /// tonnes.
    pub fn material_outstanding(&self, resource: Resource) -> (t: Tonnes)
        ensures
            t.0 == outstanding(*self, resource),
    {
        let labour = self.def().labour;
        let left: u64 = if self.work_done >= labour {
            0
        } else {
            labour - self.work_done
        };
        let q = quantity_of(&self.kind.materials(), resource);
        let qq = q as u128;
        let lf = left as u128;
        assert(qq * lf <= 0xFFFF_FFFF_FFFF_FFFF * 0xFFFF_FFFF_FFFF_FFFF) by (nonlinear_arith)
            requires
                qq <= 0xFFFF_FFFF_FFFF_FFFF,
                lf <= 0xFFFF_FFFF_FFFF_FFFF,
        ;
        let wanted: u128 = if labour == 0 {
            0
        } else {
            (qq * lf + labour as u128 - 1) / labour as u128
        };
        let held = self.stock.get(resource).0 as u128;
        if labour > 0 {
            assert(wanted <= q) by (nonlinear_arith)
                requires
                    wanted == (q * left + labour - 1) / (labour as int),
                    left <= labour,
                    labour > 0,
            ;
        }
        if wanted >= held {
            Tonnes((wanted - held) as u64)
        } else {
            Tonnes(0)
        }
    }

    /// How much of its work it can do from staffing alone, in thousandths:
    /// all of it when it has no jobs, and never more than all of it.
    pub fn staffing(&self) -> (s: u32)
        ensures
            s == if building_def(self.kind).workers == 0 || self.staff >= building_def(self.kind).workers {
                1000
            } else {
                self.staff * 1000 / (building_def(self.kind).workers as int)
            },
    {
        let jobs = self.def().workers;
        if jobs == 0 || self.staff >= jobs {
            return 1000;
        }
        let s = self.staff as u64 * 1000 / jobs as u64;
        assert(s < 1000) by (nonlinear_arith)
            requires
                s == self.staff * 1000 / (jobs as int),
                self.staff < jobs,
        ;
        s as u32
    }

    /// The rectangle it occupies, in half-metres: `(min_x, min_y, max_x,
    /// max_y)`.
    pub fn bounds(&self) -> (r: (i128, i128, i128, i128))
        ensures
            (r.0 as int, r.1 as int, r.2 as int, r.3 as int) == footprint(self.kind, self.centre),
    {
        let d = self.def();
        let x = self.centre.x.0 as i128;
        let y = self.centre.y.0 as i128;
        (2 * x - d.width.0 as i128, 2 * y - d.depth.0 as i128, 2 * x + d.width.0 as i128, 2 * y + d.depth.0 as i128)
    }

    /// Whether it shares ground with another.
    pub fn overlaps(&self, other: &Building) -> (r: bool)
        ensures
            r == overlap(footprint(self.kind, self.centre), footprint(other.kind, other.centre)),
    {
        let (ax0, ay0, ax1, ay1) = self.bounds();
        let (bx0, by0, bx1, by1) = other.bounds();
        ax0 < bx1 && bx0 < ax1 && ay0 < by1 && by0 < ay1
    }

    pub fn storage_cap(&self) -> (t: Tonnes)
        ensures
            t == building_def(self.kind).storage,
    {
        self.def().storage
    }

    /// How much of a resource it may hold. A site may hold at least its bill
    /// of that material, even past the bin it will have once open, or a
    /// building whose construction needs more than it stores could never be
    /// built at all.
    pub fn intake_capacity(&self, resource: Resource) -> (t: Tonnes)
        ensures
            t.0 == if self.work_done >= building_def(self.kind).labour
                || building_def(self.kind).storage.0 >= quantity_in(materials_of(self.kind), resource) {
                building_def(self.kind).storage.0
            } else {
                quantity_in(materials_of(self.kind), resource)
            },
    {
        if self.is_built() {
            return self.storage_cap();
        }
        let needed = quantity_of(&self.kind.materials(), resource);
        let bin = self.storage_cap().0;
        Tonnes(if bin >= needed { bin } else { needed })
    }
}

/// The bodies a mine at a point could tap, shallowest first, as the survey
/// lists them.
pub open spec fn tap_candidates(bodies: Seq<Deposit>, at: Point) -> Seq<DepositId> {
    covering_keys(bodies, at).sort_by(|a: (i64, u32), b: (i64, u32)| key_leq(a, b)).map_values(|k: (i64, u32)| DepositId(k.1))
}

/// The first of `ids` naming a body of `mineral`.
pub open spec fn first_of_mineral(bodies: Seq<Deposit>, ids: Seq<DepositId>, mineral: Mineral) -> Option<DepositId>
    decreases ids.len(),
{
    if ids.len() == 0 {
        None
    } else if has_id(bodies, ids[0]) && bodies[index_of(bodies, ids[0])].mineral == mineral {
        Some(ids[0])
    } else {
        first_of_mineral(bodies, ids.drop_first(), mineral)
    }
}

/// Whether anything already standing shares ground with a footprint.
pub open spec fn occupied(list: Seq<Building>, kind: BuildingKind, centre: Point) -> bool {
    exists|i: int| 0 <= i < list.len() && overlap(footprint(#[trigger] list[i].kind, list[i].centre), footprint(kind, centre))
}

/// Whether a building may go there, and which body it would tap.
pub open spec fn placement(
    list: Seq<Building>,
    kind: BuildingKind,
    centre: Point,
    ground_takes_it: bool,
    bodies: Seq<Deposit>,
) -> Result<Option<DepositId>, PlacementError> {
    if !ground_takes_it {
        Err(PlacementError::Unbuildable)
    } else if occupied(list, kind, centre) {
        Err(PlacementError::Occupied)
    } else {
        match building_def(kind).taps {
            None => Ok(None),
            Some(m) => match first_of_mineral(bodies, tap_candidates(bodies, centre), m) {
                Some(id) => Ok(Some(id)),
                None => Err(PlacementError::NothingToTap(m)),
            },
        }
    }
}

/// A site just commissioned: nothing delivered, nobody working, nothing done.
pub open spec fn new_site(b: Building, id: BuildingId, kind: BuildingKind, centre: Point, tapped: Option<DepositId>) -> bool {
    &&& b.id == id
    &&& b.kind == kind
    &&& b.centre == centre
    &&& forall|r: Resource| #[trigger] b.stock.amount_of(r) == 0
    &&& b.staff == 0
    &&& !b.powered
    &&& b.heated
    &&& b.provisioned == 0
    &&& b.tapped == tapped
}

/// Index of the first building with an id, or the count when none has it.
pub open spec fn building_index(list: Seq<Building>, id: BuildingId) -> int
    decreases list.len(),
{
    if list.len() == 0 {
        0
    } else if list[0].id == id {
        0
    } else {
        1 + building_index(list.drop_first(), id)
    }
}

/// People the finished buildings can house.
pub open spec fn housing_of(list: Seq<Building>) -> int
    decreases list.len(),
{
    if list.len() == 0 {
        0
    } else {
        housing_of(list.drop_last()) + if list.last().work_done >= building_def(list.last().kind).labour {
            building_def(list.last().kind).residents as int
        } else {
            0
        }
    }
}

/// Jobs the finished buildings offer, staffed or not.
pub open spec fn jobs_of(list: Seq<Building>) -> int
    decreases list.len(),
{
    if list.len() == 0 {
        0
    } else {
        jobs_of(list.drop_last()) + if list.last().work_done >= building_def(list.last().kind).labour {
            building_def(list.last().kind).workers as int
        } else {
            0
        }
    }
}

proof fn lemma_index_is(list: Seq<Building>, id: BuildingId, i: int)
    requires
        0 <= i <= list.len(),
        forall|j: int| 0 <= j < i ==> (#[trigger] list[j]).id != id,
        i == list.len() || list[i].id == id,
    ensures
        building_index(list, id) == i,
    decreases i,
{
    if i > 0 {
        let rest = list.drop_first();
        assert(list[0].id != id);
        assert forall|j: int| 0 <= j < i - 1 implies (#[trigger] rest[j]).id != id by {
            assert(rest[j] == list[j + 1]);
        }
        if i < list.len() {
            assert(rest[i - 1] == list[i]);
        }
        lemma_index_is(rest, id, i - 1);
    }
}

/// Where no two buildings share an id, a building's id finds that building.
pub proof fn lemma_index_of_member(list: Seq<Building>, k: int)
    requires
        0 <= k < list.len(),
        forall|i: int, j: int| 0 <= i < j < list.len() ==> (#[trigger] list[i]).id != (#[trigger] list[j]).id,
    ensures
        building_index(list, list[k].id) == k,
{
    assert forall|j: int| 0 <= j < k implies (#[trigger] list[j]).id != list[k].id by {
        assert(list[j].id != list[k].id);
    }
    lemma_index_is(list, list[k].id, k);
}

proof fn lemma_first_of_mineral_skip(bodies: Seq<Deposit>, ids: Seq<DepositId>, mineral: Mineral, i: int)
    requires
        0 <= i < ids.len(),
        !(has_id(bodies, ids[i]) && bodies[index_of(bodies, ids[i])].mineral == mineral),
    ensures
        first_of_mineral(bodies, ids.skip(i), mineral) == first_of_mineral(bodies, ids.skip(i + 1), mineral),
{
    assert(ids.skip(i).drop_first() =~= ids.skip(i + 1));
}

/// The footprint of a kind set down at a point, in half-metres.
fn footprint_at(kind: BuildingKind, centre: Point) -> (r: (i128, i128, i128, i128))
    ensures
        (r.0 as int, r.1 as int, r.2 as int, r.3 as int) == footprint(kind, centre),
{
    let d = kind.def();
    let x = centre.x.0 as i128;
    let y = centre.y.0 as i128;
    (2 * x - d.width.0 as i128, 2 * y - d.depth.0 as i128, 2 * x + d.width.0 as i128, 2 * y + d.depth.0 as i128)
}

/// Every building in the republic.
#[derive(Debug, Clone, PartialEq, Eq)]
pub struct Buildings {
    list: Vec<Building>,
    next_id: u32,
}

impl Buildings {
    pub closed spec fn buildings(&self) -> Seq<Building> {
        self.list@
    }

    pub closed spec fn next_id_spec(&self) -> u32 {
        self.next_id
    }

    /// Ids are handed out in order, so every building's id is below the next
    /// one and no two buildings share one.
    pub open spec fn wf(&self) -> bool {
        &&& 1 <= self.next_id_spec()
        &&& forall|i: int| 0 <= i < self.buildings().len() ==> (#[trigger] self.buildings()[i]).id.0 < self.next_id_spec()
        &&& forall|i: int, j: int|
            0 <= i < j < self.buildings().len() ==> (#[trigger] self.buildings()[i]).id != (#[trigger] self.buildings()[j]).id
    }

    pub fn new() -> (b: Buildings)
        ensures
            b.wf(),
            b.buildings() == Seq::<Building>::empty(),
            b.next_id_spec() == 1,
    {
        Buildings { list: Vec::new(), next_id: 1 }
    }

    pub fn all(&self) -> (r: &[Building])
        ensures
            r@ == self.buildings(),
    {
        self.list.as_slice()
    }

    /// How many buildings the republic has ever commissioned. A building's id
    /// is its place in that order.
    pub fn commissioned(&self) -> (n: u64)
        requires
            self.wf(),
        ensures
            n == self.next_id_spec() - 1,
    {
        self.next_id as u64 - 1
    }

    fn find(&self, id: BuildingId) -> (r: Option<usize>)
        ensures
            match r {
                Some(i) => i == building_index(self.buildings(), id) && i < self.buildings().len() && self.buildings()[i as int].id == id,
                None => building_index(self.buildings(), id) == self.buildings().len(),
            },
            r is None ==> forall|j: int| 0 <= j < self.buildings().len() ==> (#[trigger] self.buildings()[j]).id != id,
    {
        let mut i: usize = 0;
        while i < self.list.len()
            invariant
                i <= self.list@.len(),
                forall|j: int| 0 <= j < i ==> (#[trigger] self.list@[j]).id != id,
            decreases self.list@.len() - i,
        {
            if self.list[i].id == id {
                proof {
                    lemma_index_is(self.list@, id, i as int);
                }
                return Some(i);
            }
            i = i + 1;
        }
        proof {
            lemma_index_is(self.list@, id, i as int);
        }
        None
    }

    pub fn get(&self, id: BuildingId) -> (r: Option<&Building>)
        ensures
            match r {
                Some(b) => building_index(self.buildings(), id) < self.buildings().len() && *b
                    == self.buildings()[building_index(self.buildings(), id)],
                None => building_index(self.buildings(), id) == self.buildings().len(),
            },
            match r {
                Some(b) => b.id == id && self.buildings().contains(*b),
                None => forall|j: int| 0 <= j < self.buildings().len() ==> (#[trigger] self.buildings()[j]).id != id,
            },
    {
        match self.find(id) {
            Some(i) => Some(&self.list[i]),
            None => None,
        }
    }

    pub fn get_mut(&mut self, id: BuildingId) -> (r: Option<&mut Building>)
        ensures
            match r {
                Some(b) => {
                    let i = building_index(old(self).buildings(), id);
                    &&& i < old(self).buildings().len()
                    &&& *b == old(self).buildings()[i]
                    &&& final(self).buildings() == old(self).buildings().update(i, *final(b))
                },
                None => building_index(old(self).buildings(), id) == old(self).buildings().len()
                    && final(self).buildings() == old(self).buildings(),
            },
            final(self).next_id_spec() == old(self).next_id_spec(),
            r matches Some(b) ==> old(self).buildings()[building_index(old(self).buildings(), id)].id == id,
            old(self).wf() && r is None ==> final(self).wf(),
            old(self).wf() ==> (r matches Some(b) && final(b).id == id ==> final(self).wf()),
    {
        match self.find(id) {
            Some(i) => Some(&mut self.list[i]),
            None => None,
        }
    }

    /// Deliver `t` tonnes of `r` to a building's stock, straight off the
    /// back of a grant: nothing happens when there is no such building, or
    /// when the stock could not count that much.
    pub fn deliver(&mut self, id: BuildingId, r: Resource, t: u64)
        requires
            old(self).wf(),
        ensures
            final(self).wf(),
            final(self).next_id_spec() == old(self).next_id_spec(),
            ({
                let i = building_index(old(self).buildings(), id);
                if i < old(self).buildings().len() && old(self).buildings()[i].stock.amount_of(r) + t <= u64::MAX {
                    exists|st: Stock|
                        #[trigger] st.amounts() == old(self).buildings()[i].stock.amounts().update(
                            r.rank(),
                            (old(self).buildings()[i].stock.amount_of(r) + t) as u64,
                        ) && final(self).buildings() == old(self).buildings().update(
                            i,
                            Building { stock: st, ..old(self).buildings()[i] },
                        )
                } else {
                    final(self).buildings() == old(self).buildings()
                }
            }),
    {
        match self.find(id) {
            Some(i) => {
                let mut b = self.list[i];
                if b.stock.get(r).0 <= u64::MAX - t {
                    b.stock.add(r, Tonnes(t));
                    self.list.set(i, b);
                    assert(b.stock.amounts() == old(self).buildings()[i as int].stock.amounts().update(
                        r.rank(),
                        (old(self).buildings()[i as int].stock.amount_of(r) + t) as u64,
                    ));
                }
            },
            None => {},
        }
    }

    /// Every building of a kind, in the order they were commissioned.
    pub fn of_kind(&self, kind: BuildingKind) -> (r: Vec<BuildingId>)
        ensures
            r@ == self.buildings().filter(|b: Building| b.kind == kind).map_values(|b: Building| b.id),
    {
        let ghost keep = |b: Building| b.kind == kind;
        let mut out: Vec<BuildingId> = Vec::new();
        let mut i: usize = 0;
        while i < self.list.len()
            invariant
                i <= self.list@.len(),
                keep == (|b: Building| b.kind == kind),
                out@ == self.list@.take(i as int).filter(keep).map_values(|b: Building| b.id),
            decreases self.list@.len() - i,
        {
            proof {
                reveal(Seq::filter);
                assert(self.list@.take(i + 1).drop_last() =~= self.list@.take(i as int));
            }
            if self.list[i].kind == kind {
                out.push(self.list[i].id);
                proof {
                    let f = self.list@.take(i as int).filter(keep);
                    assert(self.list@.take(i + 1).filter(keep) == f.push(self.list@[i as int]));
                    assert(f.push(self.list@[i as int]).map_values(|b: Building| b.id) =~= f.map_values(|b: Building| b.id).push(
                        self.list@[i as int].id,
                    ));
                }
            }
            i = i + 1;
        }
        assert(self.list@.take(i as int) =~= self.list@);
        out
    }

    /// Total housing capacity of the finished buildings.
    pub fn housing(&self) -> (n: u32)
        requires
            housing_of(self.buildings()) <= u32::MAX,
        ensures
            n == housing_of(self.buildings()),
    {
        let mut n: u32 = 0;
        let mut i: usize = 0;
        while i < self.list.len()
            invariant
                i <= self.list@.len(),
                housing_of(self.list@) <= u32::MAX,
                n == housing_of(self.list@.take(i as int)),
            decreases self.list@.len() - i,
        {
            proof {
                assert(self.list@.take(i + 1).drop_last() =~= self.list@.take(i as int));
                lemma_housing_prefix(self.list@, i + 1);
            }
            if self.list[i].is_built() {
                n = n + self.list[i].def().residents;
            }
            i = i + 1;
        }
        assert(self.list@.take(i as int) =~= self.list@);
        n
    }

    /// Every job the finished buildings offer, staffed or not.
    pub fn jobs(&self) -> (n: u32)
        requires
            jobs_of(self.buildings()) <= u32::MAX,
        ensures
            n == jobs_of(self.buildings()),
    {
        let mut n: u32 = 0;
        let mut i: usize = 0;
        while i < self.list.len()
            invariant
                i <= self.list@.len(),
                jobs_of(self.list@) <= u32::MAX,
                n == jobs_of(self.list@.take(i as int)),
            decreases self.list@.len() - i,
        {
            proof {
                assert(self.list@.take(i + 1).drop_last() =~= self.list@.take(i as int));
                lemma_jobs_prefix(self.list@, i + 1);
            }
            if self.list[i].is_built() {
                n = n + self.list[i].def().workers;
            }
            i = i + 1;
        }
        assert(self.list@.take(i as int) =~= self.list@);
        n
    }

    /// Would this go here? The same checks [`Buildings::place`] makes, without
    /// committing: what a placement preview asks. `ground_takes_it` is the
    /// terrain's answer for the footprint: on the map and buildable under
    /// every part of it.
    pub fn can_place(&self, kind: BuildingKind, centre: Point, ground_takes_it: bool, geology: &Geology) -> (r: Result<
        Option<DepositId>,
        PlacementError,
    >)
        ensures
            r == placement(self.buildings(), kind, centre, ground_takes_it, geology@),
    {
        if !ground_takes_it {
            return Err(PlacementError::Unbuildable);
        }
        let (cx0, cy0, cx1, cy1) = footprint_at(kind, centre);
        let mut i: usize = 0;
        while i < self.list.len()
            invariant
                i <= self.list@.len(),
                ground_takes_it,
                (cx0 as int, cy0 as int, cx1 as int, cy1 as int) == footprint(kind, centre),
                forall|j: int| 0 <= j < i ==> !overlap(footprint(#[trigger] self.list@[j].kind, self.list@[j].centre), footprint(kind, centre)),
            decreases self.list@.len() - i,
        {
            let (bx0, by0, bx1, by1) = self.list[i].bounds();
            if bx0 < cx1 && cx0 < bx1 && by0 < cy1 && cy0 < by1 {
                assert(overlap(footprint(self.buildings()[i as int].kind, self.buildings()[i as int].centre), footprint(kind, centre)));
                assert(occupied(self.buildings(), kind, centre));
                return Err(PlacementError::Occupied);
            }
            i = i + 1;
        }
        assert(!occupied(self.buildings(), kind, centre));
        match kind.def().taps {
            None => Ok(None),
            Some(mineral) => {
                let ids = geology.tappable_at(centre);
                let mut k: usize = 0;
                assert(ids@.skip(0) =~= ids@);
                while k < ids.len()
                    invariant
                        k <= ids@.len(),
                        ground_takes_it,
                        !occupied(self.buildings(), kind, centre),
                        building_def(kind).taps == Some(mineral),
                        ids@ == tap_candidates(geology@, centre),
                        first_of_mineral(geology@, ids@, mineral) == first_of_mineral(geology@, ids@.skip(k as int), mineral),
                    decreases ids@.len() - k,
                {
                    let id = ids[k];
                    let hit = match geology.get(id) {
                        Some(d) => d.mineral == mineral,
                        None => false,
                    };
                    if hit {
                        let ghost rest = ids@.skip(k as int);
                        assert(rest.len() > 0 && rest[0] == id);
                        assert(has_id(geology@, id) && geology@[index_of(geology@, id)].mineral == mineral);
                        assert(first_of_mineral(geology@, rest, mineral) == Some(id));
                        return Ok(Some(id));
                    }
                    proof {
                        lemma_first_of_mineral_skip(geology@, ids@, mineral, k as int);
                    }
                    k = k + 1;
                }
                assert(ids@.skip(k as int).len() == 0);
                Err(PlacementError::NothingToTap(mineral))
            },
        }
    }

    /// Put a building up, as a site the crews will build.
    pub fn place(&mut self, kind: BuildingKind, centre: Point, ground_takes_it: bool, geology: &Geology) -> (r: Result<
        BuildingId,
        PlacementError,
    >)
        requires
            old(self).wf(),
            old(self).next_id_spec() < u32::MAX,
        ensures
            final(self).wf(),
            match placement(old(self).buildings(), kind, centre, ground_takes_it, geology@) {
                Ok(tapped) => {
                    &&& r == Ok::<BuildingId, PlacementError>(BuildingId(old(self).next_id_spec()))
                    &&& final(self).next_id_spec() == old(self).next_id_spec() + 1
                    &&& final(self).buildings().len() == old(self).buildings().len() + 1
                    &&& final(self).buildings().drop_last() == old(self).buildings()
                    &&& new_site(final(self).buildings().last(), BuildingId(old(self).next_id_spec()), kind, centre, tapped)
                    &&& final(self).buildings().last().work_done == 0
                },
                Err(e) => r == Err::<BuildingId, PlacementError>(e) && *final(self) == *old(self),
            },
    {
        let tapped = match self.can_place(kind, centre, ground_takes_it, geology) {
            Ok(t) => t,
            Err(e) => {
                return Err(e);
            },
        };
        let id = BuildingId(self.next_id);
        self.next_id = self.next_id + 1;
        self.list.push(
            Building {
                id,
                kind,
                centre,
                stock: Stock::empty(),
                staff: 0,
                powered: false,
                heated: true,
                provisioned: 0,
                work_done: 0,
                tapped,
            },
        );
        proof {
            assert(self.list@.drop_last() =~= old(self).list@);
            assert forall|i: int, j: int|
                0 <= i < j < self.list@.len() implies (#[trigger] self.list@[i]).id != (#[trigger] self.list@[j]).id by {
                if j == self.list@.len() - 1 {
                    assert(old(self).list@[i].id.0 < old(self).next_id);
                } else {
                    assert(old(self).list@[i] == self.list@[i] && old(self).list@[j] == self.list@[j]);
                }
            }
            assert forall|i: int| 0 <= i < self.list@.len() implies (#[trigger] self.list@[i]).id.0 < self.next_id by {
                if i < old(self).list@.len() {
                    assert(old(self).list@[i] == self.list@[i]);
                }
            }
        }
        Ok(id)
    }

    /// Put a building up already finished: the founding grant.
    pub fn place_built(&mut self, kind: BuildingKind, centre: Point, ground_takes_it: bool, geology: &Geology) -> (r: Result<
        BuildingId,
        PlacementError,
    >)
        requires
            old(self).wf(),
            old(self).next_id_spec() < u32::MAX,
        ensures
            final(self).wf(),
            match placement(old(self).buildings(), kind, centre, ground_takes_it, geology@) {
                Ok(tapped) => {
                    &&& r == Ok::<BuildingId, PlacementError>(BuildingId(old(self).next_id_spec()))
                    &&& final(self).next_id_spec() == old(self).next_id_spec() + 1
                    &&& final(self).buildings().len() == old(self).buildings().len() + 1
                    &&& final(self).buildings().drop_last() == old(self).buildings()
                    &&& new_site(final(self).buildings().last(), BuildingId(old(self).next_id_spec()), kind, centre, tapped)
                    &&& final(self).buildings().last().work_done == building_def(kind).labour
                },
                Err(e) => r == Err::<BuildingId, PlacementError>(e) && *final(self) == *old(self),
            },
    {
        let r = self.place(kind, centre, ground_takes_it, geology);
        match r {
            Ok(id) => {
                let last = self.list.len() - 1;
                let labour = kind.def().labour;
                let ghost before = self.list@;
                let mut b = self.list[last];
                b.work_done = labour;
                self.list.set(last, b);
                proof {
                    assert(self.list@.drop_last() =~= before.drop_last());
                    assert forall|i: int, j: int|
                        0 <= i < j < self.list@.len() implies (#[trigger] self.list@[i]).id != (#[trigger] self.list@[j]).id by {
                        assert(before[i].id == self.list@[i].id && before[j].id == self.list@[j].id);
                    }
                    assert forall|i: int| 0 <= i < self.list@.len() implies (#[trigger] self.list@[i]).id.0 < self.next_id by {
                        assert(before[i].id == self.list@[i].id);
                    }
                }
                Ok(id)
            },
            Err(e) => Err(e),
        }
    }

    /// Pull a building down. `false` when there was none with that id, so
    /// demolishing twice is not a second success.
    pub fn demolish(&mut self, id: BuildingId) -> (r: bool)
        requires
            old(self).wf(),
        ensures
            final(self).wf(),
            r == (building_index(old(self).buildings(), id) < old(self).buildings().len()),
            r == exists|k: int| 0 <= k < old(self).buildings().len() && (#[trigger] old(self).buildings()[k]).id == id,
            final(self).buildings() == old(self).buildings().filter(|b: Building| b.id != id),
            final(self).next_id_spec() == old(self).next_id_spec(),
    {
        let ghost keep = |b: Building| b.id != id;
        let mut kept: Vec<Building> = Vec::new();
        let mut found = false;
        let mut i: usize = 0;
        while i < self.list.len()
            invariant
                i <= self.list@.len(),
                keep == (|b: Building| b.id != id),
                kept@ == self.list@.take(i as int).filter(keep),
                found == exists|j: int| 0 <= j < i && (#[trigger] self.list@[j]).id == id,
            decreases self.list@.len() - i,
        {
            proof {
                reveal(Seq::filter);
                assert(self.list@.take(i + 1).drop_last() =~= self.list@.take(i as int));
            }
            if self.list[i].id != id {
                kept.push(self.list[i]);
                proof {
                    assert(self.list@.take(i + 1).filter(keep) == self.list@.take(i as int).filter(keep).push(self.list@[i as int]));
                }
            } else {
                found = true;
            }
            i = i + 1;
        }
        proof {
            assert(self.list@.take(i as int) =~= self.list@);
            if found {
                let j = choose|j: int| 0 <= j < i && (#[trigger] self.list@[j]).id == id;
                let k = building_index(self.list@, id);
                if k >= self.list@.len() {
                    lemma_index_absent(self.list@, id, j);
                }
            } else {
                lemma_index_is(self.list@, id, self.list@.len() as int);
            }
            let old_list = self.list@;
            assert forall|a: int| 0 <= a < kept@.len() implies exists|j: int| 0 <= j < old_list.len() && #[trigger] kept@[a] == old_list[j] by {
                lemma_filter_member(old_list, keep, a);
            }
        }
        let ghost old_list = self.list@;
        self.list = kept;
        proof {
            assert forall|i: int| 0 <= i < self.list@.len() implies (#[trigger] self.list@[i]).id.0 < self.next_id by {
                let j = choose|j: int| 0 <= j < old_list.len() && self.list@[i] == old_list[j];
            }
            assert forall|a: int, b: int| 0 <= a < b < self.list@.len() implies (#[trigger] self.list@[a]).id != (#[trigger] self.list@[b]).id by {
                lemma_filter_keeps_order(old_list, keep, a, b);
            }
        }
        found
    }
}

proof fn lemma_housing_prefix(list: Seq<Building>, k: int)
    requires
        0 <= k <= list.len(),
    ensures
        0 <= housing_of(list.take(k)) <= housing_of(list),
    decreases list.len(),
{
    if list.len() > 0 {
        if k == list.len() {
            assert(list.take(k) =~= list);
            lemma_housing_prefix(list.drop_last(), k - 1);
            assert(list.drop_last().take(k - 1) =~= list.drop_last());
        } else {
            lemma_housing_prefix(list.drop_last(), k);
            assert(list.drop_last().take(k) =~= list.take(k));
        }
    } else {
        assert(list.take(k) =~= list);
    }
}

proof fn lemma_jobs_prefix(list: Seq<Building>, k: int)
    requires
        0 <= k <= list.len(),
    ensures
        0 <= jobs_of(list.take(k)) <= jobs_of(list),
    decreases list.len(),
{
    if list.len() > 0 {
        if k == list.len() {
            assert(list.take(k) =~= list);
            lemma_jobs_prefix(list.drop_last(), k - 1);
            assert(list.drop_last().take(k - 1) =~= list.drop_last());
        } else {
            lemma_jobs_prefix(list.drop_last(), k);
            assert(list.drop_last().take(k) =~= list.take(k));
        }
    } else {
        assert(list.take(k) =~= list);
    }
}

/// An id some building carries is found.
proof fn lemma_index_absent(list: Seq<Building>, id: BuildingId, j: int)
    requires
        0 <= j < list.len(),
        list[j].id == id,
    ensures
        building_index(list, id) < list.len(),
    decreases list.len(),
{
    if list[0].id != id {
        assert(list.drop_first()[j - 1] == list[j]);
        lemma_index_absent(list.drop_first(), id, j - 1);
    }
}

/// What a filter keeps was in the list.
proof fn lemma_filter_member(list: Seq<Building>, keep: spec_fn(Building) -> bool, a: int)
    requires
        0 <= a < list.filter(keep).len(),
    ensures
        exists|j: int| 0 <= j < list.len() && list.filter(keep)[a] == list[j],
{
    let f = list.filter(keep);
    assert(f.contains(f[a]));
    list.lemma_filter_contains_rev(keep, f[a]);
}

/// A filter keeps distinct ids distinct.
proof fn lemma_filter_keeps_order(list: Seq<Building>, keep: spec_fn(Building) -> bool, a: int, b: int)
    requires
        0 <= a < b < list.filter(keep).len(),
        forall|i: int, j: int| 0 <= i < j < list.len() ==> (#[trigger] list[i]).id != (#[trigger] list[j]).id,
    ensures
        list.filter(keep)[a].id != list.filter(keep)[b].id,
    decreases list.len(),
{
    reveal(Seq::filter);
    let rest = list.drop_last();
    let f = list.filter(keep);
    assert forall|i: int, j: int| 0 <= i < j < rest.len() implies (#[trigger] rest[i]).id != (#[trigger] rest[j]).id by {
        assert(rest[i] == list[i] && rest[j] == list[j]);
    }
    if keep(list.last()) {
        assert(f == rest.filter(keep).push(list.last()));
        if b == f.len() - 1 {
            lemma_filter_member(rest, keep, a);
            let j = choose|j: int| 0 <= j < rest.len() && rest.filter(keep)[a] == rest[j];
            assert(rest[j] == list[j]);
            assert(list[j].id != list[list.len() - 1].id);
        } else {
            lemma_filter_keeps_order(rest, keep, a, b);
        }
    } else {
        assert(f == rest.filter(keep));
        lemma_filter_keeps_order(rest, keep, a, b);
    }
}

/// A building put up where [`placement`] allows it shares ground with
/// nothing already standing.
pub proof fn a_placed_building_shares_no_ground(
    list: Seq<Building>,
    kind: BuildingKind,
    centre: Point,
    ground_takes_it: bool,
    bodies: Seq<Deposit>,
    i: int,
)
    requires
        placement(list, kind, centre, ground_takes_it, bodies) is Ok,
        0 <= i < list.len(),
    ensures
        !overlap(footprint(list[i].kind, list[i].centre), footprint(kind, centre)),
{
}

/// A site houses and employs nobody until it opens: commissioning one
/// changes neither the republic's housing nor its jobs.
pub proof fn a_site_houses_and_employs_nobody(list: Seq<Building>, site: Building)
    requires
        site.work_done < building_def(site.kind).labour,
    ensures
        housing_of(list.push(site)) == housing_of(list),
        jobs_of(list.push(site)) == jobs_of(list),
{
    assert(list.push(site).drop_last() =~= list);
}

} // verus!
