//! The republic's vehicles: what they are, what they are doing, and what they
//! have been sent to do.
//!
//! A vehicle has exactly one job, and saying so in the type is what keeps the
//! freight, crew, recovery and passenger pools from ever competing for the
//! same driver.
//!
//! Garages own vehicles, and a vehicle never accepts a job it cannot finish:
//! the round trip is priced in fuel before the job is taken.
//!
//! Fuel is reckoned in kilograms and burnt in grams a kilometre; how well a
//! vehicle copes with bad ground is in thousandths of the ground's own scale,
//! where a thousand is impassable.

use crate::building::{building_def, vehicles_of, Building, BuildingId};
use crate::crews::PartyId;
use crate::migration::GroupId;
use crate::journey::{pace, Journey, Medium};
use crate::resource::{sum_of, Resource, Stock};
use crate::roadworks::RoadSiteId;
use crate::units::{distance, Metres, Point, Speed, Tonnes};
use crate::utility::LineSiteId;
use vstd::prelude::*;

verus! {

/// A stable handle to a vehicle.
#[derive(Debug, Clone, Copy, PartialEq, Eq, Structural, Hash, PartialOrd, Ord)]
pub struct VehicleId(pub u32);

/// Every kind of vehicle the republic runs.
#[derive(Debug, Clone, Copy, PartialEq, Eq, Structural, Hash, PartialOrd, Ord)]
pub enum VehicleKind {
    Lorry,
    HeavyLorry,
    RecoveryVehicle,
    CrewBus,
    Coach,
    Locomotive,
    PassengerTrain,
    Barge,
    Freighter,
}

/// What a vehicle is for.
#[derive(Debug, Clone, Copy, PartialEq, Eq, Structural, Hash, PartialOrd, Ord)]
pub enum Role {
    /// Carries tonnage.
    Freight,
    /// Carries builders between an office and its sites.
    Crew,
    /// Pulls the others out of fields.
    Recovery,
    /// Carries settlers from a frontier post to housing.
    Passenger,
}

impl VehicleKind {
    /// The row of the vehicle table for this kind. Only the name is not
    /// stated: it is the kind's own, spelled for a panel.
    pub fn def(self) -> (d: VehicleDef)
        ensures
            d.kind == self,
            d.role == vehicle_def_spec(self).role,
            d.medium == vehicle_def_spec(self).medium,
            d.capacity == vehicle_def_spec(self).capacity,
            d.seats == vehicle_def_spec(self).seats,
            d.on_road == vehicle_def_spec(self).on_road,
            d.cross_country == vehicle_def_spec(self).cross_country,
            d.fuel_per_km == vehicle_def_spec(self).fuel_per_km,
            d.tank == vehicle_def_spec(self).tank,
            d.ground == vehicle_def_spec(self).ground,
            d.load_penalty == vehicle_def_spec(self).load_penalty,
    {
        match self {
            VehicleKind::Lorry => VehicleDef {
                kind: self, name: "Lorry", role: Role::Freight, medium: Medium::Road, capacity: Tonnes(8), seats: 0,
                on_road: Speed(50_000), cross_country: Speed(15_000), fuel_per_km: 300, tank: 150, ground: 750,
                load_penalty: 350,
            },
            VehicleKind::HeavyLorry => VehicleDef {
                kind: self, name: "Heavy Lorry", role: Role::Freight, medium: Medium::Road, capacity: Tonnes(20), seats: 0,
                on_road: Speed(45_000), cross_country: Speed(8_000), fuel_per_km: 600, tank: 300, ground: 550,
                load_penalty: 400,
            },
            VehicleKind::RecoveryVehicle => VehicleDef {
                kind: self, name: "Recovery Vehicle", role: Role::Recovery, medium: Medium::Road, capacity: Tonnes(0),
                seats: 0, on_road: Speed(55_000), cross_country: Speed(20_000), fuel_per_km: 400, tank: 200,
                ground: 1_200, load_penalty: 0,
            },
            VehicleKind::CrewBus => VehicleDef {
                kind: self, name: "Crew Bus", role: Role::Crew, medium: Medium::Road, capacity: Tonnes(0), seats: 10,
                on_road: Speed(60_000), cross_country: Speed(16_000), fuel_per_km: 250, tank: 120, ground: 700,
                load_penalty: 0,
            },
            VehicleKind::Coach => VehicleDef {
                kind: self, name: "Coach", role: Role::Passenger, medium: Medium::Road, capacity: Tonnes(0), seats: 24,
                on_road: Speed(65_000), cross_country: Speed(12_000), fuel_per_km: 350, tank: 200, ground: 600,
                load_penalty: 0,
            },
            VehicleKind::Locomotive => VehicleDef {
                kind: self, name: "Locomotive", role: Role::Freight, medium: Medium::Rail, capacity: Tonnes(120),
                seats: 0, on_road: Speed(70_000), cross_country: Speed(0), fuel_per_km: 1_200, tank: 1_200, ground: 0,
                load_penalty: 0,
            },
            VehicleKind::PassengerTrain => VehicleDef {
                kind: self, name: "Passenger Train", role: Role::Passenger, medium: Medium::Rail, capacity: Tonnes(0),
                seats: 240, on_road: Speed(80_000), cross_country: Speed(0), fuel_per_km: 900, tank: 900, ground: 0,
                load_penalty: 0,
            },
            VehicleKind::Barge => VehicleDef {
                kind: self, name: "Barge", role: Role::Freight, medium: Medium::Water, capacity: Tonnes(200), seats: 0,
                on_road: Speed(18_000), cross_country: Speed(0), fuel_per_km: 800, tank: 1_000, ground: 0,
                load_penalty: 0,
            },
            VehicleKind::Freighter => VehicleDef {
                kind: self, name: "Freighter", role: Role::Freight, medium: Medium::Air, capacity: Tonnes(15), seats: 0,
                on_road: Speed(320_000), cross_country: Speed(0), fuel_per_km: 9_000, tank: 4_000, ground: 0,
                load_penalty: 0,
            },
        }
    }

    /// Every kind, in table order.
    pub fn all() -> (r: Vec<VehicleKind>)
        ensures
            r@ == seq![
                VehicleKind::Lorry,
                VehicleKind::HeavyLorry,
                VehicleKind::RecoveryVehicle,
                VehicleKind::CrewBus,
                VehicleKind::Coach,
                VehicleKind::Locomotive,
                VehicleKind::PassengerTrain,
                VehicleKind::Barge,
                VehicleKind::Freighter,
            ],
    {
        let r = vec![
            VehicleKind::Lorry,
            VehicleKind::HeavyLorry,
            VehicleKind::RecoveryVehicle,
            VehicleKind::CrewBus,
            VehicleKind::Coach,
            VehicleKind::Locomotive,
            VehicleKind::PassengerTrain,
            VehicleKind::Barge,
            VehicleKind::Freighter,
        ];
        assert(r@ =~= seq![
            VehicleKind::Lorry,
            VehicleKind::HeavyLorry,
            VehicleKind::RecoveryVehicle,
            VehicleKind::CrewBus,
            VehicleKind::Coach,
            VehicleKind::Locomotive,
            VehicleKind::PassengerTrain,
            VehicleKind::Barge,
            VehicleKind::Freighter,
        ]);
        r
    }
}

/// What a vehicle is and what it can do.
#[derive(Debug, Clone, Copy, PartialEq, Eq)]
pub struct VehicleDef {
    pub kind: VehicleKind,
    pub name: &'static str,
    pub role: Role,
    /// The way it gets about. Only a road vehicle may leave its network.
    pub medium: Medium,
    /// Tonnes it can carry in one load. Zero on anything that is not freight.
    pub capacity: Tonnes,
    /// People it can carry. Zero on anything that carries no passengers.
    pub seats: u32,
    /// Speed on its network.
    pub on_road: Speed,
    /// Speed over open ground. The gap between this and the road speed is the
    /// entire argument for building a road.
    pub cross_country: Speed,
    /// Grams of fuel burnt per kilometre driven.
    pub fuel_per_km: u64,
    /// Kilograms of fuel the tank holds.
    pub tank: u64,
    /// The worst going it can cross empty, in thousandths of the ground's scale
    /// (a thousand is impassable; above it crosses anything).
    pub ground: u64,
    /// How much of that capability a full load costs it, in the same units.
    pub load_penalty: u64,
}

impl VehicleDef {
    pub fn recovers(&self) -> (r: bool)
        ensures
            r == (self.role == Role::Recovery),
    {
        match self.role {
            Role::Recovery => true,
            _ => false,
        }
    }
}

/// The row of the vehicle table for a kind.
pub open spec fn vehicle_def_spec(kind: VehicleKind) -> VehicleDef {
    match kind {
        VehicleKind::Lorry => VehicleDef {
            kind, name: "Lorry", role: Role::Freight, medium: Medium::Road, capacity: Tonnes(8), seats: 0,
            on_road: Speed(50_000), cross_country: Speed(15_000), fuel_per_km: 300, tank: 150, ground: 750,
            load_penalty: 350,
        },
        VehicleKind::HeavyLorry => VehicleDef {
            kind, name: "Heavy Lorry", role: Role::Freight, medium: Medium::Road, capacity: Tonnes(20), seats: 0,
            on_road: Speed(45_000), cross_country: Speed(8_000), fuel_per_km: 600, tank: 300, ground: 550,
            load_penalty: 400,
        },
        VehicleKind::RecoveryVehicle => VehicleDef {
            kind, name: "Recovery Vehicle", role: Role::Recovery, medium: Medium::Road, capacity: Tonnes(0), seats: 0,
            on_road: Speed(55_000), cross_country: Speed(20_000), fuel_per_km: 400, tank: 200, ground: 1_200,
            load_penalty: 0,
        },
        VehicleKind::CrewBus => VehicleDef {
            kind, name: "Crew Bus", role: Role::Crew, medium: Medium::Road, capacity: Tonnes(0), seats: 10,
            on_road: Speed(60_000), cross_country: Speed(16_000), fuel_per_km: 250, tank: 120, ground: 700,
            load_penalty: 0,
        },
        VehicleKind::Coach => VehicleDef {
            kind, name: "Coach", role: Role::Passenger, medium: Medium::Road, capacity: Tonnes(0), seats: 24,
            on_road: Speed(65_000), cross_country: Speed(12_000), fuel_per_km: 350, tank: 200, ground: 600,
            load_penalty: 0,
        },
        VehicleKind::Locomotive => VehicleDef {
            kind, name: "Locomotive", role: Role::Freight, medium: Medium::Rail, capacity: Tonnes(120), seats: 0,
            on_road: Speed(70_000), cross_country: Speed(0), fuel_per_km: 1_200, tank: 1_200, ground: 0,
            load_penalty: 0,
        },
        VehicleKind::PassengerTrain => VehicleDef {
            kind, name: "Passenger Train", role: Role::Passenger, medium: Medium::Rail, capacity: Tonnes(0), seats: 240,
            on_road: Speed(80_000), cross_country: Speed(0), fuel_per_km: 900, tank: 900, ground: 0,
            load_penalty: 0,
        },
        VehicleKind::Barge => VehicleDef {
            kind, name: "Barge", role: Role::Freight, medium: Medium::Water, capacity: Tonnes(200), seats: 0,
            on_road: Speed(18_000), cross_country: Speed(0), fuel_per_km: 800, tank: 1_000, ground: 0,
            load_penalty: 0,
        },
        VehicleKind::Freighter => VehicleDef {
            kind, name: "Freighter", role: Role::Freight, medium: Medium::Air, capacity: Tonnes(15), seats: 0,
            on_road: Speed(320_000), cross_country: Speed(0), fuel_per_km: 9_000, tank: 4_000, ground: 0,
            load_penalty: 0,
        },
    }
}

/// Every row of the vehicle table is authored in full and plausibly: its
/// capacity and seats are the ones its role needs, it moves on its own
/// network, only a road vehicle may leave that network (more slowly, and with
/// a view about mud that a load never wipes out), everything burns fuel and
/// carries some, and a full tank takes it at least a hundred kilometres.
pub proof fn every_vehicle_is_fully_authored(kind: VehicleKind)
    ensures
        ({
            let d = vehicle_def_spec(kind);
            &&& d.kind == kind
            &&& match d.role {
                Role::Freight => d.capacity.0 > 0 && d.seats == 0,
                Role::Crew => d.seats > 0 && d.capacity.0 == 0,
                Role::Recovery => d.seats == 0 && d.capacity.0 == 0,
                Role::Passenger => d.seats > 0 && d.capacity.0 == 0,
            }
            &&& d.on_road.0 > 0
            &&& if d.medium == Medium::Road {
                &&& d.ground > 0
                &&& d.load_penalty < d.ground
                &&& 0 < d.cross_country.0 < d.on_road.0
            } else {
                d.cross_country.0 == 0 && d.ground == 0 && d.load_penalty == 0
            }
            &&& d.fuel_per_km > 0
            &&& d.tank > 0
            &&& d.tank * 1000 >= 100 * d.fuel_per_km
        }),
{
}

/// What a vehicle is doing.
#[derive(Debug, Clone, Copy, PartialEq, Eq, Structural)]
pub enum VehicleState {
    /// Parked at its garage, available for work.
    Idle,
    /// Driving empty to the supplier, or out to a casualty.
    Fetching,
    /// Driving laden to the destination.
    Delivering,
    /// Driving back to its garage.
    Returning,
    /// Stuck. It keeps its job and its plan and is going nowhere until the
    /// ground firms up under it or something comes and pulls it out.
    Bogged {
        /// What it was doing when it stuck, so it can carry on doing it.
        was: Doing,
        /// The day it stuck.
        since_day: u64,
    },
}

/// The three things a vehicle can be in the middle of, without the state of
/// being stuck — so the type cannot represent bogged-inside-bogged.
#[derive(Debug, Clone, Copy, PartialEq, Eq, Structural)]
pub enum Doing {
    Fetching,
    Delivering,
    Returning,
}

impl Doing {
    pub fn state(self) -> (s: VehicleState)
        ensures
            s == match self {
                Doing::Fetching => VehicleState::Fetching,
                Doing::Delivering => VehicleState::Delivering,
                Doing::Returning => VehicleState::Returning,
            },
    {
        match self {
            Doing::Fetching => VehicleState::Fetching,
            Doing::Delivering => VehicleState::Delivering,
            Doing::Returning => VehicleState::Returning,
        }
    }
}

impl VehicleState {
    /// What it is in the middle of, if anything — the same answer whether or
    /// not it is currently stuck in it.
    pub fn doing(self) -> (d: Option<Doing>)
        ensures
            d == match self {
                VehicleState::Idle => None,
                VehicleState::Fetching => Some(Doing::Fetching),
                VehicleState::Delivering => Some(Doing::Delivering),
                VehicleState::Returning => Some(Doing::Returning),
                VehicleState::Bogged { was, .. } => Some(was),
            },
    {
        match self {
            VehicleState::Idle => None,
            VehicleState::Fetching => Some(Doing::Fetching),
            VehicleState::Delivering => Some(Doing::Delivering),
            VehicleState::Returning => Some(Doing::Returning),
            VehicleState::Bogged { was, .. } => Some(was),
        }
    }

    pub fn is_bogged(self) -> (r: bool)
        ensures
            r == (self is Bogged),
    {
        match self {
            VehicleState::Bogged { .. } => true,
            _ => false,
        }
    }
}

/// Somewhere goods can be delivered.
#[derive(Debug, Clone, Copy, PartialEq, Eq, Structural, Hash, PartialOrd, Ord)]
pub enum Destination {
    Building(BuildingId),
    RoadSite(RoadSiteId),
    /// A power line or a heat main under construction.
    LineSite(LineSiteId),
}

/// What a vehicle has been sent out to do.
#[derive(Debug, Clone, Copy, PartialEq, Eq, Structural)]
pub enum Job {
    /// Take this much of this, from here to there.
    Haul { from: BuildingId, to: Destination, resource: Resource, tonnes: Tonnes },
    /// Go and pull that one out.
    Recover { casualty: VehicleId },
    /// Carry builders from the office out to a site.
    Ferry { to: Destination, heads: u32 },
    /// Go and bring a crew back.
    Collect { party: PartyId },
    /// Fetch a group of settlers from a frontier post and take them to housing.
    Settle { group: GroupId, to: BuildingId },
}

impl Job {
    /// The haul, if it is one.
    pub fn haul(self) -> (r: Option<(BuildingId, Destination, Resource, Tonnes)>)
        ensures
            r == match self {
                Job::Haul { from, to, resource, tonnes } => Some((from, to, resource, tonnes)),
                _ => None,
            },
    {
        match self {
            Job::Haul { from, to, resource, tonnes } => Some((from, to, resource, tonnes)),
            _ => None,
        }
    }

    pub fn casualty(self) -> (r: Option<VehicleId>)
        ensures
            r == match self {
                Job::Recover { casualty } => Some(casualty),
                _ => None,
            },
    {
        match self {
            Job::Recover { casualty } => Some(casualty),
            _ => None,
        }
    }

    /// The site a crew is being carried to, if this is a ferry.
    pub fn ferry(self) -> (r: Option<(Destination, u32)>)
        ensures
            r == match self {
                Job::Ferry { to, heads } => Some((to, heads)),
                _ => None,
            },
    {
        match self {
            Job::Ferry { to, heads } => Some((to, heads)),
            _ => None,
        }
    }

    pub fn party(self) -> (r: Option<PartyId>)
        ensures
            r == match self {
                Job::Collect { party } => Some(party),
                _ => None,
            },
    {
        match self {
            Job::Collect { party } => Some(party),
            _ => None,
        }
    }

    /// The group of settlers being fetched, and where they are being taken.
    pub fn settling(self) -> (r: Option<(GroupId, BuildingId)>)
        ensures
            r == match self {
                Job::Settle { group, to } => Some((group, to)),
                _ => None,
            },
    {
        match self {
            Job::Settle { group, to } => Some((group, to)),
            _ => None,
        }
    }
}

/// How many days a bogged vehicle waits before a recovery vehicle is sent.
pub const HELP_AFTER: u64 = 1;

/// Kilograms of fuel, rounded up, to drive `length` metres at `grams` a
/// kilometre.
pub open spec fn fuel_kg(grams: u64, length: int) -> int {
    (grams * length + 999_999) / 1_000_000
}

/// One machine: where it is, what it carries, what is in its tank, and what
/// it has been sent to do.
#[derive(Debug, Clone, PartialEq, Eq)]
pub struct Vehicle {
    pub id: VehicleId,
    pub kind: VehicleKind,
    /// The garage that owns it.
    pub home: BuildingId,
    pub state: VehicleState,
    pub at: Point,
    pub journey: Option<Journey>,
    pub cargo: Stock,
    /// Kilograms of fuel in the tank.
    pub fuel: u64,
    pub job: Option<Job>,
}

impl Vehicle {
    pub fn def(&self) -> (d: VehicleDef)
        ensures
            d.kind == self.kind,
            d.role == vehicle_def_spec(self.kind).role,
            d.medium == vehicle_def_spec(self.kind).medium,
            d.capacity == vehicle_def_spec(self.kind).capacity,
            d.seats == vehicle_def_spec(self.kind).seats,
            d.on_road == vehicle_def_spec(self.kind).on_road,
            d.cross_country == vehicle_def_spec(self.kind).cross_country,
            d.fuel_per_km == vehicle_def_spec(self.kind).fuel_per_km,
            d.tank == vehicle_def_spec(self.kind).tank,
            d.ground == vehicle_def_spec(self.kind).ground,
            d.load_penalty == vehicle_def_spec(self.kind).load_penalty,
    {
        self.kind.def()
    }

    pub fn is_idle(&self) -> (r: bool)
        ensures
            r == (self.state == VehicleState::Idle),
    {
        match self.state {
            VehicleState::Idle => true,
            _ => false,
        }
    }

    /// Kilograms of fuel to drive a distance, rounded up so that a vehicle
    /// never sets out on a trip its tank cannot finish.
    pub fn fuel_for(&self, length: Metres) -> (kg: u64)
        requires
            0 <= length.0,
        ensures
            kg == fuel_kg(vehicle_def_spec(self.kind).fuel_per_km, length.0 as int),
    {
        let grams = self.def().fuel_per_km;
        assert(grams <= 9_000);
        assert(grams * length.0 <= 9_000 * 0x8000_0000_0000_0000) by (nonlinear_arith)
            requires
                grams <= 9_000,
                0 <= length.0 <= 0x8000_0000_0000_0000,
        ;
        let wide = grams as u128 * length.0 as u128;
        assert((wide + 999_999) / 1_000_000 <= u64::MAX) by (nonlinear_arith)
            requires
                wide <= 9_000 * 0x8000_0000_0000_0000,
        ;
        ((wide + 999_999) / 1_000_000) as u64
    }

    /// How much more it could load.
    pub fn spare_capacity(&self) -> (t: Tonnes)
        requires
            sum_of(self.cargo.amounts()) <= u64::MAX,
        ensures
            t.0 == if vehicle_def_spec(self.kind).capacity.0 >= sum_of(self.cargo.amounts()) {
                vehicle_def_spec(self.kind).capacity.0 - sum_of(self.cargo.amounts())
            } else {
                0
            },
    {
        self.def().capacity.saturating_sub(self.cargo.total())
    }

    /// What it makes on the leg under way, slowed by today's drag in
    /// thousandths; nothing when it is going nowhere.
    pub fn leg_speed(&self, drag: u64) -> (s: Speed)
        requires
            self.journey is Some ==> self.journey.unwrap().wf(),
        ensures
            s.0 == match self.journey {
                Some(j) => pace(
                    j.limit@[j.leg as int],
                    vehicle_def_spec(self.kind).on_road,
                    vehicle_def_spec(self.kind).cross_country,
                    drag,
                ),
                None => 0,
            },
    {
        let def = self.def();
        match &self.journey {
            Some(j) => j.leg_speed(def.on_road, def.cross_country, drag),
            None => Speed(0),
        }
    }

    /// How full it is, in thousandths of its capacity; nothing for a vehicle
    /// that carries nothing.
    pub fn load_fraction(&self) -> (f: u64)
        requires
            sum_of(self.cargo.amounts()) <= u64::MAX,
        ensures
            f <= 1000,
            f == if vehicle_def_spec(self.kind).capacity.0 == 0 {
                0
            } else if sum_of(self.cargo.amounts()) >= vehicle_def_spec(self.kind).capacity.0 {
                1000
            } else {
                sum_of(self.cargo.amounts()) * 1000 / (vehicle_def_spec(self.kind).capacity.0 as int)
            },
    {
        let capacity = self.def().capacity.0;
        if capacity == 0 {
            return 0;
        }
        let load = self.cargo.total().0;
        if load >= capacity {
            return 1000;
        }
        assert(load * 1000 / (capacity as int) < 1000) by (nonlinear_arith)
            requires
                load < capacity,
                capacity > 0,
        ;
        ((load as u128 * 1000) / capacity as u128) as u64
    }

    /// The worst going it can cross as loaded, in thousandths: its own
    /// capability less the share of the load penalty its load costs.
    pub fn capability(&self) -> (c: i64)
        requires
            sum_of(self.cargo.amounts()) <= u64::MAX,
        ensures
            c == vehicle_def_spec(self.kind).ground - (if vehicle_def_spec(self.kind).capacity.0 == 0 {
                0
            } else if sum_of(self.cargo.amounts()) >= vehicle_def_spec(self.kind).capacity.0 {
                1000
            } else {
                sum_of(self.cargo.amounts()) * 1000 / (vehicle_def_spec(self.kind).capacity.0 as int)
            }) * vehicle_def_spec(self.kind).load_penalty / 1000,
    {
        let def = self.def();
        let f = self.load_fraction();
        assert(f * def.load_penalty / 1000 <= def.load_penalty) by (nonlinear_arith)
            requires
                f <= 1000,
        ;
        def.ground as i64 - (f * def.load_penalty / 1000) as i64
    }
}

/// Index of the first vehicle with an id, or the count when none has it.
pub open spec fn vehicle_index(list: Seq<Vehicle>, id: VehicleId) -> int
    decreases list.len(),
{
    if list.len() == 0 {
        0
    } else if list[0].id == id {
        0
    } else {
        1 + vehicle_index(list.drop_first(), id)
    }
}

/// How many vehicles satisfy `p`.
pub open spec fn count_where(list: Seq<Vehicle>, p: spec_fn(Vehicle) -> bool) -> nat
    decreases list.len(),
{
    if list.len() == 0 {
        0
    } else {
        count_where(list.drop_last(), p) + if p(list.last()) {
            1nat
        } else {
            0
        }
    }
}

/// What the vehicles carry of one resource, all together.
pub open spec fn afloat(list: Seq<Vehicle>, resource: Resource) -> int
    decreases list.len(),
{
    if list.len() == 0 {
        0
    } else {
        afloat(list.drop_last(), resource) + list.last().cargo.amount_of(resource)
    }
}

pub open spec fn is_running() -> spec_fn(Vehicle) -> bool {
    |v: Vehicle| v.state != VehicleState::Idle
}

pub open spec fn is_bogged_pred() -> spec_fn(Vehicle) -> bool {
    |v: Vehicle| v.state is Bogged
}

pub open spec fn kept_at(home: BuildingId, kind: VehicleKind) -> spec_fn(Vehicle) -> bool {
    |v: Vehicle| v.home == home && v.kind == kind
}

/// Every vehicle the republic has commissioned.
#[derive(Debug, Clone, PartialEq, Eq)]
pub struct Fleet {
    list: Vec<Vehicle>,
    next_id: u32,
}

impl Fleet {
    pub closed spec fn vehicles(&self) -> Seq<Vehicle> {
        self.list@
    }

    pub closed spec fn next_id_spec(&self) -> u32 {
        self.next_id
    }

    /// Ids are handed out in order, so every vehicle's id is below the next
    /// one and no two vehicles share one.
    pub open spec fn wf(&self) -> bool {
        &&& forall|i: int| 0 <= i < self.vehicles().len() ==> (#[trigger] self.vehicles()[i]).id.0 < self.next_id_spec()
        &&& forall|i: int, j: int|
            0 <= i < j < self.vehicles().len() ==> (#[trigger] self.vehicles()[i]).id != (#[trigger] self.vehicles()[j]).id
    }

    pub fn new() -> (f: Fleet)
        ensures
            f.wf(),
            f.vehicles() == Seq::<Vehicle>::empty(),
            f.next_id_spec() == 1,
    {
        Fleet { list: Vec::new(), next_id: 1 }
    }

    pub fn all(&self) -> (r: &[Vehicle])
        ensures
            r@ == self.vehicles(),
    {
        self.list.as_slice()
    }

    fn find(&self, id: VehicleId) -> (r: Option<usize>)
        ensures
            match r {
                Some(i) => i == vehicle_index(self.vehicles(), id) && i < self.vehicles().len(),
                None => vehicle_index(self.vehicles(), id) == self.vehicles().len(),
            },
            match r {
                Some(i) => self.vehicles()[i as int].id == id,
                None => forall|j: int| 0 <= j < self.vehicles().len() ==> (#[trigger] self.vehicles()[j]).id != id,
            },
    {
        let mut i: usize = 0;
        while i < self.list.len()
            invariant
                i <= self.list@.len(),
                forall|j: int| 0 <= j < i ==> (#[trigger] self.list@[j]).id != id,
            decreases self.list@.len() - i,
        {
            if self.list[i].id == id {
                proof {
                    lemma_vehicle_index_is(self.list@, id, i as int);
                }
                return Some(i);
            }
            i = i + 1;
        }
        proof {
            lemma_vehicle_index_is(self.list@, id, i as int);
        }
        None
    }

    pub fn get(&self, id: VehicleId) -> (r: Option<&Vehicle>)
        ensures
            match r {
                Some(v) => vehicle_index(self.vehicles(), id) < self.vehicles().len() && *v
                    == self.vehicles()[vehicle_index(self.vehicles(), id)],
                None => vehicle_index(self.vehicles(), id) == self.vehicles().len(),
            },
            match r {
                Some(v) => v.id == id && self.vehicles().contains(*v),
                None => forall|j: int| 0 <= j < self.vehicles().len() ==> (#[trigger] self.vehicles()[j]).id != id,
            },
    {
        match self.find(id) {
            Some(i) => Some(&self.list[i]),
            None => None,
        }
    }

    pub fn get_mut(&mut self, id: VehicleId) -> (r: Option<&mut Vehicle>)
        ensures
            match r {
                Some(v) => {
                    let i = vehicle_index(old(self).vehicles(), id);
                    &&& i < old(self).vehicles().len()
                    &&& *v == old(self).vehicles()[i]
                    &&& final(self).vehicles() == old(self).vehicles().update(i, *final(v))
                },
                None => vehicle_index(old(self).vehicles(), id) == old(self).vehicles().len()
                    && final(self).vehicles() == old(self).vehicles(),
            },
            final(self).next_id_spec() == old(self).next_id_spec(),
    {
        match self.find(id) {
            Some(i) => Some(&mut self.list[i]),
            None => None,
        }
    }

    pub fn len(&self) -> (n: usize)
        ensures
            n == self.vehicles().len(),
    {
        self.list.len()
    }

    pub fn is_empty(&self) -> (r: bool)
        ensures
            r == (self.vehicles().len() == 0),
    {
        self.list.len() == 0
    }

    /// How many are out doing something.
    pub fn running(&self) -> (n: usize)
        ensures
            n == count_where(self.vehicles(), is_running()),
            n == self.vehicles().filter(|v: Vehicle| v.state != VehicleState::Idle).len(),
    {
        proof {
            lemma_count_where_is_filter(self.list@, is_running());
            assert(is_running() =~= (|v: Vehicle| v.state != VehicleState::Idle));
        }
        let mut n: usize = 0;
        let mut i: usize = 0;
        while i < self.list.len()
            invariant
                i <= self.list@.len(),
                n == count_where(self.list@.take(i as int), is_running()),
                n <= i,
            decreases self.list@.len() - i,
        {
            proof {
                assert(self.list@.take(i + 1).drop_last() =~= self.list@.take(i as int));
            }
            if !self.list[i].is_idle() {
                n = n + 1;
            }
            i = i + 1;
        }
        assert(self.list@.take(i as int) =~= self.list@);
        n
    }

    /// How many are stuck.
    pub fn bogged(&self) -> (n: usize)
        ensures
            n == count_where(self.vehicles(), is_bogged_pred()),
            n == self.vehicles().filter(|v: Vehicle| v.state is Bogged).len(),
    {
        proof {
            lemma_count_where_is_filter(self.list@, is_bogged_pred());
            assert(is_bogged_pred() =~= (|v: Vehicle| v.state is Bogged));
        }
        let mut n: usize = 0;
        let mut i: usize = 0;
        while i < self.list.len()
            invariant
                i <= self.list@.len(),
                n == count_where(self.list@.take(i as int), is_bogged_pred()),
                n <= i,
            decreases self.list@.len() - i,
        {
            proof {
                assert(self.list@.take(i + 1).drop_last() =~= self.list@.take(i as int));
            }
            if self.list[i].state.is_bogged() {
                n = n + 1;
            }
            i = i + 1;
        }
        assert(self.list@.take(i as int) =~= self.list@);
        n
    }

    /// Put a new vehicle on a garage's books, parked and fuelled.
    pub fn commission(&mut self, kind: VehicleKind, home: BuildingId, at: Point) -> (id: VehicleId)
        requires
            old(self).wf(),
            old(self).next_id_spec() < u32::MAX,
        ensures
            final(self).wf(),
            id.0 == old(self).next_id_spec(),
            final(self).next_id_spec() == old(self).next_id_spec() + 1,
            final(self).vehicles().len() == old(self).vehicles().len() + 1,
            final(self).vehicles().drop_last() == old(self).vehicles(),
            ({
                let v = final(self).vehicles().last();
                &&& v.id == id
                &&& v.kind == kind
                &&& v.home == home
                &&& v.state == VehicleState::Idle
                &&& v.at == at
                &&& v.journey is None
                &&& v.job is None
                &&& v.fuel == vehicle_def_spec(kind).tank
                &&& forall|r: Resource| #[trigger] v.cargo.amount_of(r) == 0
            }),
    {
        let id = VehicleId(self.next_id);
        self.next_id = self.next_id + 1;
        let tank = kind.def().tank;
        self.list.push(
            Vehicle {
                id,
                kind,
                home,
                state: VehicleState::Idle,
                at,
                journey: None,
                cargo: Stock::empty(),
                fuel: tank,
                job: None,
            },
        );
        proof {
            assert(self.list@.drop_last() =~= old(self).list@);
            assert forall|i: int, j: int|
                0 <= i < j < self.list@.len() implies (#[trigger] self.list@[i]).id != (
                #[trigger] self.list@[j]).id by {
                if j == self.list@.len() - 1 {
                    assert(old(self).list@[i].id.0 < old(self).next_id);
                } else {
                    assert(old(self).list@[i] == self.list@[i] && old(self).list@[j] == self.list@[j]);
                }
            }
            assert forall|i: int| 0 <= i < self.list@.len() implies (#[trigger] self.list@[i]).id.0 < self.next_id by {
                if i < old(self).list@.len() {
                    assert(old(self).list@[i] == self.list@[i]);
                }
            }
        }
        id
    }

    /// Every vehicle a garage owns, in the order they were commissioned.
    pub fn of_garage(&self, home: BuildingId) -> (r: Vec<VehicleId>)
        ensures
            r@ == self.vehicles().filter(|v: Vehicle| v.home == home).map_values(|v: Vehicle| v.id),
    {
        let ghost keep = |v: Vehicle| v.home == home;
        let mut out: Vec<VehicleId> = Vec::new();
        let mut i: usize = 0;
        while i < self.list.len()
            invariant
                i <= self.list@.len(),
                keep == (|v: Vehicle| v.home == home),
                out@ == self.list@.take(i as int).filter(keep).map_values(|v: Vehicle| v.id),
            decreases self.list@.len() - i,
        {
            proof {
                reveal(Seq::filter);
                assert(self.list@.take(i + 1).drop_last() =~= self.list@.take(i as int));
            }
            if self.list[i].home == home {
                let ghost before = out@;
                out.push(self.list[i].id);
                proof {
                    let f = self.list@.take(i as int).filter(keep);
                    assert(self.list@.take(i + 1).filter(keep) == f.push(self.list@[i as int]));
                    assert(f.push(self.list@[i as int]).map_values(|v: Vehicle| v.id) =~= f.map_values(|v: Vehicle| v.id).push(self.list@[i as int].id));
                }
            }
            i = i + 1;
        }
        assert(self.list@.take(i as int) =~= self.list@);
        out
    }

    /// How many of one kind a garage owns.
    pub fn count_of(&self, home: BuildingId, kind: VehicleKind) -> (n: u32)
        requires
            self.vehicles().len() <= u32::MAX,
        ensures
            n == count_where(self.vehicles(), kept_at(home, kind)),
            n == self.vehicles().filter(|v: Vehicle| v.home == home && v.kind == kind).len(),
    {
        proof {
            garage_count_is_its_kind_alone(self.list@, home, kind);
        }
        let mut n: u32 = 0;
        let mut i: usize = 0;
        while i < self.list.len()
            invariant
                i <= self.list@.len(),
                self.list@.len() <= u32::MAX,
                n == count_where(self.list@.take(i as int), kept_at(home, kind)),
                n <= i,
            decreases self.list@.len() - i,
        {
            proof {
                assert(self.list@.take(i + 1).drop_last() =~= self.list@.take(i as int));
            }
            if self.list[i].home == home && self.list[i].kind == kind {
                n = n + 1;
            }
            i = i + 1;
        }
        assert(self.list@.take(i as int) =~= self.list@);
        n
    }

    /// Everything of one resource currently aboard a vehicle.
    pub fn cargo_afloat(&self, resource: Resource) -> (t: Tonnes)
        requires
            afloat(self.vehicles(), resource) <= u64::MAX,
        ensures
            t.0 == afloat(self.vehicles(), resource),
    {
        let mut total: u64 = 0;
        let mut i: usize = 0;
        while i < self.list.len()
            invariant
                i <= self.list@.len(),
                afloat(self.list@, resource) <= u64::MAX,
                total == afloat(self.list@.take(i as int), resource),
            decreases self.list@.len() - i,
        {
            proof {
                assert(self.list@.take(i + 1).drop_last() =~= self.list@.take(i as int));
                lemma_afloat_prefix(self.list@, resource, i + 1);
            }
            total = total + self.list[i].cargo.get(resource).0;
            i = i + 1;
        }
        assert(self.list@.take(i as int) =~= self.list@);
        Tonnes(total)
    }
}

/// A garage's count of one kind is the number of vehicles kept at that garage
/// that are of that kind.
pub proof fn garage_count_is_its_kind_alone(list: Seq<Vehicle>, home: BuildingId, kind: VehicleKind)
    ensures
        count_where(list, kept_at(home, kind)) == list.filter(|v: Vehicle| v.home == home && v.kind == kind).len(),
    decreases list.len(),
{
    lemma_count_where_is_filter(list, kept_at(home, kind));
    assert(kept_at(home, kind) =~= (|v: Vehicle| v.home == home && v.kind == kind));
}

proof fn lemma_count_where_is_filter(list: Seq<Vehicle>, p: spec_fn(Vehicle) -> bool)
    ensures
        count_where(list, p) == list.filter(p).len(),
    decreases list.len(),
{
    reveal(Seq::filter);
    if list.len() > 0 {
        lemma_count_where_is_filter(list.drop_last(), p);
    }
}

/// One more vehicle raises a garage's count of a kind by one when it is kept
/// at that garage and is of that kind, and leaves the count alone otherwise:
/// a vehicle of another kind at the same garage does not change it.
pub proof fn one_more_vehicle_counts_only_for_its_kind(
    list: Seq<Vehicle>,
    v: Vehicle,
    home: BuildingId,
    kind: VehicleKind,
)
    ensures
        list.push(v).filter(|x: Vehicle| x.home == home && x.kind == kind).len() == list.filter(
            |x: Vehicle| x.home == home && x.kind == kind,
        ).len() + if v.home == home && v.kind == kind {
            1int
        } else {
            0int
        },
{
    reveal(Seq::filter);
    assert(list.push(v).drop_last() =~= list);
}

proof fn lemma_vehicle_index_is(list: Seq<Vehicle>, id: VehicleId, i: int)
    requires
        0 <= i <= list.len(),
        forall|j: int| 0 <= j < i ==> (#[trigger] list[j]).id != id,
        i == list.len() || list[i].id == id,
    ensures
        vehicle_index(list, id) == i,
    decreases i,
{
    if i > 0 {
        let rest = list.drop_first();
        assert(list[0].id != id);
        assert forall|j: int| 0 <= j < i - 1 implies (#[trigger] rest[j]).id != id by {
            assert(rest[j] == list[j + 1]);
        }
        if i < list.len() {
            assert(rest[i - 1] == list[i]);
        }
        lemma_vehicle_index_is(rest, id, i - 1);
    }
}

/// A prefix carries no more than the whole fleet.
proof fn lemma_afloat_prefix(list: Seq<Vehicle>, resource: Resource, k: int)
    requires
        0 <= k <= list.len(),
    ensures
        0 <= afloat(list.take(k), resource) <= afloat(list, resource),
    decreases list.len(),
{
    if list.len() > 0 {
        if k == list.len() {
            assert(list.take(k) =~= list);
            lemma_afloat_prefix(list.drop_last(), resource, k - 1);
            assert(list.drop_last().take(k - 1) =~= list.drop_last());
        } else {
            lemma_afloat_prefix(list.drop_last(), resource, k);
            assert(list.drop_last().take(k) =~= list.take(k));
        }
    } else {
        assert(list.take(k) =~= list);
    }
}

/// How many vehicles a kind of garage keeps, all told.
pub open spec fn establishment(list: Seq<(VehicleKind, u32)>) -> int
    decreases list.len(),
{
    if list.len() == 0 {
        0
    } else {
        establishment(list.drop_last()) + list.last().1
    }
}

/// How many of a garage's establishment have drivers today: none until it
/// opens, then the establishment in proportion to the staff turning up,
/// rounded down. A half-staffed depot runs half its lorries rather than
/// switching off at a threshold nobody can see.
pub fn crewed(garage: &Building) -> (n: u32)
    requires
        establishment(vehicles_of(garage.kind)) <= u32::MAX,
    ensures
        n == if garage.work_done < building_def(garage.kind).labour {
            0
        } else if building_def(garage.kind).workers == 0 || garage.staff >= building_def(garage.kind).workers {
            establishment(vehicles_of(garage.kind))
        } else {
            establishment(vehicles_of(garage.kind)) * garage.staff / (building_def(garage.kind).workers as int)
        },
{
    if !garage.is_built() {
        return 0;
    }
    let keeps = garage.kind.vehicles();
    let mut total: u64 = 0;
    let mut i: usize = 0;
    while i < keeps.len()
        invariant
            keeps@ == vehicles_of(garage.kind),
            establishment(keeps@) <= u32::MAX,
            i <= keeps@.len(),
            total == establishment(keeps@.take(i as int)),
        decreases keeps@.len() - i,
    {
        proof {
            assert(keeps@.take(i + 1).drop_last() =~= keeps@.take(i as int));
            lemma_establishment_prefix(keeps@, i + 1);
        }
        total = total + keeps[i].1 as u64;
        i = i + 1;
    }
    assert(keeps@.take(i as int) =~= keeps@);
    let jobs = garage.def().workers;
    if jobs == 0 || garage.staff >= jobs {
        return total as u32;
    }
    let staff = garage.staff as u64;
    assert(total * staff <= 0xFFFF_FFFF * 0xFFFF_FFFF) by (nonlinear_arith)
        requires
            total <= 0xFFFF_FFFF,
            staff <= 0xFFFF_FFFF,
    ;
    let n = total * staff / jobs as u64;
    assert(n <= total) by (nonlinear_arith)
        requires
            n == total * garage.staff / (jobs as int),
            garage.staff < jobs,
    ;
    n as u32
}

proof fn lemma_establishment_prefix(list: Seq<(VehicleKind, u32)>, k: int)
    requires
        0 <= k <= list.len(),
    ensures
        0 <= establishment(list.take(k)) <= establishment(list),
    decreases list.len(),
{
    if list.len() > 0 {
        if k == list.len() {
            assert(list.take(k) =~= list);
            lemma_establishment_prefix(list.drop_last(), k - 1);
            assert(list.drop_last().take(k - 1) =~= list.drop_last());
        } else {
            lemma_establishment_prefix(list.drop_last(), k);
            assert(list.drop_last().take(k) =~= list.take(k));
        }
    } else {
        assert(list.take(k) =~= list);
    }
}

} // verus!
