//! Roads under construction, and the grades a road can be built to.
//!
//! A road is ordered, materialled and worked by a crew like any building, and
//! carries nothing until it is finished. A grade decides the bill, the speed
//! and which network the finished way joins. When a road opens it is laid into
//! the network with a junction every [`JUNCTION_SPACING`] metres, so that
//! buildings along it can reach it, and merged into junctions already standing
//! at its ends, so that two roads ordered end to end become one network.
//!
//! Bills are authored in kilograms per kilometre and charged in whole tonnes,
//! rounded up. Labour is authored in builder-days per kilometre and counted in
//! thousandths of a builder-day, so a site of any length owes an exact amount.

use crate::journey::Medium;
use crate::network::{joins, lemma_reachable_extend, lemma_reachable_grows, lemma_reachable_self, reachable, Network};
use crate::resource::{Resource, Stock};
use crate::units::{distance, lemma_distance_nonneg, lerp, lerp_exec, Metres, Point, Speed, Tonnes};
use vstd::prelude::*;
use vstd::string::StringExecFns;

verus! {

/// The longest a single segment of a newly laid road may be, in metres.
pub const JUNCTION_SPACING: i64 = 200;

/// How close a new junction has to be to an existing one to be the same
/// junction, in metres.
pub const JUNCTION_MERGE: i64 = 20;

/// The shortest road worth ordering, in metres.
pub const MIN_ROAD: i64 = 50;

/// Builder-days per kilometre of street lighting, on top of the road's own.
pub const LAMP_LABOUR: u64 = 35;

/// The longest road, in metres, whose bill and labour are reckoned here: a
/// billion kilometres, past which the sums would not be exact in 128 bits.
pub const LONGEST_ROAD: i64 = 0x100_0000_0000;

/// How well a way is built, and which network it joins when finished.
#[derive(Debug, Clone, Copy, PartialEq, Eq, Structural, Hash, PartialOrd, Ord)]
pub enum Grade {
    /// Graded earth. Free of materials and cheap in labour.
    Dirt,
    Gravel,
    Paved,
    /// A road that can cross open water: the only road grade that may.
    Bridge,
    /// Track. Dear to lay, cheap to run, and it goes exactly where it was put.
    Railway,
    /// Track over water. The single most expensive thing in the table.
    RailBridge,
    /// Street track, laid in a road somebody already built.
    Tramway,
    /// Underground. It passes beneath a river rather than needing a bridge.
    MetroTunnel,
}

/// What a grade costs and what it is worth.
#[derive(Debug, Clone, PartialEq, Eq)]
pub struct GradeDef {
    pub grade: Grade,
    pub name: &'static str,
    /// Which network the finished way joins, and therefore what may ride it.
    pub carries: Medium,
    /// What a vehicle may do on it.
    pub speed: Speed,
    /// Kilograms of each material per kilometre.
    pub materials: Vec<(Resource, u64)>,
    /// Builder-days per kilometre.
    pub labour: u64,
    /// Whether this grade may be built with street lighting.
    pub lamps: bool,
}

/// The network a grade's finished way joins.
pub open spec fn carries_of(g: Grade) -> Medium {
    match g {
        Grade::Dirt | Grade::Gravel | Grade::Paved | Grade::Bridge => Medium::Road,
        Grade::Railway | Grade::RailBridge => Medium::Rail,
        Grade::Tramway => Medium::Tram,
        Grade::MetroTunnel => Medium::Metro,
    }
}

/// What a vehicle may do on a grade, in kilometres an hour.
pub open spec fn kph_of(g: Grade) -> u64 {
    match g {
        Grade::Dirt => 25,
        Grade::Gravel => 45,
        Grade::Paved => 60,
        Grade::Bridge => 40,
        Grade::Railway => 80,
        Grade::RailBridge => 50,
        Grade::Tramway => 30,
        Grade::MetroTunnel => 70,
    }
}

/// Kilograms of each material per kilometre of a grade.
pub open spec fn materials_of(g: Grade) -> Seq<(Resource, u64)> {
    match g {
        Grade::Dirt => seq![],
        Grade::Gravel => seq![(Resource::Gravel, 60_000u64)],
        Grade::Paved => seq![(Resource::Gravel, 40_000u64), (Resource::Asphalt, 25_000u64)],
        Grade::Bridge => seq![(Resource::Steel, 120_000u64), (Resource::Bricks, 90_000u64), (Resource::Gravel, 60_000u64)],
        Grade::Railway => seq![(Resource::Steel, 90_000u64), (Resource::Gravel, 140_000u64)],
        Grade::RailBridge => seq![(Resource::Steel, 220_000u64), (Resource::Bricks, 120_000u64), (Resource::Gravel, 90_000u64)],
        Grade::Tramway => seq![(Resource::Steel, 45_000u64), (Resource::Gravel, 40_000u64)],
        Grade::MetroTunnel => seq![
            (Resource::Steel, 180_000u64),
            (Resource::Bricks, 320_000u64),
            (Resource::Gravel, 240_000u64),
            (Resource::Machinery, 12_000u64),
        ],
    }
}

/// Builder-days per kilometre of a grade.
pub open spec fn labour_of(g: Grade) -> u64 {
    match g {
        Grade::Dirt => 25,
        Grade::Gravel => 70,
        Grade::Paved => 140,
        Grade::Bridge => 520,
        Grade::Railway => 260,
        Grade::RailBridge => 780,
        Grade::Tramway => 120,
        Grade::MetroTunnel => 1_400,
    }
}

/// Whether a grade may be built with street lighting: paved only.
pub open spec fn lamps_of(g: Grade) -> bool {
    g == Grade::Paved
}

/// Whether a grade may be laid over open water.
pub open spec fn spans_water_spec(g: Grade) -> bool {
    g == Grade::Bridge || g == Grade::RailBridge || g == Grade::MetroTunnel
}

/// What a kilometre of street lighting costs on top of the road under it, in
/// kilograms. It shares no material with any grade's own bill.
pub open spec fn lamp_materials_spec() -> Seq<(Resource, u64)> {
    seq![(Resource::Steel, 6_000u64), (Resource::Electronics, 1_500u64)]
}

/// What a kilometre of street lighting costs, in kilograms of each material.
pub fn lamp_materials() -> (r: Vec<(Resource, u64)>)
    ensures
        r@ == lamp_materials_spec(),
{
    let r = vec![(Resource::Steel, 6_000u64), (Resource::Electronics, 1_500u64)];
    assert(r@ =~= lamp_materials_spec());
    r
}

fn bill(rows: &[(Resource, u64)]) -> (r: Vec<(Resource, u64)>)
    ensures
        r@ == rows@,
{
    let mut out: Vec<(Resource, u64)> = Vec::new();
    let mut i: usize = 0;
    while i < rows.len()
        invariant
            i <= rows@.len(),
            out@ == rows@.take(i as int),
        decreases rows@.len() - i,
    {
        out.push(rows[i]);
        proof {
            assert(rows@.take(i + 1) =~= rows@.take(i as int).push(rows@[i as int]));
        }
        i = i + 1;
    }
    assert(rows@.take(i as int) =~= rows@);
    out
}

impl GradeDef {
    /// Whether this grade may be laid over open water.
    pub fn spans_water(&self) -> (r: bool)
        ensures
            r == spans_water_spec(self.grade),
    {
        match self.grade {
            Grade::Bridge | Grade::RailBridge | Grade::MetroTunnel => true,
            _ => false,
        }
    }
}

impl Grade {
    /// The row of the road table for this grade.
    pub fn def(self) -> (d: GradeDef)
        ensures
            d.grade == self,
            d.carries == carries_of(self),
            d.speed.0 == kph_of(self) * 1000,
            d.materials@ == materials_of(self),
            d.labour == labour_of(self),
            d.lamps == lamps_of(self),
    {
        match self {
            Grade::Dirt => GradeDef {
                grade: self,
                name: "Dirt Track",
                carries: Medium::Road,
                speed: Speed::from_kph(25),
                materials: Vec::new(),
                labour: 25,
                lamps: false,
            },
            Grade::Gravel => GradeDef {
                grade: self,
                name: "Gravel Road",
                carries: Medium::Road,
                speed: Speed::from_kph(45),
                materials: bill(&[(Resource::Gravel, 60_000u64)]),
                labour: 70,
                lamps: false,
            },
            Grade::Paved => GradeDef {
                grade: self,
                name: "Paved Road",
                carries: Medium::Road,
                speed: Speed::from_kph(60),
                materials: bill(&[(Resource::Gravel, 40_000u64), (Resource::Asphalt, 25_000u64)]),
                labour: 140,
                lamps: true,
            },
            Grade::Bridge => GradeDef {
                grade: self,
                name: "Bridge",
                carries: Medium::Road,
                speed: Speed::from_kph(40),
                materials: bill(
                    &[(Resource::Steel, 120_000u64), (Resource::Bricks, 90_000u64), (Resource::Gravel, 60_000u64)],
                ),
                labour: 520,
                lamps: false,
            },
            Grade::Railway => GradeDef {
                grade: self,
                name: "Railway",
                carries: Medium::Rail,
                speed: Speed::from_kph(80),
                materials: bill(&[(Resource::Steel, 90_000u64), (Resource::Gravel, 140_000u64)]),
                labour: 260,
                lamps: false,
            },
            Grade::RailBridge => GradeDef {
                grade: self,
                name: "Railway Bridge",
                carries: Medium::Rail,
                speed: Speed::from_kph(50),
                materials: bill(
                    &[(Resource::Steel, 220_000u64), (Resource::Bricks, 120_000u64), (Resource::Gravel, 90_000u64)],
                ),
                labour: 780,
                lamps: false,
            },
            Grade::Tramway => GradeDef {
                grade: self,
                name: "Tramway",
                carries: Medium::Tram,
                speed: Speed::from_kph(30),
                materials: bill(&[(Resource::Steel, 45_000u64), (Resource::Gravel, 40_000u64)]),
                labour: 120,
                lamps: false,
            },
            Grade::MetroTunnel => GradeDef {
                grade: self,
                name: "Metro Tunnel",
                carries: Medium::Metro,
                speed: Speed::from_kph(70),
                materials: bill(
                    &[
                        (Resource::Steel, 180_000u64),
                        (Resource::Bricks, 320_000u64),
                        (Resource::Gravel, 240_000u64),
                        (Resource::Machinery, 12_000u64),
                    ],
                ),
                labour: 1_400,
                lamps: false,
            },
        }
    }

    /// Every grade, in table order.
    pub fn all() -> (r: Vec<Grade>)
        ensures
            r@ == seq![
                Grade::Dirt,
                Grade::Gravel,
                Grade::Paved,
                Grade::Bridge,
                Grade::Railway,
                Grade::RailBridge,
                Grade::Tramway,
                Grade::MetroTunnel,
            ],
    {
        let r = vec![
            Grade::Dirt,
            Grade::Gravel,
            Grade::Paved,
            Grade::Bridge,
            Grade::Railway,
            Grade::RailBridge,
            Grade::Tramway,
            Grade::MetroTunnel,
        ];
        assert(r@ =~= seq![
            Grade::Dirt,
            Grade::Gravel,
            Grade::Paved,
            Grade::Bridge,
            Grade::Railway,
            Grade::RailBridge,
            Grade::Tramway,
            Grade::MetroTunnel,
        ]);
        r
    }
}

/// A stable handle to a road under construction.
#[derive(Debug, Clone, Copy, PartialEq, Eq, Structural, Hash, PartialOrd, Ord)]
pub struct RoadSiteId(pub u32);

/// Why a road could not be ordered there.
#[derive(Debug, Clone, Copy, PartialEq, Eq, Structural)]
pub enum RoadError {
    /// Shorter than [`MIN_ROAD`].
    TooShort,
    /// One end is off the map, or on ground that will not take a road.
    Unbuildable,
    /// Street lighting was asked for on a grade that cannot carry it.
    NoLampsOnThisGrade(Grade),
    /// The line crosses open water and this grade cannot.
    NeedsABridge,
}

/// What a grade is called on a panel.
pub open spec fn grade_name(g: Grade) -> Seq<char> {
    match g {
        Grade::Dirt => "Dirt Track"@,
        Grade::Gravel => "Gravel Road"@,
        Grade::Paved => "Paved Road"@,
        Grade::Bridge => "Bridge"@,
        Grade::Railway => "Railway"@,
        Grade::RailBridge => "Railway Bridge"@,
        Grade::Tramway => "Tramway"@,
        Grade::MetroTunnel => "Metro Tunnel"@,
    }
}

impl Grade {
    /// What this grade is called on a panel.
    pub fn name(self) -> (r: &'static str)
        ensures
            r@ == grade_name(self),
    {
        proof {
            reveal_strlit("Dirt Track");
            reveal_strlit("Gravel Road");
            reveal_strlit("Paved Road");
            reveal_strlit("Bridge");
            reveal_strlit("Railway");
            reveal_strlit("Railway Bridge");
            reveal_strlit("Tramway");
            reveal_strlit("Metro Tunnel");
        }
        match self {
            Grade::Dirt => "Dirt Track",
            Grade::Gravel => "Gravel Road",
            Grade::Paved => "Paved Road",
            Grade::Bridge => "Bridge",
            Grade::Railway => "Railway",
            Grade::RailBridge => "Railway Bridge",
            Grade::Tramway => "Tramway",
            Grade::MetroTunnel => "Metro Tunnel",
        }
    }
}

/// What a road refusal says.
pub open spec fn road_message(e: RoadError) -> Seq<char> {
    match e {
        RoadError::NoLampsOnThisGrade(grade) => "street lighting wants a kerb and a duct, which "@
            + grade_name(grade) + " has not got"@,
        RoadError::TooShort => "a road shorter than 50 m is not worth surveying"@,
        RoadError::Unbuildable => "one end is off the map or on ground that will not take a road"@,
        RoadError::NeedsABridge => "this line crosses water; only a bridge can span it"@,
    }
}

impl RoadError {
    /// What the player is told, in the register the rest of the game speaks
    /// in: a refusal that cannot say why is one nobody can act on.
    pub fn message(&self) -> (s: String)
        ensures
            s@ == road_message(*self),
    {
        match self {
            RoadError::NoLampsOnThisGrade(grade) => {
                let mut s = String::from_str("street lighting wants a kerb and a duct, which ");
                s.append(grade.name());
                s.append(" has not got");
                s
            },
            RoadError::TooShort => String::from_str("a road shorter than 50 m is not worth surveying"),
            RoadError::Unbuildable => String::from_str("one end is off the map or on ground that will not take a road"),
            RoadError::NeedsABridge => String::from_str("this line crosses water; only a bridge can span it"),
        }
    }
}

/// A road that has been ordered and not yet opened.
#[derive(Debug, Clone, PartialEq, Eq)]
pub struct RoadSite {
    pub id: RoadSiteId,
    pub from: Point,
    pub to: Point,
    pub grade: Grade,
    /// Materials delivered so far.
    pub stock: Stock,
    /// Work done so far, in thousandths of a builder-day.
    pub work_done: u64,
    /// Where this sits in the republic's commissioning order.
    pub ordered: u64,
    /// Whether this road is being built with street lighting. Only ever true
    /// on a grade that may carry it.
    pub lamps: bool,
}

/// Kilograms of each material per kilometre of this site, lamps included.
pub open spec fn per_km_of(grade: Grade, lamps: bool) -> Seq<(Resource, u64)> {
    if lamps {
        materials_of(grade) + lamp_materials_spec()
    } else {
        materials_of(grade)
    }
}

/// Whole tonnes, rounded up, of a material at `kg` a kilometre over `length`
/// metres.
pub open spec fn row_tonnes(kg: u64, length: int) -> int {
    (kg * length + 999_999) / 1_000_000
}

/// The first row of a bill for a resource, if it has one.
pub open spec fn row_index(rows: Seq<(Resource, u64)>, resource: Resource) -> int
    decreases rows.len(),
{
    if rows.len() == 0 {
        0
    } else if rows[0].0 == resource {
        0
    } else {
        1 + row_index(rows.drop_first(), resource)
    }
}

/// How much of one material a site of this grade and length needs in all.
pub open spec fn material_of(grade: Grade, lamps: bool, length: int, resource: Resource) -> int {
    let rows = per_km_of(grade, lamps);
    let i = row_index(rows, resource);
    if i < rows.len() {
        row_tonnes(rows[i].1, length)
    } else {
        0
    }
}

/// Builder-days the whole site needs, in thousandths.
pub open spec fn labour_need(grade: Grade, lamps: bool, length: int) -> int {
    (labour_of(grade) + if lamps { LAMP_LABOUR } else { 0 }) * length
}

/// What is left of `total` once `done` of `labour` is worked, rounded up.
pub open spec fn share_left(total: int, done: int, labour: int) -> int {
    if labour <= 0 || done >= labour {
        0
    } else {
        (total * (labour - done) + labour - 1) / labour
    }
}

/// The point halfway between two coordinates, rounded down.
pub open spec fn midway(a: i64, b: i64) -> int {
    let s = a + b;
    if s >= 0 {
        s / 2
    } else {
        -((-s + 1) / 2)
    }
}

impl RoadSite {
    pub open spec fn length_spec(&self) -> int {
        distance(self.from, self.to)
    }

    pub open spec fn labour_spec(&self) -> int {
        labour_need(self.grade, self.lamps, self.length_spec())
    }

    pub open spec fn material_spec(&self, resource: Resource) -> int {
        material_of(self.grade, self.lamps, self.length_spec(), resource)
    }

    pub fn length(&self) -> (m: Metres)
        ensures
            m.0 == self.length_spec(),
    {
        self.from.distance_to(self.to)
    }

    pub fn def(&self) -> (d: GradeDef)
        ensures
            d.grade == self.grade,
            d.carries == carries_of(self.grade),
            d.speed.0 == kph_of(self.grade) * 1000,
            d.materials@ == materials_of(self.grade),
            d.labour == labour_of(self.grade),
            d.lamps == lamps_of(self.grade),
    {
        self.grade.def()
    }

    /// What one kilometre of this exact site costs, lamps included, in
    /// kilograms of each material.
    pub fn per_km(&self) -> (r: Vec<(Resource, u64)>)
        ensures
            r@ == per_km_of(self.grade, self.lamps),
    {
        let mut rows = self.def().materials;
        if self.lamps {
            let mut lamps = lamp_materials();
            let ghost before = rows@;
            rows.append(&mut lamps);
            assert(rows@ =~= before + lamp_materials_spec());
        }
        rows
    }

    /// The whole bill of materials, in whole tonnes rounded up.
    pub fn materials(&self) -> (r: Vec<(Resource, Tonnes)>)
        requires
            self.length_spec() <= LONGEST_ROAD,
        ensures
            r@.len() == per_km_of(self.grade, self.lamps).len(),
            forall|i: int|
                0 <= i < r@.len() ==> (#[trigger] r@[i]).0 == per_km_of(self.grade, self.lamps)[i].0 && r@[i].1.0
                    == row_tonnes(per_km_of(self.grade, self.lamps)[i].1, self.length_spec()),
    {
        let rows = self.per_km();
        let length = self.length();
        proof {
            lemma_distance_nonneg(self.from, self.to);
            lemma_rows_bounded(self.grade, self.lamps);
        }
        let mut out: Vec<(Resource, Tonnes)> = Vec::new();
        let mut i: usize = 0;
        while i < rows.len()
            invariant
                i <= rows@.len(),
                rows@ == per_km_of(self.grade, self.lamps),
                length.0 == self.length_spec(),
                0 <= length.0 <= LONGEST_ROAD,
                forall|j: int| 0 <= j < rows@.len() ==> (#[trigger] rows@[j]).1 <= 320_000,
                out@.len() == i,
                forall|j: int|
                    0 <= j < i ==> (#[trigger] out@[j]).0 == rows@[j].0 && out@[j].1.0 == row_tonnes(
                        rows@[j].1,
                        length.0 as int,
                    ),
            decreases rows@.len() - i,
        {
            let (resource, kg) = rows[i];
            let t = tonnes_for(kg, length);
            out.push((resource, t));
            i = i + 1;
        }
        out
    }

    /// How much of one material it needs in total.
    pub fn material(&self, resource: Resource) -> (t: Tonnes)
        requires
            self.length_spec() <= LONGEST_ROAD,
        ensures
            t.0 == self.material_spec(resource),
    {
        let rows = self.per_km();
        let length = self.length();
        proof {
            lemma_distance_nonneg(self.from, self.to);
            lemma_rows_bounded(self.grade, self.lamps);
        }
        let mut i: usize = 0;
        while i < rows.len()
            invariant
                i <= rows@.len(),
                rows@ == per_km_of(self.grade, self.lamps),
                length.0 == self.length_spec(),
                0 <= length.0 <= LONGEST_ROAD,
                forall|j: int| 0 <= j < rows@.len() ==> (#[trigger] rows@[j]).1 <= 320_000,
                forall|j: int| 0 <= j < i ==> (#[trigger] rows@[j]).0 != resource,
            decreases rows@.len() - i,
        {
            if rows[i].0 == resource {
                proof {
                    lemma_row_index_is(rows@, resource, i as int);
                }
                return tonnes_for(rows[i].1, length);
            }
            i = i + 1;
        }
        proof {
            lemma_row_index_is(rows@, resource, i as int);
        }
        Tonnes(0)
    }

    /// Builder-days the whole road needs, in thousandths.
    pub fn labour(&self) -> (l: u64)
        requires
            self.length_spec() <= LONGEST_ROAD,
        ensures
            l == self.labour_spec(),
    {
        let length = self.length();
        proof {
            lemma_distance_nonneg(self.from, self.to);
        }
        let per_km = self.def().labour + if self.lamps {
            LAMP_LABOUR
        } else {
            0
        };
        assert(per_km <= 1_435);
        assert(per_km * length.0 <= 1_435 * 0x100_0000_0000) by (nonlinear_arith)
            requires
                per_km <= 1_435,
                0 <= length.0 <= 0x100_0000_0000,
        ;
        per_km * length.0 as u64
    }

    pub fn is_finished(&self) -> (r: bool)
        requires
            self.length_spec() <= LONGEST_ROAD,
        ensures
            r == (self.work_done >= self.labour_spec()),
    {
        self.work_done >= self.labour()
    }

    /// Whether the materials for the work still to do are on hand: every row
    /// of the bill, scaled to the share of the work not yet done.
    pub fn has_materials(&self) -> (r: bool)
        requires
            self.length_spec() <= LONGEST_ROAD,
        ensures
            r == forall|i: int|
                0 <= i < per_km_of(self.grade, self.lamps).len() ==> self.stock.amount_of(
                    (#[trigger] per_km_of(self.grade, self.lamps)[i]).0,
                ) >= share_left(
                    row_tonnes(per_km_of(self.grade, self.lamps)[i].1, self.length_spec()),
                    self.work_done as int,
                    self.labour_spec(),
                ),
    {
        let rows = self.per_km();
        let length = self.length();
        let labour = self.labour();
        proof {
            lemma_distance_nonneg(self.from, self.to);
            lemma_rows_bounded(self.grade, self.lamps);
        }
        let mut i: usize = 0;
        while i < rows.len()
            invariant
                i <= rows@.len(),
                rows@ == per_km_of(self.grade, self.lamps),
                length.0 == self.length_spec(),
                0 <= length.0 <= LONGEST_ROAD,
                forall|j: int| 0 <= j < rows@.len() ==> (#[trigger] rows@[j]).1 <= 320_000,
                labour == self.labour_spec(),
                forall|j: int|
                    0 <= j < i ==> self.stock.amount_of((#[trigger] rows@[j]).0) >= share_left(
                        row_tonnes(rows@[j].1, length.0 as int),
                        self.work_done as int,
                        labour as int,
                    ),
            decreases rows@.len() - i,
        {
            let (resource, kg) = rows[i];
            let need = left_of(tonnes_for(kg, length), self.work_done, labour);
            if self.stock.get(resource).0 < need.0 {
                return false;
            }
            i = i + 1;
        }
        true
    }

    /// How much of a material the site still has to be brought: its share of
    /// the work still to do, less what is on hand.
    pub fn material_outstanding(&self, resource: Resource) -> (t: Tonnes)
        requires
            self.length_spec() <= LONGEST_ROAD,
        ensures
            t.0 == if share_left(self.material_spec(resource), self.work_done as int, self.labour_spec())
                >= self.stock.amount_of(resource) {
                share_left(self.material_spec(resource), self.work_done as int, self.labour_spec())
                    - self.stock.amount_of(resource)
            } else {
                0
            },
    {
        let need = self.intake_capacity(resource);
        need.saturating_sub(self.stock.get(resource))
    }

    /// How much of a material the site will accept: exactly what the work
    /// still to do needs, and no more, since a road site is not a warehouse.
    pub fn intake_capacity(&self, resource: Resource) -> (t: Tonnes)
        requires
            self.length_spec() <= LONGEST_ROAD,
        ensures
            t.0 == share_left(self.material_spec(resource), self.work_done as int, self.labour_spec()),
    {
        let total = self.material(resource);
        left_of(total, self.work_done, self.labour())
    }

    /// Where a lorry pulls up: the middle, because that is where the work is.
    pub fn depot(&self) -> (p: Point)
        ensures
            p.x.0 == midway(self.from.x.0, self.to.x.0),
            p.y.0 == midway(self.from.y.0, self.to.y.0),
    {
        Point::new(Metres(midpoint(self.from.x.0, self.to.x.0)), Metres(midpoint(self.from.y.0, self.to.y.0)))
    }
}

fn midpoint(a: i64, b: i64) -> (m: i64)
    ensures
        m == midway(a, b),
{
    let s = a as i128 + b as i128;
    if s >= 0 {
        (s / 2) as i64
    } else {
        (-((-s + 1) / 2)) as i64
    }
}

/// Whole tonnes, rounded up, of `kg` a kilometre over `length`.
fn tonnes_for(kg: u64, length: Metres) -> (t: Tonnes)
    requires
        kg <= 1_000_000,
        0 <= length.0 <= LONGEST_ROAD,
    ensures
        t.0 == row_tonnes(kg, length.0 as int),
        t.0 <= 0x100_0000_0000,
{
    assert(kg * length.0 <= 1_000_000 * 0x100_0000_0000) by (nonlinear_arith)
        requires
            kg <= 1_000_000,
            0 <= length.0 <= 0x100_0000_0000,
    ;
    let product = kg * length.0 as u64;
    assert((product + 999_999) / 1_000_000 <= 0x100_0000_0000) by (nonlinear_arith)
        requires
            product <= 1_000_000 * 0x100_0000_0000,
    ;
    Tonnes((product + 999_999) / 1_000_000)
}

/// What is left of `total` once `done` of `labour` is worked, rounded up.
fn left_of(total: Tonnes, done: u64, labour: u64) -> (t: Tonnes)
    ensures
        t.0 == share_left(total.0 as int, done as int, labour as int),
        t.0 <= total.0,
{
    if labour == 0 || done >= labour {
        return Tonnes(0);
    }
    let rest = labour - done;
    let ghost t = total.0 as int;
    let ghost l = labour as int;
    let ghost r = rest as int;
    proof {
        assert(t * r <= 0xFFFF_FFFF_FFFF_FFFF * 0xFFFF_FFFF_FFFF_FFFF) by (nonlinear_arith)
            requires
                0 <= t <= 0xFFFF_FFFF_FFFF_FFFF,
                0 <= r <= 0xFFFF_FFFF_FFFF_FFFF,
        ;
        assert((t * r + l - 1) / l <= t) by (nonlinear_arith)
            requires
                l > 0,
                0 <= r <= l,
                t >= 0,
        ;
    }
    let wide = (total.0 as u128) * (rest as u128);
    let scaled = (wide + (labour as u128 - 1)) / (labour as u128);
    Tonnes(scaled as u64)
}

/// Index of the first road site with an id, or the count when none has it.
pub open spec fn site_index(list: Seq<RoadSite>, id: RoadSiteId) -> int
    decreases list.len(),
{
    if list.len() == 0 {
        0
    } else if list[0].id == id {
        0
    } else {
        1 + site_index(list.drop_first(), id)
    }
}

/// What ordering a road of this grade between these points answers.
pub open spec fn order_refusal(from: Point, to: Point, grade: Grade, lamps: bool) -> Option<RoadError> {
    if lamps && !lamps_of(grade) {
        Some(RoadError::NoLampsOnThisGrade(grade))
    } else if !spans_water_spec(grade) && distance(from, to) < MIN_ROAD {
        Some(RoadError::TooShort)
    } else if distance(from, to) <= 0 {
        Some(RoadError::TooShort)
    } else {
        None
    }
}

/// Every road the republic has ordered and not yet opened.
#[derive(Debug, Clone, PartialEq, Eq)]
pub struct RoadWorks {
    list: Vec<RoadSite>,
    next_id: u32,
}

impl RoadWorks {
    pub closed spec fn sites(&self) -> Seq<RoadSite> {
        self.list@
    }

    pub closed spec fn next_id_spec(&self) -> u32 {
        self.next_id
    }

    /// Ids are handed out in order, so every site's id is below the next one.
    pub open spec fn wf(&self) -> bool {
        &&& forall|i: int| 0 <= i < self.sites().len() ==> (#[trigger] self.sites()[i]).id.0 < self.next_id_spec()
        &&& forall|i: int, j: int|
            0 <= i < j < self.sites().len() ==> (#[trigger] self.sites()[i]).id != (#[trigger] self.sites()[j]).id
    }

    pub fn new() -> (w: RoadWorks)
        ensures
            w.wf(),
            w.sites() == Seq::<RoadSite>::empty(),
            w.next_id_spec() == 1,
    {
        RoadWorks { list: Vec::new(), next_id: 1 }
    }

    pub fn all(&self) -> (r: &[RoadSite])
        ensures
            r@ == self.sites(),
    {
        self.list.as_slice()
    }

    fn find(&self, id: RoadSiteId) -> (r: Option<usize>)
        ensures
            match r {
                Some(i) => i == site_index(self.sites(), id) && i < self.sites().len(),
                None => site_index(self.sites(), id) == self.sites().len(),
            },
            match r {
                Some(i) => self.sites()[i as int].id == id,
                None => forall|j: int| 0 <= j < self.sites().len() ==> (#[trigger] self.sites()[j]).id != id,
            },
    {
        let mut i: usize = 0;
        while i < self.list.len()
            invariant
                i <= self.list@.len(),
                forall|j: int| 0 <= j < i ==> (#[trigger] self.list@[j]).id != id,
            decreases self.list@.len() - i,
        {
            if self.list[i].id == id {
                proof {
                    lemma_site_index_is(self.list@, id, i as int);
                }
                return Some(i);
            }
            i = i + 1;
        }
        proof {
            lemma_site_index_is(self.list@, id, i as int);
        }
        None
    }

    pub fn get(&self, id: RoadSiteId) -> (r: Option<&RoadSite>)
        ensures
            match r {
                Some(s) => site_index(self.sites(), id) < self.sites().len() && *s == self.sites()[site_index(
                    self.sites(),
                    id,
                )],
                None => site_index(self.sites(), id) == self.sites().len(),
            },
            match r {
                Some(s) => s.id == id && self.sites().contains(*s),
                None => forall|j: int| 0 <= j < self.sites().len() ==> (#[trigger] self.sites()[j]).id != id,
            },
    {
        match self.find(id) {
            Some(i) => Some(&self.list[i]),
            None => None,
        }
    }

    pub fn get_mut(&mut self, id: RoadSiteId) -> (r: Option<&mut RoadSite>)
        ensures
            match r {
                Some(s) => {
                    let i = site_index(old(self).sites(), id);
                    &&& i < old(self).sites().len()
                    &&& *s == old(self).sites()[i]
                    &&& final(self).sites() == old(self).sites().update(i, *final(s))
                },
                None => site_index(old(self).sites(), id) == old(self).sites().len() && final(self).sites()
                    == old(self).sites(),
            },
            final(self).next_id_spec() == old(self).next_id_spec(),
    {
        match self.find(id) {
            Some(i) => Some(&mut self.list[i]),
            None => None,
        }
    }

    pub fn len(&self) -> (n: usize)
        ensures
            n == self.sites().len(),
    {
        self.list.len()
    }

    pub fn is_empty(&self) -> (r: bool)
        ensures
            r == (self.sites().len() == 0),
    {
        self.list.len() == 0
    }

    /// Take a site off the books: it opened, or it was cancelled.
    pub fn remove(&mut self, id: RoadSiteId) -> (r: Option<RoadSite>)
        requires
            old(self).wf(),
        ensures
            final(self).wf(),
            final(self).next_id_spec() == old(self).next_id_spec(),
            match r {
                Some(s) => {
                    let i = site_index(old(self).sites(), id);
                    &&& i < old(self).sites().len()
                    &&& s == old(self).sites()[i]
                    &&& final(self).sites() == old(self).sites().remove(i)
                },
                None => site_index(old(self).sites(), id) == old(self).sites().len() && final(self).sites()
                    == old(self).sites(),
            },
    {
        let at = match self.find(id) {
            Some(i) => i,
            None => return None,
        };
        let site = self.list.remove(at);
        proof {
            let after = self.list@;
            let before = old(self).list@;
            assert forall|i: int| 0 <= i < after.len() implies (#[trigger] after[i]).id.0 < self.next_id by {
                if i < at {
                    assert(after[i] == before[i]);
                } else {
                    assert(after[i] == before[i + 1]);
                }
            }
            assert forall|i: int, j: int| 0 <= i < j < after.len() implies (#[trigger] after[i]).id != (
            #[trigger] after[j]).id by {
                let oi = if i < at { i } else { i + 1 };
                let oj = if j < at { j } else { j + 1 };
                assert(after[i] == before[oi]);
                assert(after[j] == before[oj]);
            }
        }
        Some(site)
    }

    /// Order a road. `ordered` is where it sits in the republic's
    /// commissioning order, which spans buildings as well as roads.
    ///
    /// A bridge is worth surveying at any length, and a road is not: below
    /// [`MIN_ROAD`] only a grade that spans water may be ordered, and nothing
    /// of no length at all.
    pub fn order(&mut self, from: Point, to: Point, grade: Grade, lamps: bool, ordered: u64) -> (r: Result<
        RoadSiteId,
        RoadError,
    >)
        requires
            old(self).wf(),
            old(self).next_id_spec() < u32::MAX,
        ensures
            final(self).wf(),
            match order_refusal(from, to, grade, lamps) {
                Some(e) => r == Err::<RoadSiteId, RoadError>(e) && final(self).sites() == old(self).sites()
                    && final(self).next_id_spec() == old(self).next_id_spec(),
                None => {
                    &&& r == Ok::<RoadSiteId, RoadError>(RoadSiteId(old(self).next_id_spec()))
                    &&& final(self).next_id_spec() == old(self).next_id_spec() + 1
                    &&& final(self).sites().len() == old(self).sites().len() + 1
                    &&& final(self).sites().drop_last() == old(self).sites()
                    &&& {
                        let s = final(self).sites().last();
                        &&& s.id == RoadSiteId(old(self).next_id_spec())
                        &&& s.from == from
                        &&& s.to == to
                        &&& s.grade == grade
                        &&& s.lamps == lamps
                        &&& s.ordered == ordered
                        &&& s.work_done == 0
                        &&& forall|res: Resource| #[trigger] s.stock.amount_of(res) == 0
                    }
                },
            },
    {
        let def = grade.def();
        if lamps && !def.lamps {
            return Err(RoadError::NoLampsOnThisGrade(grade));
        }
        let length = from.distance_to(to);
        if !def.spans_water() && length.0 < MIN_ROAD {
            return Err(RoadError::TooShort);
        }
        if length.0 <= 0 {
            return Err(RoadError::TooShort);
        }
        let id = RoadSiteId(self.next_id);
        self.next_id = self.next_id + 1;
        self.list.push(
            RoadSite { id, from, to, grade, stock: Stock::empty(), work_done: 0, ordered, lamps },
        );
        proof {
            assert(self.list@.drop_last() =~= old(self).list@);
            assert forall|i: int, j: int|
                0 <= i < j < self.list@.len() implies (#[trigger] self.list@[i]).id != (
                #[trigger] self.list@[j]).id by {
                if j == self.list@.len() - 1 {
                    assert(old(self).list@[i].id.0 < old(self).next_id);
                } else {
                    assert(old(self).list@[i] == self.list@[i] && old(self).list@[j] == self.list@[j]);
                }
            }
            assert forall|i: int| 0 <= i < self.list@.len() implies (#[trigger] self.list@[i]).id.0 < self.next_id by {
                if i < old(self).list@.len() {
                    assert(old(self).list@[i] == self.list@[i]);
                }
            }
        }
        Ok(id)
    }
}

/// No row of any bill asks for more than 320 tonnes a kilometre.
proof fn lemma_rows_bounded(grade: Grade, lamps: bool)
    ensures
        forall|j: int| 0 <= j < per_km_of(grade, lamps).len() ==> (#[trigger] per_km_of(grade, lamps)[j]).1 <= 320_000,
{
    let rows = per_km_of(grade, lamps);
    let base = materials_of(grade);
    assert forall|j: int| 0 <= j < base.len() implies (#[trigger] base[j]).1 <= 320_000 by {
        match grade {
            Grade::Dirt => {},
            Grade::Gravel => {},
            Grade::Paved => {},
            Grade::Bridge => {},
            Grade::Railway => {},
            Grade::RailBridge => {},
            Grade::Tramway => {},
            Grade::MetroTunnel => {},
        }
    }
    assert forall|j: int| 0 <= j < rows.len() implies (#[trigger] rows[j]).1 <= 320_000 by {
        if j >= base.len() {
            assert(rows[j] == lamp_materials_spec()[j - base.len()]);
        } else {
            assert(rows[j] == base[j]);
        }
    }
}

/// How many segments a road of this length is laid as: one every
/// [`JUNCTION_SPACING`] metres, rounded up, and at least one.
pub open spec fn steps_for(length: int) -> int {
    if length <= 0 {
        1
    } else {
        (length + JUNCTION_SPACING - 1) / (JUNCTION_SPACING as int)
    }
}

/// The point `k` of `steps` pieces of the way along a road.
pub open spec fn point_along(site: RoadSite, k: int, steps: int) -> Point {
    Point {
        x: Metres(lerp(site.from.x.0, site.to.x.0, k, steps) as i64),
        y: Metres(lerp(site.from.y.0, site.to.y.0, k, steps) as i64),
    }
}

/// Some junction within [`JUNCTION_MERGE`] of `p` can be reached along the
/// network from junction `first`.
pub open spec fn served_from(roads: &Network, first: int, p: Point) -> bool {
    exists|j: int|
        0 <= j < roads.positions().len() && distance(#[trigger] roads.positions()[j], p) <= JUNCTION_MERGE
            && reachable(roads.segs(), first, j)
}

/// Lay a finished road into the network.
///
/// Subdivided at [`JUNCTION_SPACING`] so buildings along its length can reach
/// it, and merged into whatever junctions already stand within
/// [`JUNCTION_MERGE`] of each point, so two roads ordered end to end become
/// one network rather than two islands. A hop that already has road, or that
/// merged onto the junction behind it, adds no road. Afterwards the junction
/// at its start and the one at its end are joined.
pub fn open(roads: &mut Network, site: &RoadSite)
    requires
        old(roads).wf(),
        old(roads).positions().len() + steps_for(site.length_spec()) + 1 < u32::MAX,
    ensures
        final(roads).wf(),
        old(roads).positions().len() <= final(roads).positions().len(),
        final(roads).positions().subrange(0, old(roads).positions().len() as int) == old(roads).positions(),
        old(roads).segs().len() <= final(roads).segs().len(),
        final(roads).segs().subrange(0, old(roads).segs().len() as int) == old(roads).segs(),
        forall|k: int|
            old(roads).segs().len() <= k < final(roads).segs().len() ==> (#[trigger] final(roads).segs()[k]).speed.0
                == kph_of(site.grade) * 1000,
        exists|a: int, b: int|
            0 <= a < final(roads).positions().len() && 0 <= b < final(roads).positions().len() && distance(
                #[trigger] final(roads).positions()[a],
                site.from,
            ) <= JUNCTION_MERGE && distance(#[trigger] final(roads).positions()[b], site.to) <= JUNCTION_MERGE
                && reachable(final(roads).segs(), a, b),
        exists|a: int|
            0 <= a < final(roads).positions().len() && distance(#[trigger] final(roads).positions()[a], site.from)
                <= JUNCTION_MERGE && forall|k: int|
                1 <= k <= steps_for(site.length_spec()) ==> #[trigger] served_from(
                    final(roads),
                    a,
                    point_along(*site, k, steps_for(site.length_spec())),
                ),
{
    let speed = site.def().speed;
    let length = site.length();
    proof {
        lemma_distance_nonneg(site.from, site.to);
    }
    let steps: u64 = if length.0 <= 0 {
        1
    } else {
        ((length.0 as u64) + (JUNCTION_SPACING as u64 - 1)) / (JUNCTION_SPACING as u64)
    };
    assert(steps == steps_for(site.length_spec()));
    let ghost start_len = roads.positions().len();
    let ghost start_segs = roads.segs();
    let ghost start_positions = roads.positions();
    let mut previous = roads.junction_at(site.from, Metres(JUNCTION_MERGE));
    let ghost first = previous;
    proof {
        lemma_reachable_self(roads.segs(), previous.0);
        if roads.positions() == start_positions {
        } else {
            assert(roads.positions()[previous.0 as int] == site.from);
            crate::units::lemma_distance_self(site.from);
        }
    }
    let mut step: u64 = 1;
    while step <= steps
        invariant
            1 <= step <= steps + 1,
            steps == steps_for(site.length_spec()),
            steps >= 1,
            start_len + steps + 1 < u32::MAX,
            roads.wf(),
            start_len <= roads.positions().len() <= start_len + step,
            roads.positions().subrange(0, start_len as int) == start_positions,
            start_segs.len() <= roads.segs().len(),
            roads.segs().subrange(0, start_segs.len() as int) == start_segs,
            speed.0 == kph_of(site.grade) * 1000,
            forall|k: int|
                start_segs.len() <= k < roads.segs().len() ==> (#[trigger] roads.segs()[k]).speed == speed,
            first.0 < roads.positions().len(),
            previous.0 < roads.positions().len(),
            distance(roads.positions()[first.0 as int], site.from) <= JUNCTION_MERGE,
            step > steps ==> distance(roads.positions()[previous.0 as int], site.to) <= JUNCTION_MERGE,
            reachable(roads.segs(), first.0 as int, previous.0 as int),
            forall|k: int| 1 <= k < step ==> #[trigger] served_from(roads, first.0 as int, point_along(*site, k, steps as int)),
        decreases steps + 1 - step,
    {
        let along = Point::new(
            Metres(lerp_exec(site.from.x.0, site.to.x.0, step, steps)),
            Metres(lerp_exec(site.from.y.0, site.to.y.0, step, steps)),
        );
        let ghost before_positions = roads.positions();
        let ghost before_segs = roads.segs();
        let ghost before_roads = *roads;
        let next = roads.junction_at(along, Metres(JUNCTION_MERGE));
        proof {
            assert(along == point_along(*site, step as int, steps as int));
            if roads.positions() == before_positions {
                assert(distance(roads.positions()[next.0 as int], along) <= JUNCTION_MERGE);
            }
            if roads.positions() != before_positions {
                assert(roads.positions()[next.0 as int] == along);
                crate::units::lemma_distance_self(along);
                assert(roads.positions().subrange(0, before_positions.len() as int) =~= before_positions);
            }
            assert(roads.positions()[first.0 as int] == before_positions[first.0 as int]);
            assert(roads.positions()[previous.0 as int] == before_positions[previous.0 as int]);
            assert(roads.positions().subrange(0, start_len as int) =~= start_positions) by {
                assert(before_positions.subrange(0, start_len as int) == start_positions);
            }
        }
        if next != previous && !roads.are_connected(previous, next) {
            let ghost mid_segs = roads.segs();
            roads.connect(previous, next, speed);
            proof {
                let k = mid_segs.len() as int;
                assert(roads.segs()[k].from == previous && roads.segs()[k].to == next);
                assert(roads.segs().subrange(0, mid_segs.len() as int) =~= mid_segs);
                lemma_reachable_grows(mid_segs, roads.segs(), first.0 as int, previous.0 as int);
                lemma_reachable_extend(roads.segs(), first.0 as int, previous.0, next.0, k);
                assert(roads.segs().subrange(0, start_segs.len() as int) =~= start_segs) by {
                    assert(mid_segs.subrange(0, start_segs.len() as int) == start_segs);
                }
                assert(roads.segs().subrange(0, before_segs.len() as int) =~= before_segs);
            }
        } else {
            proof {
                assert(roads.segs().subrange(0, before_segs.len() as int) =~= before_segs);
                if next != previous {
                    let k = choose|k: int| 0 <= k < roads.segs().len() && joins(#[trigger] roads.segs()[k], previous.0 as int, next.0 as int);
                    lemma_reachable_extend(roads.segs(), first.0 as int, previous.0, next.0, k);
                }
            }
        }
        proof {
            assert forall|k: int| 1 <= k < step + 1 implies #[trigger] served_from(
                roads,
                first.0 as int,
                point_along(*site, k, steps as int),
            ) by {
                if k == step {
                    assert(distance(roads.positions()[next.0 as int], along) <= JUNCTION_MERGE);
                    assert(reachable(roads.segs(), first.0 as int, next.0 as int));
                } else {
                    assert(served_from(&before_roads, first.0 as int, point_along(*site, k, steps as int)));
                    let j = choose|j: int|
                        0 <= j < before_roads.positions().len() && distance(
                            #[trigger] before_roads.positions()[j],
                            point_along(*site, k, steps as int),
                        ) <= JUNCTION_MERGE && reachable(before_roads.segs(), first.0 as int, j);
                    assert(roads.positions()[j] == before_roads.positions()[j]);
                    lemma_reachable_grows(before_roads.segs(), roads.segs(), first.0 as int, j);
                }
            }
        }
        previous = next;
        step = step + 1;
    }
    proof {
        assert(0 <= first.0 < roads.positions().len());
        assert(distance(roads.positions()[first.0 as int], site.from) <= JUNCTION_MERGE);
        assert(distance(roads.positions()[previous.0 as int], site.to) <= JUNCTION_MERGE);
        assert(forall|k: int|
            1 <= k <= steps_for(site.length_spec()) ==> #[trigger] served_from(
                roads,
                first.0 as int,
                point_along(*site, k, steps_for(site.length_spec())),
            ));
    }
}

proof fn lemma_site_index_is(list: Seq<RoadSite>, id: RoadSiteId, i: int)
    requires
        0 <= i <= list.len(),
        forall|j: int| 0 <= j < i ==> (#[trigger] list[j]).id != id,
        i == list.len() || list[i].id == id,
    ensures
        site_index(list, id) == i,
    decreases i,
{
    if i > 0 {
        let rest = list.drop_first();
        assert(list[0].id != id);
        assert forall|j: int| 0 <= j < i - 1 implies (#[trigger] rest[j]).id != id by {
            assert(rest[j] == list[j + 1]);
        }
        if i < list.len() {
            assert(rest[i - 1] == list[i]);
        }
        lemma_site_index_is(rest, id, i - 1);
    }
}

proof fn lemma_row_index_is(rows: Seq<(Resource, u64)>, resource: Resource, i: int)
    requires
        0 <= i <= rows.len(),
        forall|j: int| 0 <= j < i ==> (#[trigger] rows[j]).0 != resource,
        i == rows.len() || rows[i].0 == resource,
    ensures
        row_index(rows, resource) == i,
    decreases i,
{
    if i > 0 {
        let rest = rows.drop_first();
        assert(rows[0].0 != resource);
        assert forall|j: int| 0 <= j < i - 1 implies (#[trigger] rest[j]).0 != resource by {
            assert(rest[j] == rows[j + 1]);
        }
        if i < rows.len() {
            assert(rest[i - 1] == rows[i]);
        }
        lemma_row_index_is(rest, resource, i - 1);
    }
}

} // verus!
