//! The state of the ground: how wet it is, how frozen, and what that costs to
//! drive across.
//!
//! Moisture and snow are accumulated state, not a function of the calendar:
//! water that fell last week is still in the ground this week, and snow that
//! fell in December comes off all at once in March. Three rules, none of which
//! mentions spring — snow lies below freezing and melts above it, meltwater
//! goes into the topsoil like rain, frost lags the air — and the spring thaw
//! falls out of them.
//!
//! Fractions are in thousandths (a thousand is saturated, frozen hard, or
//! impassable), temperatures in tenths of a degree Celsius, and water in
//! tenths of a millimetre.

use crate::units::{distance, lemma_distance_nonneg, lemma_distance_self, lemma_distance_triangle, lerp, lerp_exec, Metres, Point};
use vstd::prelude::*;

verus! {

/// What the ground is made of, where a vehicle would drive over it.
#[derive(Debug, Clone, Copy, PartialEq, Eq, Structural, Hash)]
pub enum Surface {
    Grass,
    Forest,
    Rock,
    Water,
}

/// How much worse than open grass a surface is to cross, in thousandths, or
/// `None` where nothing crosses.
pub open spec fn going_of(surface: Surface) -> Option<u32> {
    match surface {
        Surface::Grass => Some(1000u32),
        Surface::Forest => Some(1300u32),
        Surface::Rock => Some(350u32),
        Surface::Water => None,
    }
}

/// How much worse than open grass a surface is to cross.
///
/// A multiplier on the day's softness rather than a figure of its own: rock is
/// hard going and never turns to mud, so a stony route stays open in the thaw.
pub fn going(surface: Surface) -> (g: Option<u32>)
    ensures
        g == going_of(surface),
{
    match surface {
        Surface::Grass => Some(1000),
        Surface::Forest => Some(1300),
        Surface::Rock => Some(350),
        Surface::Water => None,
    }
}

/// How far below freezing the air has to sit for the ground to be fully
/// frozen, in tenths of a degree.
pub const FROST_RANGE: i64 = 80;

/// How much of the gap to today's conditions the frost closes in a day, in
/// hundredths. Soil has thermal mass, which makes the thaw a period.
pub const FROST_LAG_PERCENT: u32 = 12;

/// Tenths of a millimetre of water the topsoil holds when saturated.
pub const SATURATION: u64 = 400;

/// Tenths of a millimetre of water that fill the root zone from empty.
pub const ROOT_SATURATION: u64 = 1_600;

/// Tenths of a millimetre of snow that melt per tenth of a degree above
/// freezing, per day, times ten.
pub const MELT_PER_DEGREE: u64 = 25;

/// Thousandths of its water the topsoil gives up on a warm, snow-free day.
pub const DRYING_PER_DAY: u32 = 100;

/// Thousandths of its water the root zone gives up on a warm day.
pub const ROOT_DRYING_PER_DAY: u32 = 12;

/// How warm it has to be, in tenths of a degree, for drying to run at full
/// rate.
pub const DRYING_FULL_AT: i64 = 150;

/// How wet and how frozen the open ground is, for the whole republic.
#[derive(Debug, Clone, Copy, PartialEq, Eq, Structural)]
pub struct Ground {
    /// Water in the topsoil, in thousandths of saturation: what decides
    /// whether a lorry sinks.
    pub moisture: u32,
    /// Water in the root zone, in thousandths of saturation: what carries a
    /// crop through a dry fortnight.
    pub water: u32,
    /// Snow lying, in tenths of a millimetre of water.
    pub snow: u64,
    /// How frozen the ground is, in thousandths.
    pub frost: u32,
}

/// How frozen the air alone would make the ground, in thousandths.
pub open spec fn frost_target(temperature: i64) -> int {
    if temperature >= 0 {
        0
    } else if -temperature >= FROST_RANGE {
        1000
    } else {
        (-temperature) * 1000 / (FROST_RANGE as int)
    }
}

/// The frost after a day that pulls it towards `target`.
pub open spec fn frost_after(frost: u32, target: int) -> int {
    if target >= frost {
        frost + (target - frost) * (FROST_LAG_PERCENT as int) / 100
    } else {
        frost - (frost - target) * (FROST_LAG_PERCENT as int) / 100
    }
}

/// Snow that melts in a day, capped by what is lying.
pub open spec fn melt_of(snow: u64, temperature: i64) -> int {
    if temperature < 0 {
        0
    } else if temperature * (MELT_PER_DEGREE as int) / 10 >= snow {
        snow as int
    } else {
        temperature * (MELT_PER_DEGREE as int) / 10
    }
}

/// How much of a full day's drying the warmth gives, in thousandths, up to one
/// and a half days' worth.
pub open spec fn warmth_of(temperature: i64) -> int {
    if temperature <= 0 {
        0
    } else if temperature * 1000 / (DRYING_FULL_AT as int) >= 1500 {
        1500
    } else {
        temperature * 1000 / (DRYING_FULL_AT as int)
    }
}

pub open spec fn filled(level: u32, added: int, whole: u64) -> int {
    if level + added * 1000 / (whole as int) >= 1000 {
        1000
    } else {
        level + added * 1000 / (whole as int)
    }
}

pub open spec fn dried(level: int, rate: u32, warmth: int) -> int {
    if level >= rate * warmth / 1000 {
        level - rate * warmth / 1000
    } else {
        0
    }
}

/// The ground after one day of weather.
pub open spec fn advanced(g: Ground, temperature: i64, precipitation: u64) -> Ground {
    let frost = frost_after(g.frost, frost_target(temperature));
    let freezing = temperature < 0;
    let melt = melt_of(g.snow, temperature);
    let snow = g.snow + (if freezing { precipitation as int } else { 0 }) - melt;
    let arriving = (if freezing { 0 } else { precipitation as int }) + melt;
    let moisture = filled(g.moisture, arriving, SATURATION);
    let water = filled(g.water, arriving, ROOT_SATURATION);
    let drying = !freezing && snow == 0;
    Ground {
        moisture: (if drying { dried(moisture, DRYING_PER_DAY, warmth_of(temperature)) } else { moisture }) as u32,
        water: (if drying { dried(water, ROOT_DRYING_PER_DAY, warmth_of(temperature)) } else { water }) as u32,
        snow: snow as u64,
        frost: frost as u32,
    }
}

/// The ground after a run of days, one after another.
pub open spec fn advanced_over(g: Ground, days: Seq<(i64, u64)>) -> Ground
    decreases days.len(),
{
    if days.len() == 0 {
        g
    } else {
        advanced(advanced_over(g, days.drop_last()), days.last().0, days.last().1)
    }
}

/// How badly the open ground would bog a vehicle, in thousandths.
pub open spec fn softness_of(g: Ground) -> int {
    if g.frost >= 1000 {
        0
    } else if g.moisture * (1000 - g.frost) / 1000 >= 1000 {
        1000
    } else {
        g.moisture * (1000 - g.frost) / 1000
    }
}

impl Ground {
    /// Every fraction within its scale.
    pub open spec fn wf(&self) -> bool {
        self.moisture <= 1000 && self.water <= 1000 && self.frost <= 1000
    }

    /// A republic is founded at the end of a winter it did not simulate:
    /// damp and part-frozen is the honest guess.
    pub fn founding() -> (g: Ground)
        ensures
            g == (Ground { moisture: 500, water: 500, snow: 0, frost: 300 }),
    {
        Ground { moisture: 500, water: 500, snow: 0, frost: 300 }
    }

    /// Take one day of weather: `temperature` in tenths of a degree,
    /// `precipitation` in tenths of a millimetre.
    pub fn advance(&mut self, temperature: i64, precipitation: u64)
        requires
            old(self).wf(),
            old(self).snow + precipitation <= u64::MAX,
            -1_000_000 <= temperature <= 1_000_000,
            precipitation <= 1_000_000_000,
        ensures
            final(self).wf(),
            *final(self) == advanced(*old(self), temperature, precipitation),
    {
        let target: u32 = if temperature >= 0 {
            0
        } else if -temperature >= FROST_RANGE {
            1000
        } else {
            ((-temperature) * 1000 / FROST_RANGE) as u32
        };
        let was = self.frost;
        let frost: u32 = if target >= was {
            was + (target - was) * FROST_LAG_PERCENT / 100
        } else {
            was - (was - target) * FROST_LAG_PERCENT / 100
        };
        assert(frost <= 1000) by (nonlinear_arith)
            requires
                target <= 1000,
                was <= 1000,
                target >= was ==> frost == was + (target - was) * 12 / 100,
                target < was ==> frost == was - (was - target) * 12 / 100,
        ;
        let freezing = temperature < 0;
        let melt: u64 = if freezing {
            0
        } else {
            let m = (temperature as u64) * MELT_PER_DEGREE / 10;
            if m >= self.snow {
                self.snow
            } else {
                m
            }
        };
        let fell: u64 = if freezing {
            precipitation
        } else {
            0
        };
        let snow: u64 = self.snow + fell - melt;
        let arriving: u64 = (if freezing {
            0
        } else {
            precipitation
        }) + melt;
        let wet = self.moisture as u128 + arriving as u128 * 1000 / SATURATION as u128;
        let mut moisture: u32 = if wet >= 1000 {
            1000
        } else {
            wet as u32
        };
        let deep = self.water as u128 + arriving as u128 * 1000 / ROOT_SATURATION as u128;
        let mut water: u32 = if deep >= 1000 {
            1000
        } else {
            deep as u32
        };
        if !freezing && snow == 0 {
            let w = if temperature <= 0 {
                0
            } else {
                (temperature as u64) * 1000 / (DRYING_FULL_AT as u64)
            };
            let warmth: u32 = if w >= 1500 {
                1500
            } else {
                w as u32
            };
            let dry = DRYING_PER_DAY * warmth / 1000;
            moisture = if moisture >= dry {
                moisture - dry
            } else {
                0
            };
            let root_dry = ROOT_DRYING_PER_DAY * warmth / 1000;
            water = if water >= root_dry {
                water - root_dry
            } else {
                0
            };
        }
        self.moisture = moisture;
        self.water = water;
        self.snow = snow;
        self.frost = frost;
    }

    /// How badly the open ground would bog a vehicle today, in thousandths:
    /// nothing when firm, a thousand when impassable.
    ///
    /// Frozen ground is hard however wet it is. A frozen bog is a road.
    pub fn softness(&self) -> (s: u32)
        requires
            self.wf(),
        ensures
            s == softness_of(*self),
            s <= 1000,
    {
        let m = self.moisture as u64;
        let thawed = (1000 - self.frost) as u64;
        assert(m * thawed <= 1_000_000) by (nonlinear_arith)
            requires
                m <= 1000,
                thawed <= 1000,
        ;
        let s = m * thawed / 1000;
        if self.frost >= 1000 {
            return 0;
        }
        if s >= 1000 {
            1000
        } else {
            s as u32
        }
    }

    /// What the going is on a particular surface today, in thousandths; water
    /// is a thousand, impassable.
    pub fn going_on(&self, surface: Surface) -> (g: u32)
        requires
            self.wf(),
        ensures
            g == match going_of(surface) {
                Some(m) => if softness_of(*self) * m / 1000 >= 1000 {
                    1000
                } else {
                    softness_of(*self) * m / 1000
                },
                None => 1000,
            },
    {
        let s = self.softness();
        match going(surface) {
            Some(m) => {
                let g = s as u64 * m as u64 / 1000;
                if g >= 1000 {
                    1000
                } else {
                    g as u32
                }
            },
            None => 1000,
        }
    }

    /// The ground rolled forward over the days ahead, each given as its
    /// temperature and precipitation. Asking moves nothing.
    pub fn forecast(&self, days: &[(i64, u64)]) -> (ahead: Ground)
        requires
            self.wf(),
            self.snow + sum_of_rain(days@) <= u64::MAX,
            forall|i: int| 0 <= i < days@.len() ==> -1_000_000 <= (#[trigger] days@[i]).0 <= 1_000_000 && days@[i].1 <= 1_000_000_000,
        ensures
            ahead == advanced_over(*self, days@),
            ahead.wf(),
    {
        let mut ahead = *self;
        let mut i: usize = 0;
        while i < days.len()
            invariant
                i <= days@.len(),
                ahead == advanced_over(*self, days@.take(i as int)),
                ahead.wf(),
                ahead.snow <= self.snow + sum_of_rain(days@.take(i as int)),
                self.snow + sum_of_rain(days@) <= u64::MAX,
                forall|j: int| 0 <= j < days@.len() ==> -1_000_000 <= (#[trigger] days@[j]).0 <= 1_000_000 && days@[j].1 <= 1_000_000_000,
            decreases days@.len() - i,
        {
            proof {
                assert(days@.take(i + 1).drop_last() =~= days@.take(i as int));
                lemma_rain_prefix(days@, i + 1);
            }
            let (t, p) = days[i];
            ahead.advance(t, p);
            i = i + 1;
        }
        assert(days@.take(i as int) =~= days@);
        ahead
    }
}

/// All the precipitation over a run of days.
pub open spec fn sum_of_rain(days: Seq<(i64, u64)>) -> int
    decreases days.len(),
{
    if days.len() == 0 {
        0
    } else {
        sum_of_rain(days.drop_last()) + days.last().1
    }
}

proof fn lemma_rain_prefix(days: Seq<(i64, u64)>, k: int)
    requires
        0 <= k <= days.len(),
    ensures
        sum_of_rain(days.take(k)) <= sum_of_rain(days),
        0 <= sum_of_rain(days.take(k)),
    decreases days.len(),
{
    if days.len() > 0 {
        if k == days.len() {
            assert(days.take(k) =~= days);
            lemma_rain_prefix(days.drop_last(), k - 1);
        } else {
            lemma_rain_prefix(days.drop_last(), k);
            assert(days.drop_last().take(k) =~= days.take(k));
        }
    } else {
        assert(days.take(k) =~= days);
    }
}

/// Frozen ground is hard however wet it is, and dry ground is firm whatever
/// the season: neither can bog anything.
pub proof fn a_frozen_bog_is_a_road(g: Ground)
    requires
        g.wf(),
        g.frost == 1000 || g.moisture == 0,
    ensures
        softness_of(g) == 0,
{
}

/// Snow never melts faster than it lies, and a day above freezing adds none.
pub proof fn snow_only_lies_below_freezing(g: Ground, temperature: i64, precipitation: u64)
    requires
        g.wf(),
        temperature >= 0,
    ensures
        advanced(g, temperature, precipitation).snow <= g.snow,
{
}

/// The side of one traversal cell, in metres. A ten-kilometre republic is a
/// hundred by a hundred lattice, which is what makes routing across country
/// affordable.
pub const GROUND_CELL: i64 = 100;

/// Samples read along each side of a cell when it is built from the terrain.
pub const SAMPLES: u32 = 5;

/// How much longer fully soft ground takes to cross than firm ground: drag is
/// one plus this times the going.
pub const MUD_DRAG: u32 = 2;

/// How much one laden pass packs a cell down, in thousandths.
pub const WEAR_PER_PASS: u32 = 20;

/// How much of its packing a cell loses in a day, in thousandths.
pub const WEAR_FADE_PER_DAY: u32 = 10;

/// The packing, in thousandths, at which a corridor becomes a track.
pub const PROMOTE_AT: u32 = 850;

/// The shortest run of worn cells worth calling a road.
pub const MIN_TRACK_CELLS: usize = 3;

/// How much of the going a made track takes away, in thousandths.
pub const WEAR_RELIEF: u32 = 800;

/// The biggest side a lattice may have, in cells.
pub const MAX_CELLS: u32 = 0x1_0000;

/// How many cells a side of a map of `extent` metres needs.
pub open spec fn cells_for_extent(extent: int) -> int {
    if extent <= 0 {
        1
    } else {
        (extent + GROUND_CELL - 1) / (GROUND_CELL as int)
    }
}

/// How many cells a side of a map of `extent` metres needs: at least one.
pub fn cells_for(extent: Metres) -> (n: u32)
    requires
        extent.0 <= MAX_CELLS * GROUND_CELL,
    ensures
        n == cells_for_extent(extent.0 as int),
        1 <= n <= MAX_CELLS,
{
    if extent.0 <= 0 {
        1
    } else {
        ((extent.0 + GROUND_CELL - 1) / GROUND_CELL) as u32
    }
}

/// Where sample `(sx, sy)` of cell `(cx, cy)` is read.
pub open spec fn sample_spot(cx: int, cy: int, sx: int, sy: int) -> Point {
    Point {
        x: Metres((cx * GROUND_CELL + (2 * sx + 1) * GROUND_CELL / 10) as i64),
        y: Metres((cy * GROUND_CELL + (2 * sy + 1) * GROUND_CELL / 10) as i64),
    }
}

/// Where the terrain is read for sample `(sx, sy)` of cell `(cx, cy)`: spread
/// evenly over the cell, so a cell summarises what is actually there.
pub fn sample_point(cx: u32, cy: u32, sx: u32, sy: u32) -> (p: Point)
    requires
        cx < MAX_CELLS,
        cy < MAX_CELLS,
        sx < SAMPLES,
        sy < SAMPLES,
    ensures
        p == sample_spot(cx as int, cy as int, sx as int, sy as int),
{
    Point {
        x: Metres(cx as i64 * GROUND_CELL + (2 * sx as i64 + 1) * GROUND_CELL / 10),
        y: Metres(cy as i64 * GROUND_CELL + (2 * sy as i64 + 1) * GROUND_CELL / 10),
    }
}

/// Samples that are water or off the map.
pub open spec fn wet_in(s: Seq<Option<Surface>>) -> nat
    decreases s.len(),
{
    if s.len() == 0 {
        0
    } else {
        wet_in(s.drop_last()) + if going_of_sample(s.last()) is None {
            1nat
        } else {
            0
        }
    }
}

/// The going of every sample that can be crossed, added up.
pub open spec fn dry_going(s: Seq<Option<Surface>>) -> nat
    decreases s.len(),
{
    if s.len() == 0 {
        0
    } else {
        dry_going(s.drop_last()) + match going_of_sample(s.last()) {
            Some(g) => g as nat,
            None => 0,
        }
    }
}

pub open spec fn going_of_sample(sample: Option<Surface>) -> Option<u32> {
    match sample {
        Some(surface) => going_of(surface),
        None => None,
    }
}

/// What a cell's samples make it: impassable when a quarter or more of it is
/// water (you cannot drive round the corner of a lake inside one cell),
/// otherwise the mean going of the rest.
pub open spec fn summarised(s: Seq<Option<Surface>>) -> Option<u32> {
    if wet_in(s) * 4 >= s.len() {
        None
    } else {
        Some((dry_going(s) / ((s.len() - wet_in(s)) as nat)) as u32)
    }
}

/// The samples of cell `c`.
pub open spec fn samples_of(samples: Seq<Option<Surface>>, c: int) -> Seq<Option<Surface>> {
    samples.subrange(c * 25, c * 25 + 25)
}

/// The cell a point falls in, or `None` off the map.
pub open spec fn cell_at(side: int, size: int, p: Point) -> Option<int> {
    if p.x.0 < 0 || p.y.0 < 0 {
        None
    } else if (p.x.0 as int) / size >= side || (p.y.0 as int) / size >= side {
        None
    } else {
        Some(((p.y.0 as int) / size) * side + (p.x.0 as int) / size)
    }
}

/// The middle of a cell.
pub open spec fn centre(side: int, size: int, index: int) -> Point {
    Point {
        x: Metres(((index % side) * size + size / 2) as i64),
        y: Metres(((index / side) * size + size / 2) as i64),
    }
}

/// Whether two cells touch, edge or corner.
pub open spec fn adjacent(side: int, a: int, b: int) -> bool {
    &&& 0 <= a < side * side
    &&& 0 <= b < side * side
    &&& a != b
    &&& -1 <= a % side - b % side <= 1
    &&& -1 <= a / side - b / side <= 1
}

/// The neighbour at offset `k` (of nine, row by row, the middle one being the
/// cell itself), if it is on the lattice.
pub open spec fn offset_cell(side: int, index: int, k: int) -> Option<int> {
    let nx = index % side + k % 3 - 1;
    let ny = index / side + k / 3 - 1;
    if k == 4 || nx < 0 || ny < 0 || nx >= side || ny >= side {
        None
    } else {
        Some(ny * side + nx)
    }
}

/// The cells around one, in a fixed order, from the first `k` offsets.
pub open spec fn neighbours_upto(side: int, index: int, k: int) -> Seq<int>
    decreases k,
{
    if k <= 0 {
        Seq::empty()
    } else {
        let before = neighbours_upto(side, index, k - 1);
        match offset_cell(side, index, k - 1) {
            Some(c) => before.push(c),
            None => before,
        }
    }
}

/// The lattice a vehicle crosses country over: what each cell is made of, and
/// how worn each has become.
#[derive(Debug, Clone, PartialEq, Eq)]
pub struct Lattice {
    cells: u32,
    cell_size: Metres,
    /// The static going of each cell in thousandths, `None` where nothing
    /// crosses.
    surface: Vec<Option<u32>>,
    /// How worn each cell is, in thousandths; a thousand is a made track.
    wear: Vec<u32>,
}

impl Lattice {
    pub closed spec fn side(&self) -> int {
        self.cells as int
    }

    pub closed spec fn size(&self) -> int {
        self.cell_size.0 as int
    }

    pub closed spec fn surfaces(&self) -> Seq<Option<u32>> {
        self.surface@
    }

    pub closed spec fn wears(&self) -> Seq<u32> {
        self.wear@
    }

    /// One entry per cell, the cells square, coordinates well inside range,
    /// and every figure on its scale.
    pub open spec fn wf(&self) -> bool {
        &&& 1 <= self.side() <= MAX_CELLS
        &&& 1 <= self.size() <= GROUND_CELL
        &&& self.surfaces().len() == self.side() * self.side()
        &&& self.wears().len() == self.side() * self.side()
        &&& forall|i: int| 0 <= i < self.wears().len() ==> #[trigger] self.wears()[i] <= 1000
        &&& forall|i: int|
            0 <= i < self.surfaces().len() && self.surfaces()[i] is Some ==> #[trigger] self.surfaces()[i].unwrap()
                <= 1300
    }

    /// Whether a cell can be crossed at all.
    pub open spec fn passable(&self, c: int) -> bool {
        0 <= c < self.surfaces().len() && self.surfaces()[c] is Some
    }

    /// Build the lattice for a map `extent` metres across from what the
    /// terrain is at each [`sample_point`], read cell by cell along each row
    /// and, within a cell, sample by sample along each row.
    pub fn from_samples(extent: Metres, samples: &[Option<Surface>]) -> (l: Lattice)
        requires
            extent.0 <= MAX_CELLS * GROUND_CELL,
            samples@.len() == cells_for_extent(extent.0 as int) * cells_for_extent(extent.0 as int) * 25,
        ensures
            l.wf(),
            l.side() == cells_for_extent(extent.0 as int),
            l.size() == GROUND_CELL,
            forall|c: int| 0 <= c < l.surfaces().len() ==> #[trigger] l.surfaces()[c] == summarised(samples_of(samples@, c)),
            forall|c: int| 0 <= c < l.wears().len() ==> #[trigger] l.wears()[c] == 0,
    {
        let cells = cells_for(extent);
        let len: usize = samples.len();
        let total: usize = len / 25;
        assert(total == cells * cells) by (nonlinear_arith)
            requires
                samples@.len() == cells * cells * 25,
                total == samples@.len() / 25,
        ;
        let mut surface: Vec<Option<u32>> = Vec::new();
        let mut wear: Vec<u32> = Vec::new();
        let mut c: usize = 0;
        while c < total
            invariant
                total == cells * cells,
                samples@.len() == total * 25,
                total * 25 <= usize::MAX,
                c <= total,
                surface@.len() == c,
                wear@.len() == c,
                forall|j: int| 0 <= j < c ==> #[trigger] surface@[j] == summarised(samples_of(samples@, j)),
                forall|j: int| 0 <= j < c ==> #[trigger] wear@[j] == 0,
                forall|j: int| 0 <= j < c && surface@[j] is Some ==> #[trigger] surface@[j].unwrap() <= 1300,
            decreases total - c,
        {
            assert(c * 25 + 25 <= total * 25) by (nonlinear_arith)
                requires
                    c < total,
            ;
            let base = c * 25;
            let mut wet: usize = 0;
            let mut sum: u64 = 0;
            let mut k: usize = 0;
            while k < 25
                invariant
                    samples@.len() == total * 25,
                    total * 25 <= usize::MAX,
                    c < total,
                    base == c * 25,
                    base + 25 <= total * 25,
                    k <= 25,
                    wet == wet_in(samples@.subrange(base as int, base + k)),
                    sum == dry_going(samples@.subrange(base as int, base + k)),
                    wet <= k,
                    sum <= 1300 * (k - wet),
                decreases 25 - k,
            {
                proof {
                    assert(samples@.subrange(base as int, base + k + 1).drop_last() =~= samples@.subrange(base as int, base + k));
                    assert(samples@.subrange(base as int, base + k + 1).last() == samples@[base + k]);
                }
                let g = match samples[base + k] {
                    Some(surface) => going(surface),
                    None => None,
                };
                match g {
                    Some(v) => {
                        sum = sum + v as u64;
                    },
                    None => {
                        wet = wet + 1;
                    },
                }
                k = k + 1;
            }
            proof {
                assert(samples@.subrange(base as int, base + 25) =~= samples_of(samples@, c as int));
            }
            let here = if wet * 4 >= 25 {
                None
            } else {
                let dry = (25 - wet) as u64;
                assert(sum / dry <= 1300) by (nonlinear_arith)
                    requires
                        sum <= 1300 * dry,
                        dry > 0,
                ;
                Some((sum / dry) as u32)
            };
            surface.push(here);
            wear.push(0);
            c = c + 1;
        }
        Lattice { cells, cell_size: Metres(GROUND_CELL), surface, wear }
    }

    pub fn cells(&self) -> (n: u32)
        ensures
            n == self.side(),
    {
        self.cells
    }

    pub fn cell_size(&self) -> (m: Metres)
        ensures
            m.0 == self.size(),
    {
        self.cell_size
    }

    /// The cell a point falls in, or `None` off the map.
    pub fn cell_of(&self, at: Point) -> (c: Option<usize>)
        requires
            self.wf(),
        ensures
            match c {
                Some(i) => cell_at(self.side(), self.size(), at) == Some(i as int) && i < self.surfaces().len(),
                None => cell_at(self.side(), self.size(), at) is None,
            },
    {
        if at.x.0 < 0 || at.y.0 < 0 {
            return None;
        }
        let cx = at.x.0 / self.cell_size.0;
        let cy = at.y.0 / self.cell_size.0;
        if cx >= self.cells as i64 || cy >= self.cells as i64 {
            return None;
        }
        let side = self.cells as usize;
        let n = self.surface.len();
        assert(cy * side + cx < side * side) by (nonlinear_arith)
            requires
                0 <= cx < side,
                0 <= cy < side,
        ;
        assert(cy * side <= cy * side + cx);
        Some(cy as usize * side + cx as usize)
    }

    /// The middle of a cell.
    pub fn centre_of(&self, index: usize) -> (p: Point)
        requires
            self.wf(),
            index < self.surfaces().len(),
        ensures
            p == centre(self.side(), self.size(), index as int),
    {
        let side = self.cells as usize;
        let size = self.cell_size.0;
        let cx = index % side;
        let cy = index / side;
        proof {
            assert(cy < side) by (nonlinear_arith)
                requires
                    index < side * side,
                    cy == index / side,
                    side > 0,
            ;
            assert(cx * size + size / 2 <= MAX_CELLS * GROUND_CELL) by (nonlinear_arith)
                requires
                    cx < side <= MAX_CELLS,
                    1 <= size <= GROUND_CELL,
            ;
            assert(cy * size + size / 2 <= MAX_CELLS * GROUND_CELL) by (nonlinear_arith)
                requires
                    cy < side <= MAX_CELLS,
                    1 <= size <= GROUND_CELL,
            ;
        }
        Point { x: Metres(cx as i64 * size + size / 2), y: Metres(cy as i64 * size + size / 2) }
    }

    /// How worn a cell is, in thousandths.
    pub fn wear_at(&self, index: usize) -> (w: u32)
        requires
            index < self.wears().len(),
        ensures
            w == self.wears()[index as int],
    {
        self.wear[index]
    }

    /// Wear a cell in (or, with a negative amount, let it recover), capped at
    /// a made track and at untouched ground.
    pub fn wear_in(&mut self, index: usize, by: i64)
        requires
            old(self).wf(),
            index < old(self).wears().len(),
        ensures
            final(self).wf(),
            final(self).side() == old(self).side(),
            final(self).size() == old(self).size(),
            final(self).surfaces() == old(self).surfaces(),
            final(self).wears() == old(self).wears().update(
                index as int,
                (if old(self).wears()[index as int] + by <= 0 {
                    0
                } else if old(self).wears()[index as int] + by >= 1000 {
                    1000
                } else {
                    old(self).wears()[index as int] + by
                }) as u32,
            ),
    {
        let now = self.wear[index] as i64;
        let worn: u32 = if by <= -now {
            0
        } else if by >= 1000 - now {
            1000
        } else {
            (now + by) as u32
        };
        self.wear.set(index, worn);
    }

    /// Let every cell recover a little. Without this every route ever driven
    /// would be permanent.
    pub fn fade(&mut self, by: u32)
        requires
            old(self).wf(),
        ensures
            final(self).wf(),
            final(self).side() == old(self).side(),
            final(self).size() == old(self).size(),
            final(self).surfaces() == old(self).surfaces(),
            final(self).wears().len() == old(self).wears().len(),
            forall|i: int|
                0 <= i < old(self).wears().len() ==> #[trigger] final(self).wears()[i] == if old(self).wears()[i] >= by {
                    old(self).wears()[i] - by
                } else {
                    0
                },
    {
        let mut i: usize = 0;
        while i < self.wear.len()
            invariant
                self.wf(),
                self.side() == old(self).side(),
                self.size() == old(self).size(),
                self.surfaces() == old(self).surfaces(),
                self.wears().len() == old(self).wears().len(),
                i <= self.wears().len(),
                forall|j: int| 0 <= j < i ==> #[trigger] self.wears()[j] == if old(self).wears()[j] >= by {
                    old(self).wears()[j] - by
                } else {
                    0
                },
                forall|j: int| i <= j < self.wears().len() ==> #[trigger] self.wears()[j] == old(self).wears()[j],
            decreases self.wears().len() - i,
        {
            let w = self.wear[i];
            let faded = if w >= by {
                w - by
            } else {
                0
            };
            self.wear.set(i, faded);
            i = i + 1;
        }
    }

    /// Every cell worn at least `threshold`, in index order.
    pub fn worn_beyond(&self, threshold: u32) -> (r: Vec<usize>)
        requires
            self.wf(),
        ensures
            forall|i: int, j: int| 0 <= i < j < r@.len() ==> r@[i] < r@[j],
            forall|i: int| 0 <= i < r@.len() ==> #[trigger] r@[i] < self.wears().len() && self.wears()[r@[i] as int] >= threshold,
            forall|c: int| 0 <= c < self.wears().len() && self.wears()[c] >= threshold ==> #[trigger] r@.contains(c as usize),
    {
        let mut out: Vec<usize> = Vec::new();
        let mut i: usize = 0;
        while i < self.wear.len()
            invariant
                i <= self.wears().len(),
                forall|a: int, b: int| 0 <= a < b < out@.len() ==> out@[a] < out@[b],
                forall|a: int| 0 <= a < out@.len() ==> #[trigger] out@[a] < i && self.wears()[out@[a] as int] >= threshold,
                forall|c: int| 0 <= c < i && self.wears()[c] >= threshold ==> #[trigger] out@.contains(c as usize),
            decreases self.wears().len() - i,
        {
            if self.wear[i] >= threshold {
                let ghost before = out@;
                out.push(i);
                proof {
                    assert forall|c: int| 0 <= c < i + 1 && self.wears()[c] >= threshold implies #[trigger] out@.contains(c as usize) by {
                        if c == i {
                            assert(out@[out@.len() - 1] == c as usize);
                        } else {
                            assert(before.contains(c as usize));
                            let k = choose|k: int| 0 <= k < before.len() && before[k] == c as usize;
                            assert(out@[k] == c as usize);
                        }
                    }
                }
            }
            i = i + 1;
        }
        out
    }

    /// The eight cells around one, in a fixed order: row by row from the one
    /// up and to the left, leaving out any past the edge.
    pub fn neighbours(&self, index: usize) -> (r: Vec<usize>)
        requires
            self.wf(),
            index < self.surfaces().len(),
        ensures
            r@.map_values(|c: usize| c as int) == neighbours_upto(self.side(), index as int, 9),
    {
        let side = self.cells as i64;
        let n = self.surface.len();
        assert(side * side <= 0x1_0000_0000) by (nonlinear_arith)
            requires
                1 <= side <= 0x1_0000,
        ;
        let cx = index as i64 % side;
        let cy = index as i64 / side;
        assert(cy < side) by (nonlinear_arith)
            requires
                0 <= index < side * side,
                cy == (index as int) / (side as int),
                side > 0,
        ;
        let mut out: Vec<usize> = Vec::new();
        let mut k: i64 = 0;
        while k < 9
            invariant
                0 <= k <= 9,
                side == self.side(),
                1 <= side <= MAX_CELLS,
                side * side <= 0x1_0000_0000,
                0 <= index < side * side,
                cx == (index as int) % (side as int),
                cy == (index as int) / (side as int),
                0 <= cx < side,
                0 <= cy < side,
                out@.map_values(|c: usize| c as int) == neighbours_upto(side as int, index as int, k as int),
            decreases 9 - k,
        {
            let nx = cx + k % 3 - 1;
            let ny = cy + k / 3 - 1;
            if k != 4 && nx >= 0 && ny >= 0 && nx < side && ny < side {
                assert(ny * side + nx < side * side) by (nonlinear_arith)
                    requires
                        0 <= nx < side,
                        0 <= ny < side,
                ;
                assert(ny * side <= ny * side + nx);
                proof {
                    assert(offset_cell(side as int, index as int, k as int) == Some(ny * side + nx));
                }
                out.push((ny * side + nx) as usize);
                proof {
                    assert(out@.map_values(|c: usize| c as int) =~= neighbours_upto(side as int, index as int, k as int).push(ny * side + nx));
                }
            } else {
                assert(offset_cell(side as int, index as int, k as int) is None);
            }
            k = k + 1;
        }
        out
    }
}

/// How bad the going is in one cell, given the day's softness: `None` where
/// nothing crosses, otherwise up to a thousand. A worn track drains and packs
/// where a field does not, so wear takes some of the going away.
pub open spec fn going_in_cell(l: Lattice, softness: u32, c: int) -> Option<int> {
    match l.surfaces()[c] {
        None => None,
        Some(m) => {
            let relief = 1000 - WEAR_RELIEF * l.wears()[c] / 1000;
            let g = softness * m * relief / 1_000_000;
            Some(if g >= 1000 { 1000 } else { g })
        },
    }
}

/// How much longer a cell takes to cross than firm open ground, in
/// thousandths: one plus the mud drag times the going.
pub open spec fn drag_of(going: Option<int>) -> Option<int> {
    match going {
        Some(g) => Some(1000 + MUD_DRAG * g),
        None => None,
    }
}

/// The point `step` of `steps` of the way along a straight run.
pub open spec fn sample(from: Point, to: Point, step: int, steps: int) -> Point {
    Point {
        x: Metres(lerp(from.x.0, to.x.0, step, steps) as i64),
        y: Metres(lerp(from.y.0, to.y.0, step, steps) as i64),
    }
}

/// How many pieces a run of `length` is cut into: pieces of at most `piece`
/// metres, at least one, at most `cap`.
pub open spec fn pieces(length: int, piece: int, cap: int) -> int {
    let n = (length + piece - 1) / piece;
    if n < 1 {
        1
    } else if n > cap {
        cap
    } else {
        n
    }
}

/// Half-cell samples along a run, so a lake cannot be stepped over.
pub open spec fn half_cell_pieces(l: Lattice, from: Point, to: Point, cap: int) -> int {
    pieces(2 * distance(from, to), l.size(), cap)
}

/// The drag at a point for the purpose of seeing whether a run is clear: off
/// the map counts as firm, since the ends of a journey may sit on the edge.
pub open spec fn drag_at(l: Lattice, softness: u32, p: Point) -> Option<int> {
    match cell_at(l.side(), l.size(), p) {
        None => Some(1000),
        Some(c) => drag_of(going_in_cell(l, softness, c)),
    }
}

/// Whether nothing impassable lies on a straight run, at half-cell resolution.
pub open spec fn clear_line(l: Lattice, from: Point, to: Point) -> bool {
    let n = half_cell_pieces(l, from, to, 256);
    forall|k: int| 0 <= k <= n ==> #[trigger] drag_at(l, 0, sample(from, to, k, n)) is Some
}

/// The going at a point: a thousand off the map and where nothing crosses.
pub open spec fn going_at_point(l: Lattice, softness: u32, p: Point) -> int {
    match cell_at(l.side(), l.size(), p) {
        None => 1000,
        Some(c) => match going_in_cell(l, softness, c) {
            Some(g) => g,
            None => 1000,
        },
    }
}

/// The drag a leg is timed at, at one sample: an impassable sample is priced
/// high but finite, so the planner avoids it rather than dividing by nothing.
pub open spec fn timed_drag(l: Lattice, softness: u32, p: Point) -> int {
    match drag_at(l, softness, p) {
        Some(d) => d,
        None => 1000 + MUD_DRAG * 8000,
    }
}

/// The drag over the first `k` of `n` cell-length pieces, each read at its
/// middle.
pub open spec fn drag_total(l: Lattice, softness: u32, from: Point, to: Point, n: int, k: int) -> int
    decreases k,
{
    if k <= 0 {
        0
    } else {
        drag_total(l, softness, from, to, n, k - 1) + timed_drag(l, softness, sample(from, to, 2 * (k - 1) + 1, 2 * n))
    }
}

/// The worst going among the first `k` samples of `n` pieces.
pub open spec fn worst_going(l: Lattice, softness: u32, from: Point, to: Point, n: int, k: int) -> int
    decreases k,
{
    if k <= 0 {
        0
    } else {
        let before = worst_going(l, softness, from, to, n, k - 1);
        let here = going_at_point(l, softness, sample(from, to, k - 1, n));
        if here > before { here } else { before }
    }
}

/// The best, worst and summed drag over the first `k` samples of `n` pieces,
/// or `None` if any of them cannot be crossed.
pub open spec fn drag_profile(l: Lattice, softness: u32, from: Point, to: Point, n: int, k: int) -> Option<(int, int, int)>
    decreases k,
{
    if k <= 0 {
        Some((1_000_000_000int, 0int, 0int))
    } else {
        match drag_profile(l, softness, from, to, n, k - 1) {
            None => None,
            Some((best, worst, total)) => match drag_at(l, softness, sample(from, to, k - 1, n)) {
                None => None,
                Some(d) => Some((if d < best { d } else { best }, if d > worst { d } else { worst }, total + d)),
            },
        }
    }
}

/// How far a point is along a run, `step` of `steps` of the way.
fn along(from: Point, to: Point, step: u64, steps: u64) -> (p: Point)
    requires
        0 < steps,
        step <= steps,
    ensures
        p == sample(from, to, step as int, steps as int),
{
    Point { x: Metres(lerp_exec(from.x.0, to.x.0, step, steps)), y: Metres(lerp_exec(from.y.0, to.y.0, step, steps)) }
}

/// How many pieces of at most `piece` metres cut `length` metres, between one
/// and `cap`.
fn pieces_of(length: u128, piece: i64, cap: u32) -> (n: u32)
    requires
        piece >= 1,
        cap >= 1,
        length <= 0x1_0000_0000_0000_0000,
    ensures
        n == pieces(length as int, piece as int, cap as int),
        1 <= n <= cap,
{
    let n = (length + piece as u128 - 1) / piece as u128;
    if n < 1 {
        1
    } else if n > cap as u128 {
        cap
    } else {
        n as u32
    }
}

/// The lattice plus today's conditions: everything needed to cost a crossing.
#[derive(Debug, Clone, Copy)]
pub struct Crossing<'a> {
    pub lattice: &'a Lattice,
    /// Today's softness, from [`Ground::softness`], in thousandths.
    pub softness: u32,
}

impl<'a> Crossing<'a> {
    pub open spec fn wf(&self) -> bool {
        self.lattice.wf() && self.softness <= 1000
    }

    /// What a way across country from `from` to `to` may be: nothing when an
    /// end is off the map or on ground nothing crosses, or no walk of
    /// crossable cells joins them; else the straight line when both ends share
    /// a cell or the line is clear, or the middles of the cells of a walk of
    /// crossable cells between them.
    pub open spec fn way_between(&self, from: Point, to: Point, r: Option<Seq<Point>>) -> bool {
        match (cell_at(self.lattice.side(), self.lattice.size(), from), cell_at(self.lattice.side(), self.lattice.size(), to)) {
            (Some(start), Some(goal)) => if self.lattice.passable(start) && self.lattice.passable(goal) {
                match r {
                    None => !joined(*self.lattice, start, goal),
                    Some(path) => (path == seq![from, to] && (start == goal || clear_line(*self.lattice, from, to)))
                        || exists|cs: Seq<int>|
                        cs[0] == start && cs.last() == goal && #[trigger] follows(*self.lattice, cs, from, to, path),
                }
            } else {
                r is None
            },
            _ => r is None,
        }
    }

    /// What a walk of cells costs today, in metres times thousandths of drag:
    /// each step from one cell's middle to the next's, at the drag of the cell
    /// stepped into, the total held at `u128::MAX`.
    pub open spec fn walk_cost(&self, cs: Seq<int>) -> int
        decreases cs.len(),
    {
        if cs.len() < 2 {
            0
        } else {
            let l = *self.lattice;
            let step = distance(centre(l.side(), l.size(), cs[cs.len() - 2]), centre(l.side(), l.size(), cs.last()))
                * match drag_of(going_in_cell(l, self.softness, cs.last())) {
                Some(v) => v,
                None => 0,
            };
            let sum = self.walk_cost(cs.drop_last()) + step;
            if sum > u128::MAX {
                u128::MAX as int
            } else {
                sum
            }
        }
    }

    /// The straight line is materially dearer than a walk costing `cost`:
    /// more than a tenth dearer, with a cell's width of drag to spare.
    pub open spec fn dearer_than(&self, from: Point, to: Point, cost: int) -> bool {
        distance(from, to) * self.drag_between(from, to) * 10 > cost * 11 + self.lattice.size() * 10_000
    }

    /// What [`Crossing::route`] answers: a way between the ends, where a walk
    /// is taken over the straight line only when the line is blocked or
    /// materially dearer, and a walk keeps to the hurried allowance of every
    /// walk between the same cells.
    pub open spec fn way_found(&self, from: Point, to: Point, r: Option<Seq<Point>>) -> bool {
        &&& self.way_between(from, to, r)
        &&& match r {
            Some(way) => way != seq![from, to] ==> exists|cs: Seq<int>|
                #[trigger] follows(*self.lattice, cs, from, to, way) && (!clear_line(*self.lattice, from, to)
                    || self.dearer_than(from, to, self.walk_cost(cs))) && forall|w: Seq<int>|
                    #[trigger] is_chain(*self.lattice, w) && w[0] == cs[0] && w.last() == cs.last() ==> 5 * held(
                        chain_cost(*self.lattice, self.softness, cs),
                    ) <= hurried_bound(*self.lattice, self.softness, w),
            None => true,
        }
    }

    /// Today's drag across country from `from` to `to`, in thousandths: the
    /// mean over the pieces of the line.
    pub open spec fn drag_between(&self, from: Point, to: Point) -> int {
        let n = pieces(distance(from, to), self.lattice.size(), 128);
        drag_total(*self.lattice, self.softness, from, to, n, n) / n
    }

    /// How bad the going is in one cell today, in thousandths, or `None` where
    /// nothing crosses.
    pub fn going_in(&self, index: usize) -> (g: Option<u32>)
        requires
            self.wf(),
            index < self.lattice.surfaces().len(),
        ensures
            match g {
                Some(v) => going_in_cell(*self.lattice, self.softness, index as int) == Some(v as int),
                None => going_in_cell(*self.lattice, self.softness, index as int) is None,
            },
    {
        match self.lattice.surface[index] {
            None => None,
            Some(m) => {
                let w = self.lattice.wear[index];
                assert(self.lattice.wears()[index as int] <= 1000);
                assert(self.lattice.surfaces()[index as int].unwrap() <= 1300);
                let relief = 1000 - WEAR_RELIEF * w / 1000;
                let soft = self.softness as u64;
                let mm = m as u64;
                let rr = relief as u64;
                assert(soft * mm <= 1_300_000) by (nonlinear_arith)
                    requires
                        soft <= 1000,
                        mm <= 1300,
                ;
                assert((soft * mm) * rr <= 1_300_000_000) by (nonlinear_arith)
                    requires
                        soft * mm <= 1_300_000,
                        rr <= 1000,
                ;
                let g = soft * mm * rr / 1_000_000;
                Some(if g >= 1000 { 1000 } else { g as u32 })
            },
        }
    }

    /// How much longer a cell takes to cross than firm open ground, in
    /// thousandths, or `None` where nothing crosses.
    pub fn drag_in(&self, index: usize) -> (d: Option<u32>)
        requires
            self.wf(),
            index < self.lattice.surfaces().len(),
        ensures
            match d {
                Some(v) => drag_of(going_in_cell(*self.lattice, self.softness, index as int)) == Some(v as int)
                    && 1000 <= v <= 3000,
                None => drag_of(going_in_cell(*self.lattice, self.softness, index as int)) is None,
            },
    {
        match self.going_in(index) {
            Some(g) => Some(1000 + MUD_DRAG * g),
            None => None,
        }
    }

    /// The going at a point, in thousandths: a thousand off the map and where
    /// nothing crosses.
    pub fn going_at(&self, at: Point) -> (g: u32)
        requires
            self.wf(),
        ensures
            g == going_at_point(*self.lattice, self.softness, at),
    {
        match self.lattice.cell_of(at) {
            Some(cell) => match self.going_in(cell) {
                Some(g) => g,
                None => 1000,
            },
            None => 1000,
        }
    }

    fn drag_at_point(&self, at: Point) -> (d: Option<u32>)
        requires
            self.wf(),
        ensures
            match d {
                Some(v) => drag_at(*self.lattice, self.softness, at) == Some(v as int) && 1000 <= v <= 3000,
                None => drag_at(*self.lattice, self.softness, at) is None,
            },
    {
        match self.lattice.cell_of(at) {
            Some(cell) => self.drag_in(cell),
            None => Some(1000),
        }
    }

    /// The mean drag over a straight run, in thousandths, read at the middle
    /// of each cell-length piece: what a leg is actually timed at.
    pub fn drag_along(&self, from: Point, to: Point) -> (d: u32)
        requires
            self.wf(),
        ensures
            d <= 17_000,
            d == self.drag_between(from, to),
    {
        let length = from.distance_to(to).0 as u128;
        let n = pieces_of(length, self.lattice.cell_size.0, 128);
        let mut total: u64 = 0;
        let mut k: u32 = 0;
        while k < n
            invariant
                self.wf(),
                1 <= n <= 128,
                n == pieces(distance(from, to), self.lattice.size(), 128),
                k <= n,
                total == drag_total(*self.lattice, self.softness, from, to, n as int, k as int),
                total <= 17_000 * k,
            decreases n - k,
        {
            let at = along(from, to, 2 * k as u64 + 1, 2 * n as u64);
            let drag = match self.drag_at_point(at) {
                Some(v) => v as u64,
                None => 17_000,
            };
            total = total + drag;
            k = k + 1;
        }
        assert(total / (n as u64) <= 17_000) by (nonlinear_arith)
            requires
                total <= 17_000 * n,
                n >= 1,
        ;
        (total / n as u64) as u32
    }

    /// The worst going anywhere along a straight run, in thousandths. Worst
    /// rather than mean: a lorry sticks in the one soft patch.
    pub fn going_along(&self, from: Point, to: Point) -> (g: u32)
        requires
            self.wf(),
        ensures
            ({
                let n = half_cell_pieces(*self.lattice, from, to, 256);
                g == worst_going(*self.lattice, self.softness, from, to, n, n + 1)
            }),
    {
        let length = 2 * from.distance_to(to).0 as u128;
        let n = pieces_of(length, self.lattice.cell_size.0, 256);
        let mut worst: u32 = 0;
        let mut k: u32 = 0;
        while k <= n
            invariant
                self.wf(),
                1 <= n <= 256,
                n == half_cell_pieces(*self.lattice, from, to, 256),
                k <= n + 1,
                worst == worst_going(*self.lattice, self.softness, from, to, n as int, k as int),
            decreases n + 1 - k,
        {
            let here = self.going_at(along(from, to, k as u64, n as u64));
            if here > worst {
                worst = here;
            }
            k = k + 1;
        }
        worst
    }

    /// Whether a straight run crosses anything impassable, read every half
    /// cell so a lake cannot be stepped over.
    pub fn is_clear(&self, from: Point, to: Point) -> (r: bool)
        requires
            self.wf(),
        ensures
            r == clear_line(*self.lattice, from, to),
    {
        let length = 2 * from.distance_to(to).0 as u128;
        let n = pieces_of(length, self.lattice.cell_size.0, 256);
        let mut k: u32 = 0;
        while k <= n
            invariant
                self.wf(),
                1 <= n <= 256,
                n == half_cell_pieces(*self.lattice, from, to, 256),
                k <= n + 1,
                forall|j: int| 0 <= j < k ==> #[trigger] drag_at(*self.lattice, 0, sample(from, to, j, n as int)) is Some,
            decreases n + 1 - k,
        {
            let at = along(from, to, k as u64, n as u64);
            proof {
                lemma_passable_whatever_the_weather(*self.lattice, self.softness, at);
            }
            if self.drag_at_point(at).is_none() {
                assert(drag_at(*self.lattice, 0, sample(from, to, k as int, n as int)) is None);
                return false;
            }
            k = k + 1;
        }
        true
    }

    /// The best, worst and mean drag along a straight run, in thousandths, in
    /// one pass; `None` if anything on the way cannot be crossed.
    pub fn profile_along(&self, from: Point, to: Point) -> (r: Option<(u32, u32, u32)>)
        requires
            self.wf(),
        ensures
            ({
                let n = half_cell_pieces(*self.lattice, from, to, 256);
                match drag_profile(*self.lattice, self.softness, from, to, n, n + 1) {
                    Some((best, worst, total)) => r == Some((best as u32, worst as u32, (total / (n + 1)) as u32)),
                    None => r is None,
                }
            }),
    {
        let length = 2 * from.distance_to(to).0 as u128;
        let n = pieces_of(length, self.lattice.cell_size.0, 256);
        let mut best: u32 = 1_000_000_000;
        let mut worst: u32 = 0;
        let mut total: u64 = 0;
        let mut k: u32 = 0;
        while k <= n
            invariant
                self.wf(),
                1 <= n <= 256,
                n == half_cell_pieces(*self.lattice, from, to, 256),
                k <= n + 1,
                drag_profile(*self.lattice, self.softness, from, to, n as int, k as int) == Some(
                    (best as int, worst as int, total as int),
                ),
                worst <= 3000,
                total <= 3000 * k,
            decreases n + 1 - k,
        {
            let at = along(from, to, k as u64, n as u64);
            match self.drag_at_point(at) {
                None => {
                    proof {
                        lemma_profile_stays_broken(*self.lattice, self.softness, from, to, n as int, k as int + 1, n as int + 1);
                    }
                    return None;
                },
                Some(d) => {
                    if d < best {
                        best = d;
                    }
                    if d > worst {
                        worst = d;
                    }
                    total = total + d as u64;
                },
            }
            k = k + 1;
        }
        let count: u64 = n as u64 + 1;
        assert(total / count <= 3000) by (nonlinear_arith)
            requires
                total <= 3000 * count,
                count >= 1,
        ;
        Some((best, worst, (total / count) as u32))
    }
}

/// Whether a cell can be crossed does not depend on the weather.
pub proof fn lemma_passable_whatever_the_weather(l: Lattice, softness: u32, p: Point)
    ensures
        (drag_at(l, softness, p) is Some) == (drag_at(l, 0, p) is Some),
{
}

/// Once a sample cannot be crossed, the profile of any longer prefix is gone.
proof fn lemma_profile_stays_broken(l: Lattice, softness: u32, from: Point, to: Point, n: int, k: int, m: int)
    requires
        1 <= k <= m,
        drag_profile(l, softness, from, to, n, k) is None,
    ensures
        drag_profile(l, softness, from, to, n, m) is None,
    decreases m - k,
{
    if k < m {
        lemma_profile_stays_broken(l, softness, from, to, n, k, m - 1);
    }
}

/// The distinct cells met by the first `k` of `n` half-cell samples along a
/// run, in the order they are met.
pub open spec fn cells_met(l: Lattice, from: Point, to: Point, n: int, k: int) -> Seq<int>
    decreases k,
{
    if k <= 0 {
        Seq::empty()
    } else {
        let before = cells_met(l, from, to, n, k - 1);
        match cell_at(l.side(), l.size(), sample(from, to, k - 1, n)) {
            Some(c) => if before.contains(c) {
                before
            } else {
                before.push(c)
            },
            None => before,
        }
    }
}

/// A walk of cells, each one crossable and touching the next.
pub open spec fn is_chain(l: Lattice, cs: Seq<int>) -> bool {
    &&& cs.len() >= 1
    &&& forall|i: int| 0 <= i < cs.len() ==> #[trigger] l.passable(cs[i])
    &&& forall|i: int| 0 <= i < cs.len() - 1 ==> adjacent(l.side(), #[trigger] cs[i], cs[i + 1])
}

/// Whether some walk of crossable cells leads from `a` to `b`.
pub open spec fn joined(l: Lattice, a: int, b: int) -> bool {
    exists|cs: Seq<int>| #[trigger] is_chain(l, cs) && cs[0] == a && cs.last() == b
}

/// A route that leaves `from`, visits the middles of the inner cells of a
/// walk in order, and arrives at `to`.
pub open spec fn follows(l: Lattice, cs: Seq<int>, from: Point, to: Point, path: Seq<Point>) -> bool {
    &&& is_chain(l, cs)
    &&& cs.len() == path.len()
    &&& path.len() >= 2
    &&& path[0] == from
    &&& path.last() == to
    &&& forall|i: int| 1 <= i < path.len() - 1 ==> #[trigger] path[i] == centre(l.side(), l.size(), cs[i])
}

/// Cells not yet settled by a search.
pub open spec fn unsettled(s: Seq<bool>) -> nat
    decreases s.len(),
{
    if s.len() == 0 {
        0
    } else {
        unsettled(s.drop_last()) + if s.last() {
            0nat
        } else {
            1
        }
    }
}

proof fn lemma_settle_one(s: Seq<bool>, i: int)
    requires
        0 <= i < s.len(),
        !s[i],
    ensures
        unsettled(s.update(i, true)) + 1 == unsettled(s),
    decreases s.len(),
{
    let t = s.update(i, true);
    if i == s.len() - 1 {
        assert(t.drop_last() =~= s.drop_last());
    } else {
        lemma_settle_one(s.drop_last(), i);
        assert(t.drop_last() =~= s.drop_last().update(i, true));
    }
}

/// Two touching cells are one of the eight offsets apart.
proof fn lemma_adjacent_offset(side: int, a: int, b: int) -> (k: int)
    requires
        side >= 1,
        adjacent(side, a, b),
    ensures
        0 <= k < 9,
        offset_cell(side, a, k) == Some(b),
{
    let dx = b % side - a % side;
    let dy = b / side - a / side;
    let k = (dy + 1) * 3 + (dx + 1);
    assert(k % 3 == dx + 1 && k / 3 == dy + 1) by (nonlinear_arith)
        requires
            k == (dy + 1) * 3 + (dx + 1),
            -1 <= dx <= 1,
            -1 <= dy <= 1,
    ;
    vstd::arithmetic::div_mod::lemma_fundamental_div_mod(a, side);
    vstd::arithmetic::div_mod::lemma_fundamental_div_mod(b, side);
    assert(0 <= b % side < side) by {
        vstd::arithmetic::div_mod::lemma_mod_bound(b, side);
    }
    assert(0 <= b / side < side) by (nonlinear_arith)
        requires
            0 <= b < side * side,
            side >= 1,
    ;
    if k == 4 {
        assert(a == b) by (nonlinear_arith)
            requires
                dx == 0,
                dy == 0,
                a == side * (a / side) + a % side,
                b == side * (b / side) + b % side,
                dx == b % side - a % side,
                dy == b / side - a / side,
        ;
    }
    assert((b / side) * side + b % side == b) by (nonlinear_arith)
        requires
            b == side * (b / side) + b % side,
    ;
    k
}

/// The cell at an offset touches the cell it is taken from.
proof fn lemma_offset_adjacent(side: int, a: int, k: int)
    requires
        side >= 1,
        0 <= a < side * side,
        0 <= k < 9,
        offset_cell(side, a, k) is Some,
    ensures
        adjacent(side, a, offset_cell(side, a, k).unwrap()),
{
    let nx = a % side + k % 3 - 1;
    let ny = a / side + k / 3 - 1;
    let b = ny * side + nx;
    vstd::arithmetic::div_mod::lemma_fundamental_div_mod_converse(b, side, ny, nx);
    vstd::arithmetic::div_mod::lemma_fundamental_div_mod(a, side);
    assert(0 <= b < side * side) by (nonlinear_arith)
        requires
            0 <= nx < side,
            0 <= ny < side,
            b == ny * side + nx,
    ;
    if a == b {
        assert(k % 3 == 1 && k / 3 == 1);
        assert(k == 4);
    }
}

/// A search that has stopped with nothing left to look at has settled every
/// cell a walk from the start can reach.
proof fn lemma_closed_reaches(
    l: Lattice,
    settled: Seq<bool>,
    best: Seq<Option<u64>>,
    cs: Seq<int>,
    k: int,
)
    requires
        l.wf(),
        settled.len() == l.side() * l.side(),
        best.len() == l.side() * l.side(),
        is_chain(l, cs),
        0 <= cs[0] < settled.len(),
        settled[cs[0]],
        forall|c: int, j: int|
            0 <= c < settled.len() && settled[c] && 0 <= j < 9 && #[trigger] offset_cell(l.side(), c, j) is Some
                && l.passable(offset_cell(l.side(), c, j).unwrap()) ==> settled[offset_cell(l.side(), c, j).unwrap()]
                || best[offset_cell(l.side(), c, j).unwrap()] is Some,
        forall|c: int| 0 <= c < settled.len() ==> #[trigger] settled[c] || best[c] is None,
        0 <= k < cs.len(),
    ensures
        settled[cs[k]],
    decreases k,
{
    if k > 0 {
        lemma_closed_reaches(l, settled, best, cs, k - 1);
        assert(adjacent(l.side(), cs[k - 1], cs[k]));
        let j = lemma_adjacent_offset(l.side(), cs[k - 1], cs[k]);
        assert(l.passable(cs[k]));
        assert(settled[cs[k]] || best[cs[k]] is Some);
        assert(settled[cs[k]] || best[cs[k]] is None);
    }
}

impl Lattice {
    /// Every distinct cell a straight run passes through, in the order it
    /// meets them: what a leg actually drove over, and so what it packed down.
    pub fn cells_along(&self, from: Point, to: Point) -> (r: Vec<usize>)
        requires
            self.wf(),
        ensures
            ({
                let n = half_cell_pieces(*self, from, to, 512);
                r@.map_values(|c: usize| c as int) == cells_met(*self, from, to, n, n + 1)
            }),
    {
        let length = 2 * from.distance_to(to).0 as u128;
        let n = pieces_of(length, self.cell_size.0, 512);
        let mut out: Vec<usize> = Vec::new();
        let mut k: u32 = 0;
        while k <= n
            invariant
                self.wf(),
                1 <= n <= 512,
                n == half_cell_pieces(*self, from, to, 512),
                k <= n + 1,
                out@.map_values(|c: usize| c as int) == cells_met(*self, from, to, n as int, k as int),
            decreases n + 1 - k,
        {
            let at = along(from, to, k as u64, n as u64);
            match self.cell_of(at) {
                Some(cell) => {
                    let mut seen = false;
                    let mut j: usize = 0;
                    while j < out.len()
                        invariant
                            j <= out@.len(),
                            seen == exists|i: int| 0 <= i < j && out@[i] == cell,
                        decreases out@.len() - j,
                    {
                        if out[j] == cell {
                            seen = true;
                        }
                        j = j + 1;
                    }
                    let ghost met = out@.map_values(|c: usize| c as int);
                    proof {
                        if seen {
                            let i = choose|i: int| 0 <= i < j && out@[i] == cell;
                            assert(met[i] == cell as int);
                        } else {
                            assert forall|i: int| 0 <= i < met.len() implies met[i] != cell as int by {
                                assert(out@[i] != cell);
                            }
                        }
                    }
                    if !seen {
                        out.push(cell);
                        proof {
                            assert(out@.map_values(|c: usize| c as int) =~= met.push(cell as int));
                        }
                    }
                },
                None => {},
            }
            k = k + 1;
        }
        out
    }
}

/// The drag of a cell today, or nothing where nothing crosses.
pub open spec fn cell_drag(l: Lattice, softness: u32, c: int) -> int {
    match drag_of(going_in_cell(l, softness, c)) {
        Some(v) => v,
        None => 0,
    }
}

/// One step across country: from one cell's middle to the next's, at the
/// drag of the cell stepped into.
pub open spec fn step_cost(l: Lattice, softness: u32, a: int, b: int) -> int {
    distance(centre(l.side(), l.size(), a), centre(l.side(), l.size(), b)) * cell_drag(l, softness, b)
}

/// What a walk of cells costs today, every step counted in full.
pub open spec fn chain_cost(l: Lattice, softness: u32, cs: Seq<int>) -> int
    decreases cs.len(),
{
    if cs.len() < 2 {
        0
    } else {
        chain_cost(l, softness, cs.drop_last()) + step_cost(l, softness, cs[cs.len() - 2], cs.last())
    }
}

/// How far the search still counts a cell to be from the goal: the straight
/// distance between their middles at eight fifths of open-ground drag, held
/// at `u64::MAX`.
pub open spec fn hurry_hint(l: Lattice, goal: int, c: int) -> int {
    let h = distance(centre(l.side(), l.size(), c), centre(l.side(), l.size(), goal)) * 1600;
    if h > u64::MAX {
        u64::MAX as int
    } else {
        h
    }
}

/// The allowance a hurried search keeps to: eight fifths of a walk's cost,
/// and a metre of rounding on each of its steps at the same rate.
pub open spec fn hurried_bound(l: Lattice, softness: u32, cs: Seq<int>) -> int {
    8 * chain_cost(l, softness, cs) + 8000 * (cs.len() - 1)
}

/// A crossable cell drags at least as much as open ground on a dry day.
proof fn lemma_drag_floor(l: Lattice, softness: u32, c: int)
    requires
        l.wf(),
        l.passable(c),
    ensures
        cell_drag(l, softness, c) >= 1000,
{
    let m = l.surfaces()[c].unwrap();
    let relief = 1000 - WEAR_RELIEF * l.wears()[c] / 1000;
    assert(l.wears()[c] <= 1000);
    assert(WEAR_RELIEF * l.wears()[c] / 1000 <= 800) by (nonlinear_arith)
        requires
            l.wears()[c] <= 1000,
            WEAR_RELIEF == 800,
    ;
    assert(softness * m * relief >= 0) by (nonlinear_arith)
        requires
            relief >= 0,
    ;
}

/// Step costs are never negative on a walk of crossable cells.
proof fn lemma_chain_cost_nonneg(l: Lattice, softness: u32, cs: Seq<int>)
    requires
        l.wf(),
        forall|i: int| 0 <= i < cs.len() ==> #[trigger] l.passable(cs[i]),
    ensures
        chain_cost(l, softness, cs) >= 0,
    decreases cs.len(),
{
    if cs.len() >= 2 {
        assert forall|i: int| 0 <= i < cs.drop_last().len() implies #[trigger] l.passable(cs.drop_last()[i]) by {
            assert(cs.drop_last()[i] == cs[i]);
        }
        lemma_chain_cost_nonneg(l, softness, cs.drop_last());
        assert(l.passable(cs[cs.len() - 1]));
        lemma_drag_floor(l, softness, cs.last());
        let a = centre(l.side(), l.size(), cs[cs.len() - 2]);
        let b = centre(l.side(), l.size(), cs.last());
        lemma_distance_nonneg(a, b);
        assert(distance(a, b) * cell_drag(l, softness, cs.last()) >= 0) by (nonlinear_arith)
            requires
                distance(a, b) >= 0,
                cell_drag(l, softness, cs.last()) >= 1000,
        ;
    }
}

/// A walk's cost is the cost up to any of its cells and the cost from there.
proof fn lemma_chain_cost_split(l: Lattice, softness: u32, cs: Seq<int>, m: int)
    requires
        0 <= m < cs.len(),
    ensures
        chain_cost(l, softness, cs) == chain_cost(l, softness, cs.take(m + 1)) + chain_cost(
            l,
            softness,
            cs.subrange(m, cs.len() as int),
        ),
    decreases cs.len(),
{
    if m == cs.len() - 1 {
        assert(cs.take(m + 1) =~= cs);
        assert(cs.subrange(m, cs.len() as int).len() == 1);
    } else {
        lemma_chain_cost_split(l, softness, cs.drop_last(), m);
        assert(cs.drop_last().take(m + 1) =~= cs.take(m + 1));
        let tail = cs.subrange(m, cs.len() as int);
        assert(tail.drop_last() =~= cs.drop_last().subrange(m, cs.drop_last().len() as int));
        assert(tail[tail.len() - 2] == cs[cs.len() - 2]);
        assert(tail.last() == cs.last());
    }
}

/// The hint falls along a walk no faster than the walk's hurried allowance:
/// eight fifths of open-ground drag per metre, and a metre per step for
/// rounding.
proof fn lemma_hint_along(l: Lattice, softness: u32, goal: int, cs: Seq<int>)
    requires
        l.wf(),
        cs.len() >= 1,
        forall|i: int| 0 <= i < cs.len() ==> #[trigger] l.passable(cs[i]),
    ensures
        5 * hurry_hint(l, goal, cs[0]) <= 5 * hurry_hint(l, goal, cs.last()) + hurried_bound(l, softness, cs),
    decreases cs.len(),
{
    if cs.len() >= 2 {
        let front = cs.drop_last();
        assert forall|i: int| 0 <= i < front.len() implies #[trigger] l.passable(front[i]) by {
            assert(front[i] == cs[i]);
        }
        lemma_hint_along(l, softness, goal, front);
        let x = cs[cs.len() - 2];
        let y = cs.last();
        assert(front.last() == x);
        assert(front[0] == cs[0]);
        assert(l.passable(cs[cs.len() - 1]));
        lemma_drag_floor(l, softness, y);
        let px = centre(l.side(), l.size(), x);
        let py = centre(l.side(), l.size(), y);
        let pg = centre(l.side(), l.size(), goal);
        lemma_distance_triangle(px, py, pg);
        lemma_distance_nonneg(px, py);
        let dxy = distance(px, py);
        let drag = cell_drag(l, softness, y);
        assert(dxy * drag >= dxy * 1000) by (nonlinear_arith)
            requires
                dxy >= 0,
                drag >= 1000,
        ;
        assert(step_cost(l, softness, x, y) == dxy * drag);
    }
}

/// A number held at `u64::MAX`.
pub open spec fn held(x: int) -> int {
    if x > u64::MAX {
        u64::MAX as int
    } else {
        x
    }
}

/// What the search's numbers mean while it runs: every reached cell's cost is
/// its parent's and the step between them, held at `u64::MAX`; an unsettled
/// reached cell's estimate is its cost and its hint, held; every settled cell
/// has offered each crossable neighbour at most its own cost and the step;
/// and the start is settled before any other cell is reached.
#[verifier::opaque]
pub open spec fn search_costs(
    l: Lattice,
    softness: u32,
    start: int,
    goal: int,
    best: Seq<Option<u64>>,
    came: Seq<Option<usize>>,
    settled: Seq<bool>,
    estimate: Seq<u64>,
    hint: Seq<u64>,
) -> bool {
    let n = l.side() * l.side();
    &&& hint.len() == n
    &&& estimate.len() == n
    &&& forall|x: int| 0 <= x < n ==> #[trigger] hint[x] == hurry_hint(l, goal, x)
    &&& forall|x: int|
        0 <= x < n && x != start && #[trigger] best[x] is Some ==> best[x].unwrap() == held(
            best[came[x].unwrap() as int].unwrap() + step_cost(l, softness, came[x].unwrap() as int, x),
        )
    &&& forall|x: int|
        0 <= x < n && !settled[x] && #[trigger] best[x] is Some ==> estimate[x] == held(best[x].unwrap() + hint[x])
    &&& settled[start] || forall|x: int| 0 <= x < n && x != start ==> #[trigger] best[x] is None
}

/// Settled cell `c` has offered its `j`th neighbour, if crossable and not
/// settled itself, no more than its own cost and the step.
pub open spec fn offered(l: Lattice, softness: u32, best: Seq<Option<u64>>, settled: Seq<bool>, c: int, j: int) -> bool {
    offset_cell(l.side(), c, j) is Some && l.passable(offset_cell(l.side(), c, j).unwrap()) ==> settled[offset_cell(
        l.side(),
        c,
        j,
    ).unwrap()] || (best[offset_cell(l.side(), c, j).unwrap()] is Some && best[offset_cell(
        l.side(),
        c,
        j,
    ).unwrap()].unwrap() <= held(best[c].unwrap() + step_cost(l, softness, c, offset_cell(l.side(), c, j).unwrap())))
}

/// Every settled cell but `cell` has made all its offers, and `cell` the
/// first `k`.
#[verifier::opaque]
pub open spec fn offered_but(l: Lattice, softness: u32, best: Seq<Option<u64>>, settled: Seq<bool>, cell: int, k: int) -> bool {
    forall|c: int, j: int|
        0 <= c < settled.len() && settled[c] && 0 <= j < 9 && (c != cell || j < k) ==> #[trigger] offered(
            l,
            softness,
            best,
            settled,
            c,
            j,
        )
}

/// Every settled cell's cost keeps to the hurried allowance of every walk to
/// it from the start, unless that allowance and the cell's hint together
/// reach past what the search can count.
#[verifier::opaque]
pub open spec fn search_hurried(
    l: Lattice,
    softness: u32,
    start: int,
    best: Seq<Option<u64>>,
    settled: Seq<bool>,
    hint: Seq<u64>,
) -> bool {
    forall|cs: Seq<int>|
        #[trigger] is_chain(l, cs) && cs[0] == start && 0 <= cs.last() < settled.len() && settled[cs.last()] ==> (5
            * best[cs.last()].unwrap() <= hurried_bound(l, softness, cs) || hurried_bound(l, softness, cs) + 5
            * hint[cs.last()] >= 5 * u64::MAX)
}

/// A walk that starts settled and ends unsettled leaves the settled cells
/// somewhere.
proof fn lemma_first_open(settled: Seq<bool>, cs: Seq<int>, k: int) -> (i: int)
    requires
        1 <= k < cs.len(),
        forall|j: int| 0 <= j < cs.len() ==> 0 <= #[trigger] cs[j] < settled.len(),
        settled[cs[0]],
        !settled[cs[k]],
    ensures
        1 <= i <= k,
        !settled[cs[i]],
        settled[cs[i - 1]],
    decreases k,
{
    if settled[cs[k - 1]] {
        k
    } else {
        lemma_first_open(settled, cs, k - 1)
    }
}

/// A front part of a walk is a walk.
proof fn lemma_chain_take(l: Lattice, cs: Seq<int>, m: int)
    requires
        is_chain(l, cs),
        1 <= m <= cs.len(),
    ensures
        is_chain(l, cs.take(m)),
{
    let t = cs.take(m);
    assert forall|i: int| 0 <= i < t.len() implies #[trigger] l.passable(t[i]) by {
        assert(t[i] == cs[i]);
    }
    assert forall|i: int| 0 <= i < t.len() - 1 implies adjacent(l.side(), #[trigger] t[i], t[i + 1]) by {
        assert(t[i] == cs[i] && t[i + 1] == cs[i + 1]);
    }
}

/// One walk to the cell being settled, left by the settled cells between
/// `cs[i - 1]` and `cs[i]`: its allowance covers the cell's cost.
proof fn lemma_walk_hurried(
    l: Lattice,
    softness: u32,
    goal: int,
    cs: Seq<int>,
    i: int,
    g_u: int,
    g_v: int,
    g_c: int,
    e_v: int,
    e_c: int,
)
    requires
        l.wf(),
        is_chain(l, cs),
        1 <= i < cs.len(),
        0 <= g_u <= u64::MAX,
        0 <= g_v <= u64::MAX,
        0 <= g_c <= u64::MAX,
        g_v <= held(g_u + step_cost(l, softness, cs[i - 1], cs[i])),
        e_c <= e_v,
        e_v == held(g_v + hurry_hint(l, goal, cs[i])),
        e_c == held(g_c + hurry_hint(l, goal, cs.last())),
        5 * g_u <= hurried_bound(l, softness, cs.take(i)) || hurried_bound(l, softness, cs.take(i)) + 5 * hurry_hint(
            l,
            goal,
            cs[i - 1],
        ) >= 5 * u64::MAX,
    ensures
        5 * g_c <= hurried_bound(l, softness, cs) || hurried_bound(l, softness, cs) + 5 * hurry_hint(
            l,
            goal,
            cs.last(),
        ) >= 5 * u64::MAX,
{
    let len = cs.len() as int;
    let u = cs[i - 1];
    let v = cs[i];
    let step = step_cost(l, softness, u, v);
    let front = cs.take(i);
    let from_u = cs.subrange(i - 1, len);
    let from_v = cs.subrange(i, len);
    assert forall|k: int| 0 <= k < from_u.len() implies #[trigger] l.passable(from_u[k]) by {
        assert(from_u[k] == cs[i - 1 + k]);
    }
    assert forall|k: int| 0 <= k < from_v.len() implies #[trigger] l.passable(from_v[k]) by {
        assert(from_v[k] == cs[i + k]);
    }
    lemma_hint_along(l, softness, goal, from_u);
    lemma_hint_along(l, softness, goal, from_v);
    assert(from_u[0] == u && from_u.last() == cs.last());
    assert(from_v[0] == v && from_v.last() == cs.last());
    lemma_chain_cost_split(l, softness, cs, i - 1);
    lemma_chain_cost_split(l, softness, from_u, 1);
    assert(from_u.take(2) =~= seq![u, v]);
    assert(from_u.take(2) == seq![u, v]);
    assert(from_u.subrange(1, from_u.len() as int) =~= from_v);
    let uv = seq![u, v];
    assert(chain_cost(l, softness, uv) == step) by {
        assert(uv.drop_last() =~= seq![u]);
        assert(uv.len() == 2 && uv[0] == u && uv.last() == v);
        assert(chain_cost(l, softness, seq![u]) == 0);
    }
    assert(l.passable(u) && l.passable(v));
    assert forall|k: int| 0 <= k < 2 implies #[trigger] l.passable(uv[k]) by {}
    lemma_chain_cost_nonneg(l, softness, uv);
    lemma_chain_cost_nonneg(l, softness, from_v);
    lemma_chain_cost_nonneg(l, softness, cs);
    let h_c = hurry_hint(l, goal, cs.last());
    let h_v = hurry_hint(l, goal, v);
    lemma_distance_nonneg(centre(l.side(), l.size(), cs.last()), centre(l.side(), l.size(), goal));
    lemma_distance_nonneg(centre(l.side(), l.size(), v), centre(l.side(), l.size(), goal));
}

/// The cell the search settles next keeps to the hurried allowance of every
/// walk to it.
proof fn lemma_settle_hurried(
    l: Lattice,
    softness: u32,
    start: int,
    goal: int,
    best: Seq<Option<u64>>,
    came: Seq<Option<usize>>,
    settled: Seq<bool>,
    estimate: Seq<u64>,
    hint: Seq<u64>,
    rank: Seq<int>,
    clock: int,
    cell: int,
)
    requires
        l.wf(),
        0 <= goal < l.side() * l.side(),
        search_inv(l, start, best, came, settled, rank, clock),
        search_costs(l, softness, start, goal, best, came, settled, estimate, hint),
        offered_but(l, softness, best, settled, -1, 0),
        search_hurried(l, softness, start, best, settled, hint),
        0 <= cell < settled.len(),
        !settled[cell],
        best[cell] is Some,
        forall|d: int| 0 <= d < settled.len() && !settled[d] && best[d] is Some ==> estimate[cell] <= #[trigger] estimate[d],
    ensures
        forall|cs: Seq<int>|
            #[trigger] is_chain(l, cs) && cs[0] == start && cs.last() == cell ==> (5 * best[cell].unwrap()
                <= hurried_bound(l, softness, cs) || hurried_bound(l, softness, cs) + 5 * hint[cell] >= 5 * u64::MAX),
{
    reveal(search_costs);
    reveal(offered_but);
    reveal(search_hurried);
    assert forall|cs: Seq<int>| #[trigger] is_chain(l, cs) && cs[0] == start && cs.last() == cell implies (5
        * best[cell].unwrap() <= hurried_bound(l, softness, cs) || hurried_bound(l, softness, cs) + 5 * hint[cell] >= 5
        * u64::MAX) by {
        lemma_chain_cost_nonneg(l, softness, cs);
        if cell == start {
            assert(best[start] == Some(0u64));
        } else {
            assert(settled[start]);
            let len = cs.len() as int;
            assert forall|j: int| 0 <= j < cs.len() implies 0 <= #[trigger] cs[j] < settled.len() by {
                assert(l.passable(cs[j]));
            }
            let i = lemma_first_open(settled, cs, len - 1);
            let u = cs[i - 1];
            let v = cs[i];
            assert(adjacent(l.side(), u, v));
            let j = lemma_adjacent_offset(l.side(), u, v);
            assert(l.passable(v));
            assert(offset_cell(l.side(), u, j) is Some);
            assert(offered(l, softness, best, settled, u, j));
            lemma_chain_take(l, cs, i);
            assert(cs.take(i).last() == u);
            assert(cs.take(i)[0] == start);
            assert(is_chain(l, cs.take(i)));
            lemma_walk_hurried(
                l,
                softness,
                goal,
                cs,
                i,
                best[u].unwrap() as int,
                best[v].unwrap() as int,
                best[cell].unwrap() as int,
                estimate[v] as int,
                estimate[cell] as int,
            );
        }
    }
}

/// Lowering an unsettled neighbour's cost to what the cell being settled
/// offers it keeps what the search's numbers mean.
proof fn lemma_relax_keeps(
    l: Lattice,
    softness: u32,
    start: int,
    goal: int,
    best: Seq<Option<u64>>,
    came: Seq<Option<usize>>,
    settled: Seq<bool>,
    estimate: Seq<u64>,
    hint: Seq<u64>,
    rank: Seq<int>,
    clock: int,
    cell: usize,
    cost: u64,
    next: int,
    cand: u64,
    k: int,
)
    requires
        l.wf(),
        search_inv(l, start, best, came, settled, rank, clock),
        search_costs(l, softness, start, goal, best, came, settled, estimate, hint),
        search_hurried(l, softness, start, best, settled, hint),
        offered_but(l, softness, best, settled, cell as int, k),
        cell < settled.len(),
        settled[cell as int],
        settled[start],
        best[cell as int] == Some(cost),
        0 <= next < settled.len(),
        !settled[next],
        cand == held(cost + step_cost(l, softness, cell as int, next)),
        best[next] is None || cand < best[next].unwrap(),
    ensures
        search_costs(
            l,
            softness,
            start,
            goal,
            best.update(next, Some(cand)),
            came.update(next, Some(cell)),
            settled,
            estimate.update(next, held(cand + hint[next]) as u64),
            hint,
        ),
        search_hurried(l, softness, start, best.update(next, Some(cand)), settled, hint),
        offered_but(l, softness, best.update(next, Some(cand)), settled, cell as int, k),
{
    assert forall|x: int|
        0 <= x < settled.len() && x != start && #[trigger] best[x] is Some implies came[x] is Some && came[x].unwrap()
            < settled.len() && settled[came[x].unwrap() as int] by {
    }
    lemma_relax_costs(l, softness, start, goal, best, came, settled, estimate, hint, cell, cost, next, cand);
    lemma_relax_hurried(l, softness, start, best, settled, hint, next, cand);
    lemma_relax_offers(l, softness, best, settled, cell as int, k, next, cand);
}

proof fn lemma_relax_costs(
    l: Lattice,
    softness: u32,
    start: int,
    goal: int,
    best: Seq<Option<u64>>,
    came: Seq<Option<usize>>,
    settled: Seq<bool>,
    estimate: Seq<u64>,
    hint: Seq<u64>,
    cell: usize,
    cost: u64,
    next: int,
    cand: u64,
)
    requires
        forall|x: int|
            0 <= x < settled.len() && x != start && #[trigger] best[x] is Some ==> came[x] is Some && came[x].unwrap()
                < settled.len() && settled[came[x].unwrap() as int],
        settled.len() == l.side() * l.side(),
        best.len() == settled.len(),
        came.len() == settled.len(),
        search_costs(l, softness, start, goal, best, came, settled, estimate, hint),
        cell < settled.len(),
        settled[cell as int],
        settled[start],
        best[cell as int] == Some(cost),
        0 <= next < settled.len(),
        !settled[next],
        cand == held(cost + step_cost(l, softness, cell as int, next)),
    ensures
        search_costs(
            l,
            softness,
            start,
            goal,
            best.update(next, Some(cand)),
            came.update(next, Some(cell)),
            settled,
            estimate.update(next, held(cand + hint[next]) as u64),
            hint,
        ),
{
    reveal(search_costs);
    let b2 = best.update(next, Some(cand));
    let c2 = came.update(next, Some(cell));
    let e2 = estimate.update(next, held(cand + hint[next]) as u64);
    let n = l.side() * l.side();
    assert forall|x: int| 0 <= x < n && x != start && #[trigger] b2[x] is Some implies b2[x].unwrap() == held(
        b2[c2[x].unwrap() as int].unwrap() + step_cost(l, softness, c2[x].unwrap() as int, x),
    ) by {
        if x != next {
            assert(best[x] is Some);
            assert(settled[came[x].unwrap() as int]);
            assert(came[x].unwrap() as int != next);
            assert(c2[x] == came[x]);
            assert(b2[came[x].unwrap() as int] == best[came[x].unwrap() as int]);
        } else {
            assert(c2[x] == Some(cell));
            assert(b2[cell as int] == best[cell as int]);
        }
    }
    assert forall|x: int| 0 <= x < n && !settled[x] && #[trigger] b2[x] is Some implies e2[x] == held(
        b2[x].unwrap() + hint[x],
    ) by {
        if x != next {
            assert(best[x] is Some);
        }
    }
}

proof fn lemma_relax_hurried(
    l: Lattice,
    softness: u32,
    start: int,
    best: Seq<Option<u64>>,
    settled: Seq<bool>,
    hint: Seq<u64>,
    next: int,
    cand: u64,
)
    requires
        search_hurried(l, softness, start, best, settled, hint),
        best.len() == settled.len(),
        0 <= next < settled.len(),
        !settled[next],
    ensures
        search_hurried(l, softness, start, best.update(next, Some(cand)), settled, hint),
{
    reveal(search_hurried);
    let b2 = best.update(next, Some(cand));
    assert forall|cs: Seq<int>|
        #[trigger] is_chain(l, cs) && cs[0] == start && 0 <= cs.last() < settled.len() && settled[cs.last()] implies (5
            * b2[cs.last()].unwrap() <= hurried_bound(l, softness, cs) || hurried_bound(l, softness, cs) + 5
            * hint[cs.last()] >= 5 * u64::MAX) by {
        assert(cs.last() != next);
        assert(b2[cs.last()] == best[cs.last()]);
    }
}

proof fn lemma_relax_offers(
    l: Lattice,
    softness: u32,
    best: Seq<Option<u64>>,
    settled: Seq<bool>,
    cell: int,
    k: int,
    next: int,
    cand: u64,
)
    requires
        offered_but(l, softness, best, settled, cell, k),
        l.wf(),
        settled.len() == l.side() * l.side(),
        best.len() == settled.len(),
        0 <= next < settled.len(),
        !settled[next],
        best[next] is None || cand < best[next].unwrap(),
    ensures
        offered_but(l, softness, best.update(next, Some(cand)), settled, cell, k),
{
    reveal(offered_but);
    let b2 = best.update(next, Some(cand));
    assert forall|c: int, j: int|
        0 <= c < settled.len() && settled[c] && 0 <= j < 9 && (c != cell || j < k) implies #[trigger] offered(
        l,
        softness,
        b2,
        settled,
        c,
        j,
    ) by {
        assert(offered(l, softness, best, settled, c, j));
        assert(c != next);
        assert(b2[c] == best[c]);
        let off = offset_cell(l.side(), c, j);
        if off is Some && off.unwrap() == next {
            assert(b2[next] == Some(cand));
        } else if off is Some && l.passable(off.unwrap()) {
            assert(b2[off.unwrap()] == best[off.unwrap()]);
        }
    }
}

/// Once the cell being settled has made its `k`th offer, it has made the
/// first `k + 1`; once it has made all nine, every settled cell has.
proof fn lemma_offer_made(l: Lattice, softness: u32, best: Seq<Option<u64>>, settled: Seq<bool>, cell: int, k: int)
    requires
        offered_but(l, softness, best, settled, cell, k),
        offered(l, softness, best, settled, cell, k),
        0 <= k < 9,
    ensures
        offered_but(l, softness, best, settled, cell, k + 1),
{
    reveal(offered_but);
    assert forall|c: int, j: int|
        0 <= c < settled.len() && settled[c] && 0 <= j < 9 && (c != cell || j < k + 1) implies #[trigger] offered(
        l,
        softness,
        best,
        settled,
        c,
        j,
    ) by {
        if c != cell || j < k {
        }
    }
}

/// Once the cell being settled has made all nine offers, every settled cell
/// has made all of its own.
proof fn lemma_offers_all(l: Lattice, softness: u32, best: Seq<Option<u64>>, settled: Seq<bool>, cell: int)
    requires
        offered_but(l, softness, best, settled, cell, 9),
    ensures
        offered_but(l, softness, best, settled, -1, 0),
{
    reveal(offered_but);
    assert forall|c: int, j: int|
        0 <= c < settled.len() && settled[c] && 0 <= j < 9 && (c != -1 || j < 0) implies #[trigger] offered(
        l,
        softness,
        best,
        settled,
        c,
        j,
    ) by {
        assert(c != cell || j < 9);
    }
}

/// A cell just settled has made no offers yet, and every other settled
/// cell has made all of its own.
proof fn lemma_offers_on_settle(l: Lattice, softness: u32, best: Seq<Option<u64>>, settled: Seq<bool>, cell: int)
    requires
        offered_but(l, softness, best, settled, -1, 0),
        l.wf(),
        settled.len() == l.side() * l.side(),
        0 <= cell < settled.len(),
    ensures
        offered_but(l, softness, best, settled.update(cell, true), cell, 0),
{
    reveal(offered_but);
    let s2 = settled.update(cell, true);
    assert forall|c: int, j: int|
        0 <= c < s2.len() && s2[c] && 0 <= j < 9 && (c != cell || j < 0) implies #[trigger] offered(
        l,
        softness,
        best,
        s2,
        c,
        j,
    ) by {
        assert(settled[c]);
        assert(offered(l, softness, best, settled, c, j));
        let off = offset_cell(l.side(), c, j);
        if off is Some && l.passable(off.unwrap()) {
            assert(s2[off.unwrap()] == settled[off.unwrap()] || off.unwrap() == cell);
        }
    }
}

/// A walk along which each cell's cost is the last one's and the step, held,
/// starting from nothing, ends at its whole cost, held.
proof fn lemma_held_chain(l: Lattice, softness: u32, best: Seq<Option<u64>>, cs: Seq<int>)
    requires
        l.wf(),
        cs.len() >= 1,
        forall|i: int| 0 <= i < cs.len() ==> #[trigger] l.passable(cs[i]),
        forall|i: int| 0 <= i < cs.len() ==> 0 <= #[trigger] cs[i] < best.len() && best[cs[i]] is Some,
        best[cs[0]] == Some(0u64),
        forall|i: int|
            0 <= i < cs.len() - 1 ==> #[trigger] best[cs[i + 1]].unwrap() == held(
                best[cs[i]].unwrap() + step_cost(l, softness, cs[i], cs[i + 1]),
            ),
    ensures
        best[cs.last()].unwrap() == held(chain_cost(l, softness, cs)),
    decreases cs.len(),
{
    if cs.len() >= 2 {
        let front = cs.drop_last();
        assert forall|i: int| 0 <= i < front.len() implies #[trigger] l.passable(front[i]) by {
            assert(front[i] == cs[i]);
        }
        assert forall|i: int| 0 <= i < front.len() implies 0 <= #[trigger] front[i] < best.len() && best[front[i]] is Some by {
            assert(front[i] == cs[i]);
        }
        assert forall|i: int| 0 <= i < front.len() - 1 implies #[trigger] best[front[i + 1]].unwrap() == held(
            best[front[i]].unwrap() + step_cost(l, softness, front[i], front[i + 1]),
        ) by {
            assert(front[i] == cs[i] && front[i + 1] == cs[i + 1]);
        }
        lemma_held_chain(l, softness, best, front);
        lemma_chain_cost_nonneg(l, softness, front);
        let n = cs.len() as int;
        let i = n - 2;
        assert(best[cs[i + 1]].unwrap() == held(best[cs[i]].unwrap() + step_cost(l, softness, cs[i], cs[i + 1])));
        assert(cs[i + 1] == cs[n - 1]);
        let uv = seq![cs[n - 2], cs[n - 1]];
        assert(l.passable(cs[n - 2]) && l.passable(cs[n - 1]));
        assert forall|k: int| 0 <= k < 2 implies #[trigger] l.passable(uv[k]) by {}
        lemma_chain_cost_nonneg(l, softness, uv);
        assert(chain_cost(l, softness, uv) == step_cost(l, softness, cs[n - 2], cs[n - 1])) by {
            assert(uv.drop_last() =~= seq![cs[n - 2]]);
            assert(chain_cost(l, softness, seq![cs[n - 2]]) == 0);
        }
        assert(front.last() == cs[n - 2]);
    }
}

/// What the search hands back once it has settled the goal: the walk it
/// traced back costs what the goal cost it, and that keeps to the hurried
/// allowance of every walk between the same cells.
proof fn lemma_search_answer(
    l: Lattice,
    softness: u32,
    start: int,
    goal: int,
    best: Seq<Option<u64>>,
    settled: Seq<bool>,
    hint: Seq<u64>,
    estimate: Seq<u64>,
    came: Seq<Option<usize>>,
    rank: Seq<int>,
    clock: int,
    b: Seq<int>,
    f: Seq<int>,
    cost: u64,
)
    requires
        l.wf(),
        search_inv(l, start, best, came, settled, rank, clock),
        search_costs(l, softness, start, goal, best, came, settled, estimate, hint),
        search_hurried(l, softness, start, best, settled, hint),
        0 <= goal < l.side() * l.side(),
        settled[goal],
        best[goal] == Some(cost),
        is_chain(l, f),
        forall|i: int| 0 <= i < f.len() ==> #[trigger] settled[f[i]],
        f.len() == b.len(),
        forall|i: int| 0 <= i < f.len() ==> #[trigger] f[i] == b[b.len() - 1 - i],
        forall|k: int|
            0 <= k < b.len() - 1 ==> #[trigger] best[b[k]].unwrap() == held(
                best[b[k + 1]].unwrap() + step_cost(l, softness, b[k + 1], b[k]),
            ),
        f[0] == start,
        f.last() == goal,
    ensures
        cost == held(chain_cost(l, softness, f)),
        forall|w: Seq<int>|
            #[trigger] is_chain(l, w) && w[0] == start && w.last() == goal ==> 5 * cost <= hurried_bound(l, softness, w),
{
    assert forall|i: int| 0 <= i < f.len() implies 0 <= #[trigger] f[i] < best.len() && best[f[i]] is Some by {
        assert(l.passable(f[i]));
        assert(settled[f[i]]);
    }
    assert forall|i: int| 0 <= i < f.len() - 1 implies #[trigger] best[f[i + 1]].unwrap() == held(
        best[f[i]].unwrap() + step_cost(l, softness, f[i], f[i + 1]),
    ) by {
        let k = b.len() - 2 - i;
        assert(f[i] == b[k + 1]);
        assert(f[i + 1] == b[k]);
    }
    assert(best[start] == Some(0u64));
    lemma_held_chain(l, softness, best, f);
    reveal(search_hurried);
    reveal(search_costs);
    assert(hint[goal] == hurry_hint(l, goal, goal));
    lemma_distance_self(centre(l.side(), l.size(), goal));
    assert forall|w: Seq<int>| #[trigger] is_chain(l, w) && w[0] == start && w.last() == goal implies 5 * cost
        <= hurried_bound(l, softness, w) by {
        assert(settled[w.last()]);
    }
}

/// How hard the search is pushed towards the goal, in fifths: the remaining
/// straight distance is counted at eight fifths of itself. A weighted search
/// finds a way round a bog far sooner, and a lorry taking a slightly wider
/// line round one is not a thing anybody can see.
pub const HURRY_FIFTHS: u64 = 8;

/// What the search knows at every step: where it has been, how it got there,
/// and in what order it settled each cell.
pub open spec fn search_inv(
    l: Lattice,
    start: int,
    best: Seq<Option<u64>>,
    came: Seq<Option<usize>>,
    settled: Seq<bool>,
    rank: Seq<int>,
    clock: int,
) -> bool {
    let n = l.side() * l.side();
    &&& best.len() == n
    &&& came.len() == n
    &&& settled.len() == n
    &&& rank.len() == n
    &&& 0 <= clock
    &&& 0 <= start < n
    &&& best[start] == Some(0u64)
    &&& came[start] is None
    &&& forall|c: int| 0 <= c < n && #[trigger] settled[c] ==> best[c] is Some && 0 <= rank[c] < clock
    &&& forall|c: int| 0 <= c < n && #[trigger] best[c] is Some ==> l.passable(c)
    &&& forall|c: int|
        0 <= c < n && c != start && #[trigger] best[c] is Some ==> {
            &&& came[c] is Some
            &&& came[c].unwrap() < n
            &&& settled[came[c].unwrap() as int]
            &&& adjacent(l.side(), came[c].unwrap() as int, c)
            &&& settled[c] ==> rank[came[c].unwrap() as int] < rank[c]
        }
}

/// Every settled cell has offered itself to each of its crossable neighbours.
pub open spec fn closed_up(l: Lattice, best: Seq<Option<u64>>, settled: Seq<bool>) -> bool {
    forall|c: int, j: int|
        0 <= c < settled.len() && settled[c] && 0 <= j < 9 && #[trigger] offset_cell(l.side(), c, j) is Some && l.passable(
            offset_cell(l.side(), c, j).unwrap(),
        ) ==> settled[offset_cell(l.side(), c, j).unwrap()] || best[offset_cell(l.side(), c, j).unwrap()] is Some
}

/// Settling a cell the search has reached keeps everything it knows true.
proof fn lemma_settle_keeps_inv(
    l: Lattice,
    start: int,
    best: Seq<Option<u64>>,
    came: Seq<Option<usize>>,
    settled: Seq<bool>,
    rank: Seq<int>,
    clock: int,
    cell: int,
)
    requires
        search_inv(l, start, best, came, settled, rank, clock),
        0 <= cell < settled.len(),
        !settled[cell],
        best[cell] is Some,
    ensures
        search_inv(l, start, best, came, settled.update(cell, true), rank.update(cell, clock), clock + 1),
{
    let n = l.side() * l.side();
    let s2 = settled.update(cell, true);
    let r2 = rank.update(cell, clock);
    assert forall|c: int| 0 <= c < n && #[trigger] s2[c] implies best[c] is Some && 0 <= r2[c] < clock + 1 by {
        if c != cell {
            assert(settled[c]);
        }
    }
    assert forall|c: int| 0 <= c < n && c != start && #[trigger] best[c] is Some implies {
        &&& came[c] is Some
        &&& came[c].unwrap() < n
        &&& s2[came[c].unwrap() as int]
        &&& adjacent(l.side(), came[c].unwrap() as int, c)
        &&& s2[c] ==> r2[came[c].unwrap() as int] < r2[c]
    } by {
        let p = came[c].unwrap() as int;
        assert(settled[p]);
        assert(p != cell);
        assert(0 <= rank[p] < clock);
        if c != cell && s2[c] {
            assert(settled[c]);
        }
    }
}

/// The unsettled cell with the lowest estimate, the lower index winning a
/// tie; `None` when nothing is left to look at.
fn pick(best: &Vec<Option<u64>>, settled: &Vec<bool>, estimate: &Vec<u64>) -> (r: Option<usize>)
    requires
        best@.len() == settled@.len(),
        estimate@.len() == settled@.len(),
    ensures
        match r {
            Some(c) => c < settled@.len() && !settled@[c as int] && best@[c as int] is Some && forall|d: int|
                0 <= d < settled@.len() && !settled@[d] && best@[d] is Some ==> estimate@[c as int] <= #[trigger] estimate@[d],
            None => forall|c: int| 0 <= c < settled@.len() ==> #[trigger] settled@[c] || best@[c] is None,
        },
{
    let mut found: Option<usize> = None;
    let mut i: usize = 0;
    while i < settled.len()
        invariant
            best@.len() == settled@.len(),
            estimate@.len() == settled@.len(),
            i <= settled@.len(),
            match found {
                Some(c) => c < i && !settled@[c as int] && best@[c as int] is Some && forall|d: int|
                    0 <= d < i && !settled@[d] && best@[d] is Some ==> estimate@[c as int] <= #[trigger] estimate@[d],
                None => forall|c: int| 0 <= c < i ==> #[trigger] settled@[c] || best@[c] is None,
            },
        decreases settled@.len() - i,
    {
        if !settled[i] && best[i].is_some() {
            match found {
                Some(c) => {
                    if estimate[i] < estimate[c] {
                        found = Some(i);
                    }
                },
                None => {
                    found = Some(i);
                },
            }
        }
        i = i + 1;
    }
    found
}

impl<'a> Crossing<'a> {
    /// A walk of crossable cells from `start` to `goal`, found by a search
    /// costed in metres times drag and pushed towards the goal, with its cost;
    /// `None` exactly when no walk joins them.
    #[verifier::spinoff_prover]
    #[verifier::rlimit(100)]
    fn search(&self, start: usize, goal: usize) -> (r: Option<(u64, Vec<usize>)>)
        requires
            self.wf(),
            start < self.lattice.surfaces().len(),
            goal < self.lattice.surfaces().len(),
            self.lattice.passable(start as int),
        ensures
            match r {
                Some((cost, cells)) => {
                    &&& is_chain(*self.lattice, cells@.map_values(|c: usize| c as int))
                    &&& cells@[0] == start
                    &&& cells@.last() == goal
                    &&& cost == held(chain_cost(*self.lattice, self.softness, cells@.map_values(|c: usize| c as int)))
                    &&& forall|w: Seq<int>|
                        #[trigger] is_chain(*self.lattice, w) && w[0] == start && w.last() == goal ==> 5 * cost
                            <= hurried_bound(*self.lattice, self.softness, w)
                },
                None => !joined(*self.lattice, start as int, goal as int),
            },
    {
        let l = self.lattice;
        let side = l.cells as usize;
        let total = l.surface.len();
        let goal_at = l.centre_of(goal);
        let mut hint: Vec<u64> = Vec::new();
        let mut best: Vec<Option<u64>> = Vec::new();
        let mut came: Vec<Option<usize>> = Vec::new();
        let mut settled: Vec<bool> = Vec::new();
        let mut i: usize = 0;
        while i < total
            invariant
                l.wf(),
                total == l.surfaces().len(),
                i <= total,
                hint@.len() == i,
                best@.len() == i,
                came@.len() == i,
                settled@.len() == i,
                forall|c: int| 0 <= c < i ==> #[trigger] best@[c] is None && came@[c] is None && !settled@[c],
                goal < total,
                goal_at == centre(l.side(), l.size(), goal as int),
                forall|c: int| 0 <= c < i ==> #[trigger] hint@[c] == hurry_hint(*l, goal as int, c),
            decreases total - i,
        {
            let d = l.centre_of(i).distance_to(goal_at).0 as u128;
            let h = d * 1000 * HURRY_FIFTHS as u128 / 5;
            assert(h == d * 1600) by (nonlinear_arith)
                requires
                    h == d * 1000 * 8 / 5,
                    d >= 0,
            ;
            hint.push(if h > u64::MAX as u128 { u64::MAX } else { h as u64 });
            assert(hint@[i as int] == hurry_hint(*l, goal as int, i as int));
            best.push(None);
            came.push(None);
            settled.push(false);
            i = i + 1;
        }
        let ghost before = best@;
        best.set(start, Some(0));
        let mut estimate: Vec<u64> = hint.clone();
        proof {
            assert forall|c: int| 0 <= c < total implies #[trigger] estimate@[c] == hint@[c] by {
                assert(cloned::<u64>(hint@[c], estimate@[c]));
            }
        }
        let ghost mut rank: Seq<int> = Seq::new(total as nat, |c: int| 0int);
        let ghost mut clock: int = 0;
        proof {
            assert forall|c: int| 0 <= c < total implies !(#[trigger] settled@[c]) && came@[c] is None && (c != start ==> best@[c] is None) by {
                assert(before[c] is None);
            }
            assert(best@.len() == total && came@.len() == total && settled@.len() == total && rank.len() == total);
            assert(best@[start as int] == Some(0u64));
            assert(before[start as int] is None);
            assert(came@[start as int] is None);
            assert forall|c: int| 0 <= c < total && #[trigger] best@[c] is Some implies l.passable(c) by {
                if c != start {
                    assert(best@[c] is None);
                }
            }
            assert(search_inv(*l, start as int, best@, came@, settled@, rank, clock));
            assert(closed_up(*l, best@, settled@));
            assert(search_costs(*l, self.softness, start as int, goal as int, best@, came@, settled@, estimate@, hint@)) by {
                reveal(search_costs);
            }
            assert(offered_but(*l, self.softness, best@, settled@, -1, 0)) by {
                reveal(offered_but);
            }
            assert(search_hurried(*l, self.softness, start as int, best@, settled@, hint@)) by {
                reveal(search_hurried);
            }
        }
        loop
            invariant_except_break
                self.wf(),
                l == self.lattice,
                side == l.side(),
                total == side * side,
                total == l.surfaces().len(),
                start < total,
                goal < total,
                hint@.len() == total,
                estimate@.len() == total,
                search_inv(*l, start as int, best@, came@, settled@, rank, clock),
                closed_up(*l, best@, settled@),
                !settled@[goal as int],
                search_costs(*l, self.softness, start as int, goal as int, best@, came@, settled@, estimate@, hint@),
                offered_but(*l, self.softness, best@, settled@, -1, 0),
                search_hurried(*l, self.softness, start as int, best@, settled@, hint@),
            ensures
                search_inv(*l, start as int, best@, came@, settled@, rank, clock),
                search_costs(*l, self.softness, start as int, goal as int, best@, came@, settled@, estimate@, hint@),
                search_hurried(*l, self.softness, start as int, best@, settled@, hint@),
                settled@[goal as int] || (closed_up(*l, best@, settled@) && forall|c: int|
                    0 <= c < settled@.len() ==> #[trigger] settled@[c] || best@[c] is None),
            decreases unsettled(settled@),
        {
            let cell = match pick(&best, &settled, &estimate) {
                Some(c) => c,
                None => {
                    break;
                },
            };
            let cost = match best[cell] {
                Some(v) => v,
                None => 0,
            };
            proof {
                lemma_settle_one(settled@, cell as int);
                lemma_settle_keeps_inv(*l, start as int, best@, came@, settled@, rank, clock, cell as int);
                lemma_settle_hurried(*l, self.softness, start as int, goal as int, best@, came@, settled@, estimate@, hint@, rank, clock, cell as int);
            }
            let ghost settled_before = settled@;
            settled.set(cell, true);
            proof {
                rank = rank.update(cell as int, clock);
                clock = clock + 1;
                assert(settled@ == settled_before.update(cell as int, true));
                assert(settled@[start as int]) by {
                    if cell != start {
                        reveal(search_costs);
                        assert(settled_before[start as int]);
                    }
                }
                assert(search_costs(*l, self.softness, start as int, goal as int, best@, came@, settled@, estimate@, hint@)) by {
                    reveal(search_costs);
                }
                assert(search_hurried(*l, self.softness, start as int, best@, settled@, hint@)) by {
                    reveal(search_hurried);
                    assert forall|cs: Seq<int>|
                        #[trigger] is_chain(*l, cs) && cs[0] == start && 0 <= cs.last() < settled@.len() && settled@[cs.last()] implies (5
                            * best@[cs.last()].unwrap() <= hurried_bound(*l, self.softness, cs) || hurried_bound(*l, self.softness, cs) + 5
                            * hint@[cs.last()] >= 5 * u64::MAX) by {
                        if cs.last() != cell {
                            assert(settled_before[cs.last()]);
                        }
                    }
                }
                lemma_offers_on_settle(*l, self.softness, best@, settled_before, cell as int);
            }
            if cell == goal {
                break;
            }
            let here = l.centre_of(cell);
            let ux = cell % side;
            let uy = cell / side;
            assert(uy <= cell) by (nonlinear_arith)
                requires
                    uy == (cell as int) / (side as int),
                    side >= 1,
            ;
            let cx = ux as i64;
            let cy = uy as i64;
            let sd = side as i64;
            assert(sd * sd <= 0x1_0000_0000) by (nonlinear_arith)
                requires
                    1 <= sd <= 0x1_0000,
            ;
            assert(cy < sd) by (nonlinear_arith)
                requires
                    cell < sd * sd,
                    cy == (cell as int) / (sd as int),
                    sd > 0,
            ;
            let mut k: i64 = 0;
            while k < 9
                invariant
                    self.wf(),
                    l == self.lattice,
                    side == l.side(),
                    sd == side,
                    1 <= sd <= MAX_CELLS,
                    sd * sd <= 0x1_0000_0000,
                    total == side * side,
                    total == l.surfaces().len(),
                    cell < total,
                    cx == (cell as int) % (sd as int),
                    cy == (cell as int) / (sd as int),
                    0 <= cx < sd,
                    0 <= cy < sd,
                    best@[cell as int] == Some(cost),
                    here == centre(l.side(), l.size(), cell as int),
                    settled@[cell as int],
                    start < total,
                    goal < total,
                    cell != goal,
                    !settled@[goal as int],
                    hint@.len() == total,
                    estimate@.len() == total,
                    0 <= k <= 9,
                    search_inv(*l, start as int, best@, came@, settled@, rank, clock),
                    search_costs(*l, self.softness, start as int, goal as int, best@, came@, settled@, estimate@, hint@),
                    search_hurried(*l, self.softness, start as int, best@, settled@, hint@),
                    offered_but(*l, self.softness, best@, settled@, cell as int, k as int),
                    settled@[start as int],
                    forall|c: int, j: int|
                        0 <= c < settled@.len() && settled@[c] && c != cell && 0 <= j < 9
                            && #[trigger] offset_cell(l.side(), c, j) is Some && l.passable(offset_cell(l.side(), c, j).unwrap())
                            ==> settled@[offset_cell(l.side(), c, j).unwrap()] || best@[offset_cell(l.side(), c, j).unwrap()] is Some,
                    forall|j: int|
                        0 <= j < k && #[trigger] offset_cell(l.side(), cell as int, j) is Some && l.passable(
                            offset_cell(l.side(), cell as int, j).unwrap(),
                        ) ==> settled@[offset_cell(l.side(), cell as int, j).unwrap()]
                            || best@[offset_cell(l.side(), cell as int, j).unwrap()] is Some,
                decreases 9 - k,
            {
                let nx = cx + k % 3 - 1;
                let ny = cy + k / 3 - 1;
                if k != 4 && nx >= 0 && ny >= 0 && nx < sd && ny < sd {
                    assert(ny * sd + nx < sd * sd) by (nonlinear_arith)
                        requires
                            0 <= nx < sd,
                            0 <= ny < sd,
                    ;
                    assert(ny * sd <= ny * sd + nx);
                    assert(ny * sd + nx < total);
                    let next = (ny * sd + nx) as usize;
                    assert(offset_cell(l.side(), cell as int, k as int) == Some(next as int));
                    proof {
                        lemma_offset_adjacent(l.side(), cell as int, k as int);
                    }
                    if !settled[next] {
                        match self.drag_in(next) {
                            Some(drag) => {
                                let there = l.centre_of(next);
                                let apart = here.distance_to(there).0 as u128;
                                assert(apart * drag <= 0x8000_0000_0000_0000 * 3000) by (nonlinear_arith)
                                    requires
                                        apart <= 0x8000_0000_0000_0000,
                                        drag <= 3000,
                                ;
                                let step = apart * drag as u128;
                                let sum = cost as u128 + step;
                                let candidate: u64 = if sum > u64::MAX as u128 {
                                    u64::MAX
                                } else {
                                    sum as u64
                                };
                                let better = match best[next] {
                                    Some(b) => candidate < b,
                                    None => true,
                                };
                                assert(drag == cell_drag(*l, self.softness, next as int));
                                assert(step == step_cost(*l, self.softness, cell as int, next as int));
                                assert(candidate == held(cost + step_cost(*l, self.softness, cell as int, next as int)));
                                if better {
                                    assert(next != start);
                                    proof {
                                        lemma_relax_keeps(*l, self.softness, start as int, goal as int, best@, came@, settled@, estimate@, hint@, rank, clock, cell, cost, next as int, candidate, k as int);
                                    }
                                    best.set(next, Some(candidate));
                                    came.set(next, Some(cell));
                                    let e = candidate.saturating_add(hint[next]);
                                    estimate.set(next, e);
                                }
                                assert(best@[next as int] is Some && best@[next as int].unwrap() <= candidate);
                            },
                            None => {},
                        }
                    }
                }
                assert(offered(*l, self.softness, best@, settled@, cell as int, k as int));
                proof {
                    lemma_offer_made(*l, self.softness, best@, settled@, cell as int, k as int);
                }
                k = k + 1;
            }
            proof {
                lemma_offers_all(*l, self.softness, best@, settled@, cell as int);
                assert forall|c: int, j: int|
                    0 <= c < settled@.len() && settled@[c] && 0 <= j < 9 && #[trigger] offset_cell(l.side(), c, j) is Some
                        && l.passable(offset_cell(l.side(), c, j).unwrap()) implies settled@[offset_cell(
                        l.side(),
                        c,
                        j,
                    ).unwrap()] || best@[offset_cell(l.side(), c, j).unwrap()] is Some by {
                    if c == cell {
                    }
                }
            }
        }
        if !settled[goal] {
            proof {
                if joined(*l, start as int, goal as int) {
                    let cs = choose|cs: Seq<int>| #[trigger] is_chain(*l, cs) && cs[0] == start as int && cs.last() == goal as int;
                    assert(settled@[start as int]) by {
                        assert(best@[start as int] is Some);
                    }
                    lemma_closed_reaches(*l, settled@, best@, cs, cs.len() - 1);
                }
            }
            return None;
        }
        let (cost, cells) = self.trace_back(start, goal, &best, &came, &settled, Ghost(hint@), Ghost(estimate@), Ghost(rank), Ghost(clock));
        Some((cost, cells))
    }

    /// The walk the search found, traced back from the goal along the cells
    /// each was reached from, and what it cost.
    #[verifier::spinoff_prover]
    #[verifier::rlimit(100)]
    fn trace_back(
        &self,
        start: usize,
        goal: usize,
        best: &Vec<Option<u64>>,
        came: &Vec<Option<usize>>,
        settled: &Vec<bool>,
        Ghost(hint): Ghost<Seq<u64>>,
        Ghost(estimate): Ghost<Seq<u64>>,
        Ghost(rank): Ghost<Seq<int>>,
        Ghost(clock): Ghost<int>,
    ) -> (r: (u64, Vec<usize>))
        requires
            self.wf(),
            start < self.lattice.surfaces().len(),
            goal < self.lattice.surfaces().len(),
            search_inv(*self.lattice, start as int, best@, came@, settled@, rank, clock),
            search_costs(*self.lattice, self.softness, start as int, goal as int, best@, came@, settled@, estimate, hint),
            search_hurried(*self.lattice, self.softness, start as int, best@, settled@, hint),
            settled@[goal as int],
        ensures
            is_chain(*self.lattice, r.1@.map_values(|c: usize| c as int)),
            r.1@[0] == start,
            r.1@.last() == goal,
            r.0 == held(chain_cost(*self.lattice, self.softness, r.1@.map_values(|c: usize| c as int))),
            forall|w: Seq<int>|
                #[trigger] is_chain(*self.lattice, w) && w[0] == start && w.last() == goal ==> 5 * r.0
                    <= hurried_bound(*self.lattice, self.softness, w),
    {
        let l = self.lattice;
        let total = l.surface.len();
        let cost = match best[goal] {
            Some(v) => v,
            None => 0,
        };
        let ghost parent_cost = forall|x: int|
            0 <= x < total && x != start && #[trigger] best@[x] is Some ==> best@[x].unwrap() == held(
                best@[came@[x].unwrap() as int].unwrap() + step_cost(*l, self.softness, came@[x].unwrap() as int, x),
            );
        assert(parent_cost) by {
            reveal(search_costs);
        }
        let mut back: Vec<usize> = Vec::new();
        back.push(goal);
        let mut cursor = goal;
        loop
            invariant_except_break
                parent_cost,
                parent_cost == forall|x: int|
                    0 <= x < total && x != start && #[trigger] best@[x] is Some ==> best@[x].unwrap() == held(
                        best@[came@[x].unwrap() as int].unwrap() + step_cost(*l, self.softness, came@[x].unwrap() as int, x),
                    ),
                forall|k: int|
                    0 <= k < back@.len() - 1 ==> #[trigger] best@[back@[k] as int].unwrap() == held(
                        best@[back@[k + 1] as int].unwrap() + step_cost(*l, self.softness, back@[k + 1] as int, back@[k] as int),
                    ),
                forall|k: int| 0 <= k < back@.len() ==> #[trigger] back@[k] < total && settled@[back@[k] as int],
                l.wf(),
                l == self.lattice,
                total == l.side() * l.side(),
                search_inv(*l, start as int, best@, came@, settled@, rank, clock),
                cursor < total,
                settled@[cursor as int],
                back@.len() >= 1,
                back@[0] == goal,
                back@.last() == cursor,
                is_chain(*l, back@.map_values(|c: usize| c as int)),
            ensures
                cursor == start,
                back@[0] == goal,
                back@.last() == cursor,
                is_chain(*l, back@.map_values(|c: usize| c as int)),
                forall|k: int|
                    0 <= k < back@.len() - 1 ==> #[trigger] best@[back@[k] as int].unwrap() == held(
                        best@[back@[k + 1] as int].unwrap() + step_cost(*l, self.softness, back@[k + 1] as int, back@[k] as int),
                    ),
                forall|k: int| 0 <= k < back@.len() ==> #[trigger] back@[k] < total && settled@[back@[k] as int],
            decreases rank[cursor as int],
        {
            match came[cursor] {
                Some(p) => {
                    let ghost before = back@.map_values(|c: usize| c as int);
                    let ghost raw = back@;
                    back.push(p);
                    proof {
                        assert(cursor != start);
                        assert(best@[cursor as int] is Some);
                        assert forall|k: int|
                            0 <= k < back@.len() - 1 implies #[trigger] best@[back@[k] as int].unwrap() == held(
                                best@[back@[k + 1] as int].unwrap() + step_cost(*l, self.softness, back@[k + 1] as int, back@[k] as int),
                            ) by {
                            if k < raw.len() - 1 {
                                assert(back@[k] == raw[k] && back@[k + 1] == raw[k + 1]);
                            } else {
                                assert(back@[k] == cursor && back@[k + 1] == p);
                            }
                        }
                        assert forall|k: int| 0 <= k < back@.len() implies #[trigger] back@[k] < total && settled@[back@[k] as int] by {
                            if k < raw.len() {
                                assert(back@[k] == raw[k]);
                            }
                        }
                        let after = back@.map_values(|c: usize| c as int);
                        assert(after =~= before.push(p as int));
                        assert(adjacent(l.side(), p as int, cursor as int));
                        assert forall|i: int| 0 <= i < after.len() implies #[trigger] l.passable(after[i]) by {
                            if i < before.len() {
                                assert(after[i] == before[i]);
                            } else {
                                assert(best@[p as int] is Some);
                            }
                        }
                        assert forall|i: int| 0 <= i < after.len() - 1 implies adjacent(l.side(), #[trigger] after[i], after[i + 1]) by {
                            if i < before.len() - 1 {
                                assert(after[i] == before[i] && after[i + 1] == before[i + 1]);
                            } else {
                                assert(after[i] == cursor as int);
                            }
                        }
                    }
                    cursor = p;
                },
                None => {
                    break;
                },
            }
        }
        let mut cells: Vec<usize> = Vec::new();
        let mut j: usize = back.len();
        while j > 0
            invariant
                j <= back@.len(),
                cells@.len() == back@.len() - j,
                forall|i: int| 0 <= i < cells@.len() ==> #[trigger] cells@[i] == back@[back@.len() - 1 - i],
            decreases j,
        {
            j = j - 1;
            cells.push(back[j]);
        }
        proof {
            let b = back@.map_values(|c: usize| c as int);
            let f = cells@.map_values(|c: usize| c as int);
            assert forall|i: int| 0 <= i < f.len() implies #[trigger] l.passable(f[i]) by {
                assert(f[i] == b[b.len() - 1 - i]);
            }
            assert forall|i: int| 0 <= i < f.len() - 1 implies adjacent(l.side(), #[trigger] f[i], f[i + 1]) by {
                assert(f[i] == b[b.len() - 1 - i]);
                assert(f[i + 1] == b[b.len() - 2 - i]);
                assert(adjacent(l.side(), b[b.len() - 2 - i], b[b.len() - 1 - i]));
            }
            assert forall|i: int| 0 <= i < f.len() implies #[trigger] settled@[f[i]] by {
                assert(f[i] == b[b.len() - 1 - i]);
                assert(back@[b.len() - 1 - i] as int == b[b.len() - 1 - i]);
            }
            lemma_search_answer(
                *l,
                self.softness,
                start as int,
                goal as int,
                best@,
                settled@,
                hint,
                estimate,
                came@,
                rank,
                clock,
                b,
                f,
                cost,
            );
        }
        (cost, cells)
    }
}

/// A run whose drag profile exists is clear all the way.
proof fn lemma_profile_is_clear(l: Lattice, softness: u32, from: Point, to: Point, n: int, k: int)
    requires
        drag_profile(l, softness, from, to, n, k) is Some,
    ensures
        forall|j: int| 0 <= j < k ==> #[trigger] drag_at(l, 0, sample(from, to, j, n)) is Some,
    decreases k,
{
    if k > 0 {
        lemma_profile_is_clear(l, softness, from, to, n, k - 1);
        lemma_passable_whatever_the_weather(l, softness, sample(from, to, k - 1, n));
    }
}

/// The two ends of a straight run, as a route.
fn straight(from: Point, to: Point) -> (path: Vec<Point>)
    ensures
        path@ == seq![from, to],
{
    let mut path: Vec<Point> = Vec::new();
    path.push(from);
    path.push(to);
    assert(path@ =~= seq![from, to]);
    path
}

/// A walk of crossable cells between the ends' cells, laid out as waypoints,
/// is a way between the ends.
proof fn lemma_walk_is_a_way(c: Crossing, from: Point, to: Point, start: int, goal: int, cs: Seq<int>, path: Seq<Point>)
    requires
        cell_at(c.lattice.side(), c.lattice.size(), from) == Some(start),
        cell_at(c.lattice.side(), c.lattice.size(), to) == Some(goal),
        c.lattice.passable(start),
        c.lattice.passable(goal),
        cs[0] == start,
        cs.last() == goal,
        follows(*c.lattice, cs, from, to, path),
    ensures
        c.way_between(from, to, Some(path)),
{
}

impl<'a> Crossing<'a> {
    /// What a walk of cells costs today; see [`Crossing::walk_cost`].
    fn cost_of_walk(&self, cells: &Vec<usize>) -> (c: u128)
        requires
            self.wf(),
            is_chain(*self.lattice, as_cells(cells@)),
        ensures
            c == self.walk_cost(as_cells(cells@)),
    {
        let l = self.lattice;
        let ghost cs = as_cells(cells@);
        let mut c: u128 = 0;
        let mut i: usize = 1;
        proof {
            assert(cs.take(1).len() == 1);
        }
        while i < cells.len()
            invariant
                self.wf(),
                l == self.lattice,
                cs == as_cells(cells@),
                is_chain(*l, cs),
                1 <= i <= cells@.len(),
                c == self.walk_cost(cs.take(i as int)),
            decreases cells@.len() - i,
        {
            assert(l.passable(cs[i as int]));
            assert(l.passable(cs[i - 1]));
            let a = l.centre_of(cells[i - 1]);
            let b = l.centre_of(cells[i]);
            let d = a.distance_to(b).0 as u128;
            let g: u128 = match self.drag_in(cells[i]) {
                Some(v) => v as u128,
                None => 0,
            };
            assert(d * g <= 0x8000_0000_0000_0000 * 3000) by (nonlinear_arith)
                requires
                    d <= 0x8000_0000_0000_0000,
                    g <= 3000,
            ;
            let step = d * g;
            c = if c > u128::MAX - step {
                u128::MAX
            } else {
                c + step
            };
            proof {
                let t = cs.take(i + 1);
                assert(t.drop_last() =~= cs.take(i as int));
                assert(t[t.len() - 2] == cs[i - 1]);
                assert(t.last() == cs[i as int]);
            }
            i = i + 1;
        }
        proof {
            assert(cs.take(cells@.len() as int) =~= cs);
        }
        c
    }

    /// A way across country, as waypoints.
    ///
    /// `None` when either end is off the map or on ground nothing crosses, or
    /// when no walk of crossable cells joins them: the honest answer for a
    /// building on the far side of a lake. Otherwise the straight line when
    /// both ends share a cell or the line is clear (it is taken outright on
    /// uniform ground, and whenever it is not materially dearer than the way
    /// round), and else the middles of the cells of a walk of crossable cells
    /// between the ends, found by a search costed in metres times drag and
    /// pushed towards the goal, with ties going to the lower cell. A walk is
    /// only ever taken over a clear straight line that is more than a tenth
    /// dearer than the walk, with a cell's width of drag to spare. Hurrying
    /// the search costs at most eight fifths of the cheapest walk between the
    /// same cells, and a metre's open-ground drag per step of it at the same
    /// rate for the rounding of distances to whole metres.
    pub fn route(&self, from: Point, to: Point) -> (r: Option<Vec<Point>>)
        requires
            self.wf(),
        ensures
            self.way_between(from, to, match r {
                Some(path) => Some(path@),
                None => None,
            }),
            match r {
                Some(way) => way@ != seq![from, to] ==> exists|cs: Seq<int>|
                    #[trigger] follows(*self.lattice, cs, from, to, way@) && (!clear_line(*self.lattice, from, to)
                        || self.dearer_than(from, to, self.walk_cost(cs))) && forall|w: Seq<int>|
                        #[trigger] is_chain(*self.lattice, w) && w[0] == cs[0] && w.last() == cs.last() ==> 5 * held(
                            chain_cost(*self.lattice, self.softness, cs),
                        ) <= hurried_bound(*self.lattice, self.softness, w),
                None => true,
            },
    {
        let l = self.lattice;
        let start = match l.cell_of(from) {
            Some(c) => c,
            None => {
                return None;
            },
        };
        let goal = match l.cell_of(to) {
            Some(c) => c,
            None => {
                return None;
            },
        };
        if self.drag_in(start).is_none() || self.drag_in(goal).is_none() {
            return None;
        }
        if start == goal {
            return Some(straight(from, to));
        }
        // Uniform ground: the straight line is as good as any search could
        // find, so do not run one.
        match self.profile_along(from, to) {
            Some((best, worst, _)) => {
                if worst as u64 * 100 <= best as u64 * 102 {
                    proof {
                        let n = half_cell_pieces(*l, from, to, 256);
                        lemma_profile_is_clear(*l, self.softness, from, to, n, n + 1);
                    }
                    return Some(straight(from, to));
                }
            },
            None => {},
        }
        let (found_cost, cells) = match self.search(start, goal) {
            Some(found) => found,
            None => {
                return None;
            },
        };
        let cost = self.cost_of_walk(&cells);
        // On open ground the answer is "straight": snapping it to cell middles
        // would make a lorry zigzag for nothing, so the direct line wins when
        // it is clear and not materially dearer.
        let apart = from.distance_to(to).0 as u128;
        let drag = self.drag_along(from, to) as u128;
        assert(apart * drag <= 0x8000_0000_0000_0000 * 17_000) by (nonlinear_arith)
            requires
                apart <= 0x8000_0000_0000_0000,
                drag <= 17_000,
        ;
        let direct = apart * drag;
        let slack = l.cell_size.0 as u128 * 1000 * 10;
        let cheap_enough = cost >= 0x1_0000_0000_0000_0000_0000_0000 || direct * 10 <= cost * 11 + slack;
        if self.is_clear(from, to) && cheap_enough {
            return Some(straight(from, to));
        }
        let ghost cs = cells@.map_values(|c: usize| c as int);
        assert(cells@.len() >= 2) by {
            if cells@.len() < 2 {
                assert(cs[0] == cs.last());
            }
        }
        let mut path: Vec<Point> = Vec::new();
        path.push(from);
        let mut i: usize = 1;
        let last = cells.len() - 1;
        while i < last
            invariant
                l.wf(),
                l == self.lattice,
                cs == cells@.map_values(|c: usize| c as int),
                is_chain(*l, cs),
                cells@.len() >= 2,
                last == cells@.len() - 1,
                1 <= i <= cells@.len() - 1,
                path@.len() == i,
                path@[0] == from,
                forall|j: int| 1 <= j < i ==> #[trigger] path@[j] == centre(l.side(), l.size(), cs[j]),
            decreases cells@.len() - i,
        {
            assert(l.passable(cs[i as int]));
            path.push(l.centre_of(cells[i]));
            i = i + 1;
        }
        path.push(to);
        assert(follows(*l, cs, from, to, path@));
        proof {
            lemma_walk_is_a_way(*self, from, to, start as int, goal as int, cs, path@);
        }
        assert(!clear_line(*l, from, to) || self.dearer_than(from, to, self.walk_cost(cs)));
        assert(cs[0] == start as int && cs.last() == goal as int);
        assert(forall|w: Seq<int>|
            #[trigger] is_chain(*l, w) && w[0] == cs[0] && w.last() == cs.last() ==> 5 * held(
                chain_cost(*l, self.softness, cs),
            ) <= hurried_bound(*l, self.softness, w));
        Some(path)
    }
}

/// Cell numbers, as integers.
pub open spec fn as_cells(s: Seq<usize>) -> Seq<int> {
    s.map_values(|c: usize| c as int)
}

/// A cell packed down at least `threshold`.
pub open spec fn worn(l: Lattice, threshold: u32, c: int) -> bool {
    0 <= c < l.wears().len() && l.wears()[c] >= threshold
}

/// A walk of worn cells, each touching the next.
pub open spec fn worn_chain(l: Lattice, threshold: u32, cs: Seq<int>) -> bool {
    &&& cs.len() >= 1
    &&& forall|i: int| 0 <= i < cs.len() ==> #[trigger] worn(l, threshold, cs[i])
    &&& forall|i: int| 0 <= i < cs.len() - 1 ==> adjacent(l.side(), #[trigger] cs[i], cs[i + 1])
}

/// Whether a walk of worn cells joins `a` to `b`.
pub open spec fn worn_joined(l: Lattice, threshold: u32, a: int, b: int) -> bool {
    exists|cs: Seq<int>| #[trigger] worn_chain(l, threshold, cs) && cs[0] == a && cs.last() == b
}

/// A set of worn cells that takes in every worn cell touching one of them.
pub open spec fn closed_run(l: Lattice, threshold: u32, run: Seq<int>) -> bool {
    &&& forall|i: int| 0 <= i < run.len() ==> #[trigger] worn(l, threshold, run[i])
    &&& forall|i: int, d: int|
        0 <= i < run.len() && #[trigger] adjacent(l.side(), run[i], d) && worn(l, threshold, d) ==> run.contains(d)
}

/// Cells nobody has claimed yet.
pub open spec fn unowned(s: Seq<usize>) -> nat
    decreases s.len(),
{
    if s.len() == 0 {
        0
    } else {
        unowned(s.drop_last()) + if s.last() == 0 {
            1nat
        } else {
            0
        }
    }
}

proof fn lemma_claim_one(s: Seq<usize>, i: int, v: usize)
    requires
        0 <= i < s.len(),
        s[i] == 0,
        v != 0,
    ensures
        unowned(s.update(i, v)) + 1 == unowned(s),
    decreases s.len(),
{
    let t = s.update(i, v);
    if i == s.len() - 1 {
        assert(t.drop_last() =~= s.drop_last());
    } else {
        lemma_claim_one(s.drop_last(), i, v);
        assert(t.drop_last() =~= s.drop_last().update(i, v));
    }
}

/// A walk back is a walk.
proof fn lemma_chain_reversed(l: Lattice, threshold: u32, cs: Seq<int>)
    requires
        worn_chain(l, threshold, cs),
    ensures
        worn_chain(l, threshold, cs.reverse()),
{
    let r = cs.reverse();
    assert forall|i: int| 0 <= i < r.len() implies #[trigger] worn(l, threshold, r[i]) by {
        assert(r[i] == cs[cs.len() - 1 - i]);
    }
    assert forall|i: int| 0 <= i < r.len() - 1 implies adjacent(l.side(), #[trigger] r[i], r[i + 1]) by {
        assert(r[i] == cs[cs.len() - 1 - i]);
        assert(r[i + 1] == cs[cs.len() - 2 - i]);
        assert(adjacent(l.side(), cs[cs.len() - 2 - i], cs[cs.len() - 1 - i]));
    }
}

/// Two walks out of one cell join their far ends.
proof fn lemma_joined_through(l: Lattice, threshold: u32, p: Seq<int>, q: Seq<int>)
    requires
        worn_chain(l, threshold, p),
        worn_chain(l, threshold, q),
        p[0] == q[0],
    ensures
        worn_joined(l, threshold, p.last(), q.last()),
{
    lemma_chain_reversed(l, threshold, p);
    let back = p.reverse();
    let w = back + q.drop_first();
    assert forall|i: int| 0 <= i < w.len() implies #[trigger] worn(l, threshold, w[i]) by {
        if i < back.len() {
            assert(w[i] == back[i]);
        } else {
            assert(w[i] == q[i - back.len() + 1]);
        }
    }
    assert forall|i: int| 0 <= i < w.len() - 1 implies adjacent(l.side(), #[trigger] w[i], w[i + 1]) by {
        if i < back.len() - 1 {
            assert(w[i] == back[i] && w[i + 1] == back[i + 1]);
        } else if i == back.len() - 1 {
            assert(w[i] == back[back.len() - 1]);
            assert(back[back.len() - 1] == p[0]);
            assert(w[i + 1] == q[1]);
            assert(adjacent(l.side(), q[0], q[1]));
        } else {
            assert(w[i] == q[i - back.len() + 1] && w[i + 1] == q[i - back.len() + 2]);
        }
    }
    assert(w[0] == back[0]);
    assert(back[0] == p.last());
    if q.len() == 1 {
        assert(w =~= back);
        assert(w.last() == back.last());
        assert(back.last() == p[0]);
    } else {
        assert(w.last() == q.last());
    }
    assert(worn_chain(l, threshold, w));
}

/// Every offset that lands on the lattice is among a cell's neighbours.
proof fn lemma_offset_listed(side: int, index: int, k: int, upto: int)
    requires
        0 <= k < upto <= 9,
        offset_cell(side, index, k) is Some,
    ensures
        neighbours_upto(side, index, upto).contains(offset_cell(side, index, k).unwrap()),
    decreases upto,
{
    let d = offset_cell(side, index, k).unwrap();
    if k == upto - 1 {
        let before = neighbours_upto(side, index, upto - 1);
        assert(neighbours_upto(side, index, upto) == before.push(d));
        assert(before.push(d)[before.len() as int] == d);
    } else {
        lemma_offset_listed(side, index, k, upto - 1);
        let before = neighbours_upto(side, index, upto - 1);
        let i = choose|i: int| 0 <= i < before.len() && before[i] == d;
        match offset_cell(side, index, upto - 1) {
            Some(e) => {
                assert(before.push(e)[i] == d);
            },
            None => {},
        }
    }
}

/// Every cell in a neighbour list is one of the offsets, so it touches the
/// cell the list is for.
proof fn lemma_listed_adjacent(side: int, index: int, upto: int, i: int)
    requires
        side >= 1,
        0 <= index < side * side,
        0 <= upto <= 9,
        0 <= i < neighbours_upto(side, index, upto).len(),
    ensures
        adjacent(side, index, neighbours_upto(side, index, upto)[i]),
    decreases upto,
{
    let before = neighbours_upto(side, index, upto - 1);
    if i < before.len() {
        lemma_listed_adjacent(side, index, upto - 1, i);
        match offset_cell(side, index, upto - 1) {
            Some(e) => {
                assert(before.push(e)[i] == before[i]);
            },
            None => {},
        }
    } else {
        lemma_offset_adjacent(side, index, upto - 1);
    }
}

/// Two lists without repeats holding the same cells are as long as each other.
proof fn lemma_same_cells_same_length(a: Seq<int>, b: Seq<int>)
    requires
        a.no_duplicates(),
        b.no_duplicates(),
        forall|c: int| a.contains(c) <==> b.contains(c),
    ensures
        a.len() == b.len(),
{
    a.unique_seq_to_set();
    b.unique_seq_to_set();
    assert(a.to_set() =~= b.to_set());
}

/// Cells from a lattice of `n`, without repeats and missing one, number
/// fewer than `n`.
proof fn lemma_same_cells_bounded(s: Seq<int>, n: int, missing: int)
    requires
        s.no_duplicates(),
        forall|i: int| 0 <= i < s.len() ==> 0 <= #[trigger] s[i] < n,
        0 <= missing < n,
        !s.contains(missing),
    ensures
        s.len() < n,
{
    s.unique_seq_to_set();
    let range = vstd::set_lib::set_int_range(0, n);
    vstd::set_lib::lemma_int_range(0, n);
    assert(s.to_set().subset_of(range.remove(missing))) by {
        assert forall|x: int| s.to_set().contains(x) implies range.remove(missing).contains(x) by {
            let i = choose|i: int| 0 <= i < s.len() && s[i] == x;
        }
    }
    vstd::set_lib::lemma_len_subset(s.to_set(), range.remove(missing));
}

/// Taking the last of a list without repeats leaves exactly the others.
proof fn lemma_pop_contains(s: Seq<usize>, x: usize)
    requires
        s.no_duplicates(),
        s.len() >= 1,
    ensures
        s.subrange(0, s.len() - 1).contains(x) <==> (s.contains(x) && x != s.last()),
{
    let t = s.subrange(0, s.len() - 1);
    if t.contains(x) {
        let i = choose|i: int| 0 <= i < t.len() && t[i] == x;
        assert(s[i] == x);
        assert(i != s.len() - 1);
    }
    if s.contains(x) && x != s.last() {
        let i = choose|i: int| 0 <= i < s.len() && s[i] == x;
        assert(t[i] == x);
    }
}

/// A run carried over into a list of cell numbers keeps being closed.
proof fn lemma_closed_transfers(l: Lattice, threshold: u32, run: Seq<usize>, cells: Seq<int>)
    requires
        closed_run(l, threshold, cells),
        forall|c: usize| #[trigger] run.contains(c) <==> cells.contains(c as int),
        forall|i: int| 0 <= i < cells.len() ==> 0 <= #[trigger] cells[i] <= usize::MAX,
    ensures
        closed_run(l, threshold, as_cells(run)),
{
    let m = as_cells(run);
    assert forall|i: int| 0 <= i < m.len() implies #[trigger] worn(l, threshold, m[i]) by {
        assert(run.contains(run[i]));
        let j = choose|j: int| 0 <= j < cells.len() && cells[j] == run[i] as int;
    }
    assert forall|i: int, d: int| 0 <= i < m.len() && #[trigger] adjacent(l.side(), m[i], d) && worn(l, threshold, d) implies m.contains(d) by {
        assert(run.contains(run[i]));
        let j = choose|j: int| 0 <= j < cells.len() && cells[j] == run[i] as int;
        assert(cells.contains(d));
        let k = choose|k: int| 0 <= k < cells.len() && cells[k] == d;
        assert(0 <= d <= usize::MAX);
        assert(cells.contains((d as usize) as int));
        assert(run.contains(d as usize));
        let a = choose|a: int| 0 <= a < run.len() && run[a] == d as usize;
        assert(m[a] == d);
    }
}

impl Lattice {
    /// Connected runs of cells worn at least `threshold`, each in index order,
    /// so the answer is reproducible.
    ///
    /// A run is everything worn that a walk over worn cells can reach from any
    /// of its cells. Runs shorter than [`MIN_TRACK_CELLS`] are left out: a
    /// couple of worn squares outside a loading bay is a yard, not a road.
    #[verifier::spinoff_prover]
    #[verifier::rlimit(100)]
    pub fn tracks_beyond(&self, threshold: u32) -> (r: Vec<Vec<usize>>)
        requires
            self.wf(),
        ensures
            forall|i: int| 0 <= i < r@.len() ==> #[trigger] r@[i]@.len() >= MIN_TRACK_CELLS,
            forall|i: int, a: int, b: int| 0 <= i < r@.len() && 0 <= a < b < r@[i]@.len() ==> #[trigger] r@[i]@[a] < #[trigger] r@[i]@[b],
            forall|i: int| 0 <= i < r@.len() ==> closed_run(*self, threshold, as_cells(#[trigger] r@[i]@)),
            forall|i: int, a: int, b: int|
                0 <= i < r@.len() && 0 <= a < r@[i]@.len() && 0 <= b < r@[i]@.len() ==> worn_joined(
                    *self,
                    threshold,
                    #[trigger] r@[i]@[a] as int,
                    #[trigger] r@[i]@[b] as int,
                ),
            forall|i: int, j: int, c: usize| 0 <= i < j < r@.len() && #[trigger] r@[i]@.contains(c) ==> !#[trigger] r@[j]@.contains(c),
            forall|c: int|
                #[trigger] worn(*self, threshold, c) ==> (exists|i: int| 0 <= i < r@.len() && #[trigger] r@[i]@.contains(c as usize)) || (exists|s: Seq<int>|
                    #[trigger] closed_run(*self, threshold, s) && s.contains(c) && s.len() < MIN_TRACK_CELLS),
    {
        let worn_cells = self.worn_beyond(threshold);
        let n = self.wear.len();
        let side = self.cells as usize;
        let mut owner: Vec<usize> = Vec::new();
        let mut i: usize = 0;
        while i < n
            invariant
                n == self.wears().len(),
                i <= n,
                owner@.len() == i,
                forall|c: int| 0 <= c < i ==> #[trigger] owner@[c] == 0,
            decreases n - i,
        {
            owner.push(0);
            i = i + 1;
        }
        let mut runs: Vec<Vec<usize>> = Vec::new();
        let mut floods: usize = 0;
        let ghost mut found: Seq<Seq<int>> = Seq::empty();
        let ghost mut emitted: Seq<int> = Seq::empty();
        let mut w: usize = 0;
        while w < worn_cells.len()
            invariant
                self.wf(),
                n == self.wears().len(),
                n == self.side() * self.side(),
                side == self.side(),
                owner@.len() == n,
                floods == found.len(),
                floods <= w,
                w <= worn_cells@.len(),
                forall|a: int| 0 <= a < worn_cells@.len() ==> #[trigger] worn_cells@[a] < n && worn(*self, threshold, worn_cells@[a] as int),
                forall|c: int| 0 <= c < n && worn(*self, threshold, c) ==> #[trigger] worn_cells@.contains(c as usize),
                forall|a: int| 0 <= a < w ==> owner@[#[trigger] worn_cells@[a] as int] != 0,
                forall|c: int| 0 <= c < n ==> #[trigger] owner@[c] <= floods,
                forall|c: int| 0 <= c < n && #[trigger] owner@[c] != 0 ==> worn(*self, threshold, c),
                forall|f: int| 0 <= f < found.len() ==> closed_run(*self, threshold, #[trigger] found[f]),
                forall|f: int| 0 <= f < found.len() ==> (#[trigger] found[f]).no_duplicates(),
                forall|f: int, c: int| 0 <= f < found.len() && #[trigger] found[f].contains(c) ==> 0 <= c < n && owner@[c] == f + 1,
                forall|c: int| 0 <= c < n && #[trigger] owner@[c] != 0 ==> found[owner@[c] - 1].contains(c),
                forall|f: int, a: int, b: int|
                    0 <= f < found.len() && 0 <= a < found[f].len() && 0 <= b < found[f].len() ==> worn_joined(
                        *self,
                        threshold,
                        #[trigger] found[f][a],
                        #[trigger] found[f][b],
                    ),
                emitted.len() == runs@.len(),
                forall|k: int| 0 <= k < emitted.len() ==> 0 <= #[trigger] emitted[k] < found.len(),
                forall|k: int, j: int| 0 <= k < j < emitted.len() ==> #[trigger] emitted[k] < #[trigger] emitted[j],
                forall|f: int|
                    0 <= f < found.len() ==> (#[trigger] found[f]).len() < MIN_TRACK_CELLS || exists|k: int|
                        0 <= k < emitted.len() && emitted[k] == f,
                forall|k: int, c: usize| 0 <= k < runs@.len() ==> (#[trigger] runs@[k]@.contains(c) <==> found[emitted[k]].contains(c as int)),
                forall|k: int| 0 <= k < runs@.len() ==> (#[trigger] runs@[k]@).len() >= MIN_TRACK_CELLS,
                forall|k: int, a: int, b: int| 0 <= k < runs@.len() && 0 <= a < b < runs@[k]@.len() ==> #[trigger] runs@[k]@[a] < #[trigger] runs@[k]@[b],
            decreases worn_cells@.len() - w,
        {
            let start = worn_cells[w];
            let ghost found_before = found;
            let ghost emitted_before = emitted;
            if owner[start] == 0 {
                proof {
                    lemma_claim_one(owner@, start as int, (floods + 1) as usize);
                }
                let ghost owner_before = owner@;
                floods = floods + 1;
                owner.set(start, floods);
                let ghost mut run_cells: Seq<int> = Seq::empty();
                let ghost mut chain: Map<int, Seq<int>> = Map::empty().insert(start as int, seq![start as int]);
                let mut frontier: Vec<usize> = Vec::new();
                frontier.push(start);
                let mut size: usize = 0;
                proof {
                    assert(worn_chain(*self, threshold, seq![start as int]));
                    assert(run_cells.len() == 0);
                    assert(run_cells.no_duplicates());
                    assert(frontier@ == seq![start]);
                    assert forall|c: int| 0 <= c < n implies (#[trigger] owner@[c] == floods <==> (run_cells.contains(c) || frontier@.contains(c as usize))) by {
                        if c != start as int {
                            assert(owner_before[c] <= floods - 1);
                            if frontier@.contains(c as usize) {
                                assert(frontier@[0] == start);
                            }
                        } else {
                            assert(frontier@[0] == start);
                        }
                    }
                    assert forall|c: int| 0 <= c < n && #[trigger] owner@[c] != 0 && owner@[c] < floods implies found[owner@[c] - 1].contains(c) by {
                        assert(c != start as int);
                        assert(owner_before[c] != 0);
                    }
                    assert forall|f: int, c: int| 0 <= f < found.len() && #[trigger] found[f].contains(c) implies 0 <= c < n && owner@[c] == f + 1 by {
                        assert(owner_before[c] == f + 1);
                    }
                }
                while frontier.len() > 0
                    invariant
                        self.wf(),
                        n == self.wears().len(),
                        n == self.side() * self.side(),
                        side == self.side(),
                        owner@.len() == n,
                        floods == found.len() + 1,
                        start < n,
                        owner@[start as int] == floods,
                        forall|a: int| 0 <= a < worn_cells@.len() ==> #[trigger] worn_cells@[a] < n && worn(*self, threshold, worn_cells@[a] as int),
                        w < worn_cells@.len(),
                        forall|a: int| 0 <= a < w ==> owner@[#[trigger] worn_cells@[a] as int] != 0,
                        forall|c: int| 0 <= c < n ==> #[trigger] owner@[c] <= floods,
                        forall|c: int| 0 <= c < n && #[trigger] owner@[c] != 0 ==> worn(*self, threshold, c),
                        forall|f: int| 0 <= f < found.len() ==> closed_run(*self, threshold, #[trigger] found[f]),
                        forall|f: int, c: int| 0 <= f < found.len() && #[trigger] found[f].contains(c) ==> 0 <= c < n && owner@[c] == f + 1,
                        forall|c: int| 0 <= c < n && #[trigger] owner@[c] != 0 && owner@[c] < floods ==> found[owner@[c] - 1].contains(c),
                        forall|c: int| 0 <= c < n ==> (#[trigger] owner@[c] == floods <==> (run_cells.contains(c) || frontier@.contains(c as usize))),
                        forall|i: int| 0 <= i < run_cells.len() ==> 0 <= #[trigger] run_cells[i] < n,
                        forall|i: int| 0 <= i < frontier@.len() ==> #[trigger] frontier@[i] < n,
                        run_cells.no_duplicates(),
                        frontier@.no_duplicates(),
                        forall|c: int| #[trigger] run_cells.contains(c) ==> !frontier@.contains(c as usize),
                        size == run_cells.len(),
                        size <= n,
                        forall|i: int, k: int|
                            0 <= i < run_cells.len() && 0 <= k < 9 && #[trigger] offset_cell(side as int, run_cells[i], k) is Some
                                && worn(*self, threshold, offset_cell(side as int, run_cells[i], k).unwrap())
                                ==> owner@[offset_cell(side as int, run_cells[i], k).unwrap()] == floods,
                        forall|c: int|
                            0 <= c < n && #[trigger] owner@[c] == floods ==> chain.dom().contains(c) && worn_chain(*self, threshold, chain[c])
                                && chain[c][0] == start as int && chain[c].last() == c,
                    decreases unowned(owner@), frontier@.len(),
                {
                    let ghost old_frontier = frontier@;
                    let ghost old_run = run_cells;
                    let cell = match frontier.pop() {
                        Some(c) => c,
                        None => start,
                    };
                    let ghost unowned_before = unowned(owner@);
                    let ghost frontier_after_pop = frontier@.len();
                    proof {
                        broadcast use vstd::seq_lib::lemma_seq_contains_after_push;

                        assert(old_frontier.contains(cell)) by {
                            assert(old_frontier[old_frontier.len() - 1] == cell);
                        }
                        assert(cell < n);
                        assert(owner@[cell as int] == floods);
                        assert(!old_run.contains(cell as int));
                        run_cells = run_cells.push(cell as int);
                        assert forall|x: usize| #[trigger] frontier@.contains(x) <==> (old_frontier.contains(x) && x != cell) by {
                            lemma_pop_contains(old_frontier, x);
                        }
                        assert(frontier@.no_duplicates());
                        assert forall|c: int| 0 <= c < n implies (#[trigger] owner@[c] == floods <==> (run_cells.contains(c) || frontier@.contains(c as usize))) by {
                        }
                        assert forall|c: int| #[trigger] run_cells.contains(c) implies !frontier@.contains(c as usize) by {
                            if c != cell as int {
                                assert(old_run.contains(c));
                            }
                        }
                        assert(run_cells.no_duplicates());
                        assert forall|i: int| 0 <= i < frontier@.len() implies #[trigger] frontier@[i] < n by {
                            assert(frontier@[i] == old_frontier[i]);
                        }
                        lemma_same_cells_bounded(old_run, n as int, cell as int);
                    }
                    size = size + 1;
                    let near = self.neighbours(cell);
                    let ghost listed = near@.map_values(|c: usize| c as int);
                    let mut j: usize = 0;
                    while j < near.len()
                        invariant
                            self.wf(),
                            n == self.wears().len(),
                            n == self.side() * self.side(),
                            side == self.side(),
                            owner@.len() == n,
                            floods == found.len() + 1,
                            start < n,
                            cell < n,
                            owner@[start as int] == floods,
                            owner@[cell as int] == floods,
                            listed == near@.map_values(|c: usize| c as int),
                            listed == neighbours_upto(side as int, cell as int, 9),
                            j <= near@.len(),
                            forall|a: int| 0 <= a < worn_cells@.len() ==> #[trigger] worn_cells@[a] < n && worn(*self, threshold, worn_cells@[a] as int),
                            w < worn_cells@.len(),
                            forall|a: int| 0 <= a < w ==> owner@[#[trigger] worn_cells@[a] as int] != 0,
                            forall|c: int| 0 <= c < n ==> #[trigger] owner@[c] <= floods,
                            forall|c: int| 0 <= c < n && #[trigger] owner@[c] != 0 ==> worn(*self, threshold, c),
                            forall|f: int| 0 <= f < found.len() ==> closed_run(*self, threshold, #[trigger] found[f]),
                            forall|f: int, c: int| 0 <= f < found.len() && #[trigger] found[f].contains(c) ==> 0 <= c < n && owner@[c] == f + 1,
                            forall|c: int| 0 <= c < n && #[trigger] owner@[c] != 0 && owner@[c] < floods ==> found[owner@[c] - 1].contains(c),
                            forall|c: int| 0 <= c < n ==> (#[trigger] owner@[c] == floods <==> (run_cells.contains(c) || frontier@.contains(c as usize))),
                            forall|i: int| 0 <= i < run_cells.len() ==> 0 <= #[trigger] run_cells[i] < n,
                            forall|i: int| 0 <= i < frontier@.len() ==> #[trigger] frontier@[i] < n,
                            run_cells.no_duplicates(),
                            frontier@.no_duplicates(),
                            forall|c: int| #[trigger] run_cells.contains(c) ==> !frontier@.contains(c as usize),
                            run_cells.last() == cell as int,
                            run_cells.len() >= 1,
                            size == run_cells.len(),
                            size <= n,
                            forall|i: int, k: int|
                                0 <= i < run_cells.len() - 1 && 0 <= k < 9 && #[trigger] offset_cell(side as int, run_cells[i], k) is Some
                                    && worn(*self, threshold, offset_cell(side as int, run_cells[i], k).unwrap())
                                    ==> owner@[offset_cell(side as int, run_cells[i], k).unwrap()] == floods,
                            forall|a: int| 0 <= a < j && worn(*self, threshold, #[trigger] listed[a]) ==> owner@[listed[a]] == floods,
                            forall|c: int|
                                0 <= c < n && #[trigger] owner@[c] == floods ==> chain.dom().contains(c) && worn_chain(*self, threshold, chain[c])
                                    && chain[c][0] == start as int && chain[c].last() == c,
                            unowned(owner@) + (frontier@.len() - frontier_after_pop) == unowned_before,
                            frontier@.len() >= frontier_after_pop,
                        decreases near@.len() - j,
                    {
                        let next = near[j];
                        proof {
                            lemma_listed_adjacent(side as int, cell as int, 9, j as int);
                            assert(listed[j as int] == next as int);
                        }
                        if owner[next] == 0 && self.wear[next] >= threshold {
                            let ghost prev_owner = owner@;
                            let ghost prev_frontier = frontier@;
                            proof {
                                lemma_claim_one(owner@, next as int, floods);
                                let path = chain[cell as int].push(next as int);
                                assert forall|i: int| 0 <= i < path.len() implies #[trigger] worn(*self, threshold, path[i]) by {
                                    if i < path.len() - 1 {
                                        assert(path[i] == chain[cell as int][i]);
                                    }
                                }
                                assert forall|i: int| 0 <= i < path.len() - 1 implies adjacent(self.side(), #[trigger] path[i], path[i + 1]) by {
                                    if i < path.len() - 2 {
                                        assert(path[i] == chain[cell as int][i] && path[i + 1] == chain[cell as int][i + 1]);
                                    } else {
                                        assert(path[i] == cell as int);
                                    }
                                }
                                chain = chain.insert(next as int, path);
                            }
                            owner.set(next, floods);
                            frontier.push(next);
                            proof {
                                broadcast use vstd::seq_lib::lemma_seq_contains_after_push;

                                assert(owner@ == prev_owner.update(next as int, floods));

                                assert(frontier@ == prev_frontier.push(next));
                                assert(!prev_frontier.contains(next)) by {
                                    if prev_frontier.contains(next) {
                                        assert(prev_owner[next as int] == floods);
                                    }
                                }
                                assert(!run_cells.contains(next as int)) by {
                                    if run_cells.contains(next as int) {
                                        assert(prev_owner[next as int] == floods);
                                    }
                                }
                                assert(frontier@.no_duplicates());
                                assert forall|a: int| 0 <= a < w implies owner@[#[trigger] worn_cells@[a] as int] != 0 by {
                                    if worn_cells@[a] as int == next as int {
                                        assert(owner@[next as int] == floods);
                                    } else {
                                        assert(prev_owner[worn_cells@[a] as int] != 0);
                                        assert(owner@[worn_cells@[a] as int] == prev_owner[worn_cells@[a] as int]);
                                    }
                                }
                                assert forall|c: int| 0 <= c < n implies (#[trigger] owner@[c] == floods <==> (run_cells.contains(c) || frontier@.contains(c as usize))) by {
                                    if c != next as int {
                                        assert(prev_owner[c] == owner@[c]);
                                    }
                                }
                                assert forall|c: int| #[trigger] run_cells.contains(c) implies !frontier@.contains(c as usize) by {
                                }
                                assert forall|i: int| 0 <= i < frontier@.len() implies #[trigger] frontier@[i] < n by {
                                    if i < prev_frontier.len() {
                                        assert(frontier@[i] == prev_frontier[i]);
                                    }
                                }
                                assert forall|f: int, c: int| 0 <= f < found.len() && #[trigger] found[f].contains(c) implies 0 <= c < n && owner@[c] == f + 1 by {
                                    assert(prev_owner[c] == f + 1);
                                }
                                assert forall|c: int| 0 <= c < n && #[trigger] owner@[c] != 0 && owner@[c] < floods implies found[owner@[c] - 1].contains(c) by {
                                    assert(prev_owner[c] == owner@[c]);
                                }
                                assert forall|c: int| 0 <= c < n && #[trigger] owner@[c] != 0 implies worn(*self, threshold, c) by {
                                    if c != next as int {
                                        assert(prev_owner[c] == owner@[c]);
                                    }
                                }
                                assert forall|c: int|
                                    0 <= c < n && #[trigger] owner@[c] == floods implies chain.dom().contains(c) && worn_chain(*self, threshold, chain[c])
                                        && chain[c][0] == start as int && chain[c].last() == c by {
                                    if c != next as int {
                                        assert(prev_owner[c] == owner@[c]);
                                    }
                                }
                            }
                        } else if self.wear[next] >= threshold {
                            proof {
                                let o = owner@[next as int];
                                if o != floods {
                                    let f = o - 1;
                                    assert(found[f].contains(next as int));
                                    let i = choose|i: int| 0 <= i < found[f].len() && found[f][i] == next as int;
                                    assert(adjacent(self.side(), found[f][i], cell as int));
                                    assert(worn(*self, threshold, cell as int));
                                    assert(found[f].contains(cell as int));
                                }
                            }
                        }
                        j = j + 1;
                    }
                    proof {
                        assert forall|i: int, k: int|
                            0 <= i < run_cells.len() && 0 <= k < 9 && #[trigger] offset_cell(side as int, run_cells[i], k) is Some
                                && worn(*self, threshold, offset_cell(side as int, run_cells[i], k).unwrap())
                                implies owner@[offset_cell(side as int, run_cells[i], k).unwrap()] == floods by {
                            if i == run_cells.len() - 1 {
                                lemma_offset_listed(side as int, cell as int, k, 9);
                                let d = offset_cell(side as int, cell as int, k).unwrap();
                                let a = choose|a: int| 0 <= a < listed.len() && listed[a] == d;
                            }
                        }
                    }
                }
                proof {
                    assert forall|c: int| 0 <= c < n implies (#[trigger] owner@[c] == floods <==> run_cells.contains(c)) by {
                        if frontier@.contains(c as usize) {
                            let i = choose|i: int| 0 <= i < frontier@.len() && frontier@[i] == c as usize;
                        }
                    }
                    assert forall|i: int| 0 <= i < run_cells.len() implies #[trigger] worn(*self, threshold, run_cells[i]) by {
                        assert(owner@[run_cells[i]] == floods);
                    }
                    assert forall|i: int, d: int|
                        0 <= i < run_cells.len() && #[trigger] adjacent(self.side(), run_cells[i], d) && worn(*self, threshold, d)
                            implies run_cells.contains(d) by {
                        let k = lemma_adjacent_offset(self.side(), run_cells[i], d);
                        assert(owner@[d] == floods);
                    }
                    assert(closed_run(*self, threshold, run_cells));
                    assert forall|a: int, b: int| 0 <= a < run_cells.len() && 0 <= b < run_cells.len() implies worn_joined(
                        *self,
                        threshold,
                        #[trigger] run_cells[a],
                        #[trigger] run_cells[b],
                    ) by {
                        assert(owner@[run_cells[a]] == floods);
                        assert(owner@[run_cells[b]] == floods);
                        lemma_joined_through(*self, threshold, chain[run_cells[a]], chain[run_cells[b]]);
                    }
                    found = found.push(run_cells);
                }
                if size >= MIN_TRACK_CELLS {
                    let mut run: Vec<usize> = Vec::new();
                    let mut c: usize = 0;
                    while c < n
                        invariant
                            c <= n,
                            owner@.len() == n,
                            forall|a: int| 0 <= a < run@.len() ==> #[trigger] run@[a] < c,
                            forall|a: int, b: int| 0 <= a < b < run@.len() ==> #[trigger] run@[a] < #[trigger] run@[b],
                            forall|x: usize| #[trigger] run@.contains(x) <==> (x < c && owner@[x as int] == floods),
                        decreases n - c,
                    {
                        let ghost before = run@;
                        if owner[c] == floods {
                            run.push(c);
                        }
                        proof {
                            broadcast use vstd::seq_lib::lemma_seq_contains_after_push;

                            assert forall|x: usize| #[trigger] run@.contains(x) <==> (x < c + 1 && owner@[x as int] == floods) by {
                                if x == c && !(owner@[x as int] == floods) {
                                    if before.contains(x) {
                                        let a = choose|a: int| 0 <= a < before.len() && before[a] == x;
                                    }
                                }
                            }
                        }
                        c = c + 1;
                    }
                    proof {
                        let m = as_cells(run@);
                        assert(m.no_duplicates()) by {
                            assert forall|a: int, b: int| 0 <= a < m.len() && 0 <= b < m.len() && a != b implies m[a] != m[b] by {
                                if a < b {
                                    assert(run@[a] < run@[b]);
                                } else {
                                    assert(run@[b] < run@[a]);
                                }
                            }
                        }
                        assert forall|x: usize| #[trigger] run@.contains(x) <==> run_cells.contains(x as int) by {
                        }
                        assert forall|x: int| m.contains(x) <==> run_cells.contains(x) by {
                            if m.contains(x) {
                                let a = choose|a: int| 0 <= a < m.len() && m[a] == x;
                                assert(run@.contains(run@[a]));
                            }
                            if run_cells.contains(x) {
                                assert(0 <= x < n);
                                assert(run@.contains(x as usize));
                                let a = choose|a: int| 0 <= a < run@.len() && run@[a] == x as usize;
                                assert(m[a] == x);
                            }
                        }
                        lemma_same_cells_same_length(m, run_cells);
                        emitted = emitted.push(found.len() - 1);
                    }
                    runs.push(run);
                }
                proof {
                    assert forall|f: int|
                        0 <= f < found.len() implies (#[trigger] found[f]).len() < MIN_TRACK_CELLS || exists|k: int|
                            0 <= k < emitted.len() && emitted[k] == f by {
                        if f == found.len() - 1 {
                            if found[f].len() >= MIN_TRACK_CELLS {
                                assert(emitted[emitted.len() - 1] == f);
                            }
                        } else {
                            assert(found[f] == found_before[f]);
                            if found[f].len() >= MIN_TRACK_CELLS {
                                let k = choose|k: int| 0 <= k < emitted_before.len() && emitted_before[k] == f;
                                assert(emitted[k] == emitted_before[k]);
                            }
                        }
                    }
                }
            }
            w = w + 1;
        }
        proof {
            assert forall|i: int| 0 <= i < runs@.len() implies closed_run(*self, threshold, as_cells(#[trigger] runs@[i]@)) by {
                let f = emitted[i];
                assert forall|x: int| 0 <= x < found[f].len() implies 0 <= #[trigger] found[f][x] <= usize::MAX by {
                    assert(found[f].contains(found[f][x]));
                }
                lemma_closed_transfers(*self, threshold, runs@[i]@, found[f]);
            }
            assert forall|i: int, a: int, b: int|
                0 <= i < runs@.len() && 0 <= a < runs@[i]@.len() && 0 <= b < runs@[i]@.len() implies worn_joined(
                    *self,
                    threshold,
                    #[trigger] runs@[i]@[a] as int,
                    #[trigger] runs@[i]@[b] as int,
                ) by {
                let f = emitted[i];
                assert(runs@[i]@.contains(runs@[i]@[a]));
                assert(runs@[i]@.contains(runs@[i]@[b]));
                let x = choose|x: int| 0 <= x < found[f].len() && found[f][x] == runs@[i]@[a] as int;
                let y = choose|y: int| 0 <= y < found[f].len() && found[f][y] == runs@[i]@[b] as int;
            }
            assert forall|i: int, j: int, c: usize| 0 <= i < j < runs@.len() && #[trigger] runs@[i]@.contains(c) implies !#[trigger] runs@[j]@.contains(c) by {
                if runs@[j]@.contains(c) {
                    assert(found[emitted[i]].contains(c as int));
                    assert(found[emitted[j]].contains(c as int));
                }
            }
            assert forall|c: int| #[trigger] worn(*self, threshold, c) implies (exists|i: int| 0 <= i < runs@.len() && #[trigger] runs@[i]@.contains(c as usize)) || (exists|s: Seq<int>|
                #[trigger] closed_run(*self, threshold, s) && s.contains(c) && s.len() < MIN_TRACK_CELLS) by {
                assert(worn_cells@.contains(c as usize));
                let a = choose|a: int| 0 <= a < worn_cells@.len() && worn_cells@[a] == c as usize;
                assert(owner@[c] != 0);
                let f = owner@[c] - 1;
                assert(found[f].contains(c));
                if found[f].len() >= MIN_TRACK_CELLS {
                    let k = choose|k: int| 0 <= k < emitted.len() && emitted[k] == f;
                    assert(runs@[k]@.contains(c as usize));
                } else {
                    assert(closed_run(*self, threshold, found[f]));
                }
            }
        }
        runs
    }
}

} // verus!
