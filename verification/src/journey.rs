//! The ways through the republic, and the waypoints a trip is planned along.
//!
//! A vehicle belongs to one medium. Only a road vehicle may leave its network
//! and cross open ground; a train, a tram, a barge and an aeroplane cannot.
//!
//! A trip is a list of waypoints with, for each leg, what the road allows on
//! it or `None` where the leg crosses open ground. [`PathBuilder`] drops steps
//! that go nowhere and merges steps that carry straight on at the same speed:
//! a straight run at one speed is one leg, however many junctions it passes.

use crate::citizen::ROAD_ACCESS;
use crate::network::{
    cap_millis, ids, is_path, joins, lemma_nearest_is, lemma_nearest_none, lemma_path_in_range, nearest,
    no_cheaper, path_between, path_cost, reachable, Network, NodeId, Segment,
};
use crate::network::{cap_metres, polyline};
use crate::ground::Crossing;
use crate::units::{distance, lemma_distance_nonneg, lerp, lerp_exec, travel_millis, Metres, Point, Seconds, Speed};
use vstd::prelude::*;

verus! {

/// How far a confined vehicle's terminal may stand from the way it rides, in
/// metres.
pub const TERMINAL_REACH: i64 = 120;

/// Two waypoints closer together than this, in metres, are the same place.
pub const SAME_PLACE: i64 = 1;

/// The way a vehicle gets about.
#[derive(Debug, Clone, Copy, PartialEq, Eq, Structural, Hash, PartialOrd, Ord)]
pub enum Medium {
    /// Roads where they help, open country where they do not.
    Road,
    Rail,
    /// Street track, a network of its own.
    Tram,
    /// Underground.
    Metro,
    /// Rivers and lakes: the one network nobody builds.
    Water,
    Air,
}

impl Medium {
    /// Whether a vehicle of this medium may leave its network and cross open
    /// ground. Only a road vehicle can.
    pub fn free_ranging(self) -> (r: bool)
        ensures
            r == (self == Medium::Road),
    {
        match self {
            Medium::Road => true,
            _ => false,
        }
    }

    pub fn name(self) -> (r: &'static str)
        ensures
            r@ == match self {
                Medium::Road => "Road"@,
                Medium::Rail => "Rail"@,
                Medium::Tram => "Tram"@,
                Medium::Metro => "Metro"@,
                Medium::Water => "Water"@,
                Medium::Air => "Air"@,
            },
    {
        match self {
            Medium::Road => "Road",
            Medium::Rail => "Rail",
            Medium::Tram => "Tram",
            Medium::Metro => "Metro",
            Medium::Water => "Water",
            Medium::Air => "Air",
        }
    }

    /// What a passenger service on this way makes, stops and boarding
    /// included, in metres an hour.
    pub fn commercial_speed(self) -> (s: Speed)
        ensures
            s.0 == match self {
                Medium::Road => 20_000u64,
                Medium::Tram => 17_000,
                Medium::Metro => 38_000,
                Medium::Rail => 55_000,
                Medium::Water => 12_000,
                Medium::Air => 300_000,
            },
    {
        match self {
            Medium::Road => Speed::from_kph(20),
            Medium::Tram => Speed::from_kph(17),
            Medium::Metro => Speed::from_kph(38),
            Medium::Rail => Speed::from_kph(55),
            Medium::Water => Speed::from_kph(12),
            Medium::Air => Speed::from_kph(300),
        }
    }

    /// Every medium, in a fixed order.
    pub fn all() -> (r: [Medium; 6])
        ensures
            r@ == seq![Medium::Road, Medium::Rail, Medium::Tram, Medium::Metro, Medium::Water, Medium::Air],
    {
        let r = [Medium::Road, Medium::Rail, Medium::Tram, Medium::Metro, Medium::Water, Medium::Air];
        assert(r@ =~= seq![Medium::Road, Medium::Rail, Medium::Tram, Medium::Metro, Medium::Water, Medium::Air]);
        r
    }
}

/// How long one tick of the simulation is: a minute.
pub fn tick() -> (t: Seconds)
    ensures
        t.millis == TICK_MILLIS,
{
    Seconds { millis: TICK_MILLIS }
}

/// One tick of the simulation, in milliseconds.
pub const TICK_MILLIS: u64 = 60_000;

/// The shortest a leg may take, in ticks: a leg that goes nowhere still takes
/// a tick, or the vehicle never arrives.
pub const MIN_LEG_TICKS: u64 = 1;

/// How long a leg takes, in milliseconds, floored at [`MIN_LEG_TICKS`].
pub open spec fn leg_millis(length: int, speed: int) -> int {
    let t = travel_millis(length, speed);
    if t < MIN_LEG_TICKS * TICK_MILLIS {
        (MIN_LEG_TICKS * TICK_MILLIS) as int
    } else {
        t
    }
}

/// How long a leg takes, floored at [`MIN_LEG_TICKS`].
pub fn leg_ticks(distance: Metres, speed: Speed) -> (t: Seconds)
    requires
        distance.0 >= 0,
    ensures
        t.millis == leg_millis(distance.0 as int, speed.0 as int),
{
    let t = speed.time_to_cover(distance);
    if t.millis < MIN_LEG_TICKS * TICK_MILLIS {
        Seconds { millis: MIN_LEG_TICKS * TICK_MILLIS }
    } else {
        t
    }
}

/// What a vehicle makes on a leg: its own pace on the road capped by what the
/// road allows, or its cross-country pace off it, slowed by today's drag in
/// thousandths (a thousand is firm and dry; less counts as a thousand).
pub open spec fn pace(limit: Option<Speed>, on_road: Speed, cross_country: Speed, drag: u64) -> int {
    let d = if drag < 1000 { 1000 } else { drag as int };
    match limit {
        Some(l) => (if on_road.0 <= l.0 { on_road.0 as int } else { l.0 as int }) * 1000 / d,
        None => cross_country.0 * 1000 / d,
    }
}

/// What a vehicle makes on a leg with this limit, at this drag.
pub fn pace_of(limit: Option<Speed>, on_road: Speed, cross_country: Speed, drag: u64) -> (s: Speed)
    ensures
        s.0 == pace(limit, on_road, cross_country, drag),
{
    let d: u128 = if drag < 1000 {
        1000
    } else {
        drag as u128
    };
    let base = match limit {
        Some(l) => if on_road.0 <= l.0 {
            on_road.0
        } else {
            l.0
        },
        None => cross_country.0,
    };
    let v = base as u128 * 1000 / d;
    assert(v <= base) by (nonlinear_arith)
        requires
            v == (base as int) * 1000 / (d as int),
            d >= 1000,
            base >= 0,
    ;
    Speed(v as u64)
}

/// A planned route, and where along it the traveller currently is. Only the
/// leg under way carries a time window; the rest are timed as they are
/// reached, so conditions can change under a vehicle already on its way.
#[derive(Debug, Clone, PartialEq, Eq)]
pub struct Journey {
    /// Waypoints. Leg `i` runs from `path[i]` to `path[i + 1]`.
    pub path: Vec<Point>,
    /// What the road allows on each leg, or `None` off road. One shorter than
    /// `path`.
    pub limit: Vec<Option<Speed>>,
    /// Which leg is under way.
    pub leg: u32,
    /// When this leg began.
    pub leg_start: Seconds,
    /// When this leg is due to end.
    pub leg_end: Seconds,
}

impl Journey {
    /// Somewhere to go, one limit per leg, and a leg under way.
    pub open spec fn wf(&self) -> bool {
        &&& 2 <= self.path@.len() <= u32::MAX
        &&& self.limit@.len() + 1 == self.path@.len()
        &&& self.leg + 1 < self.path@.len()
    }

    /// Start a journey along `path`, with its first leg already timed.
    pub fn begin(path: Vec<Point>, limit: Vec<Option<Speed>>, now: Seconds, first_leg: Seconds) -> (j: Journey)
        requires
            2 <= path@.len() <= u32::MAX,
            limit@.len() + 1 == path@.len(),
            now.millis + first_leg.millis <= u64::MAX,
        ensures
            j.wf(),
            j.path@ == path@,
            j.limit@ == limit@,
            j.leg == 0,
            j.leg_start == now,
            j.leg_end.millis == now.millis + first_leg.millis,
    {
        Journey { path, limit, leg: 0, leg_start: now, leg_end: Seconds { millis: now.millis + first_leg.millis } }
    }

    /// How many legs there are in total.
    pub fn legs(&self) -> (n: u32)
        requires
            self.wf(),
        ensures
            n == self.path@.len() - 1,
    {
        (self.path.len() - 1) as u32
    }

    /// Where the current leg started from.
    pub fn leg_from(&self) -> (p: Point)
        requires
            self.wf(),
        ensures
            p == self.path@[self.leg as int],
    {
        self.path[self.leg as usize]
    }

    /// Where the current leg is heading.
    pub fn leg_to(&self) -> (p: Point)
        requires
            self.wf(),
        ensures
            p == self.path@[self.leg + 1],
    {
        self.path[self.leg as usize + 1]
    }

    /// Whether the current leg rides the road network.
    pub fn leg_on_road(&self) -> (r: bool)
        requires
            self.wf(),
        ensures
            r == self.limit@[self.leg as int] is Some,
    {
        self.limit[self.leg as usize].is_some()
    }

    /// What a vehicle makes on leg `leg`.
    pub fn speed_on(&self, leg: u32, on_road: Speed, cross_country: Speed, drag: u64) -> (s: Speed)
        requires
            leg < self.limit@.len(),
        ensures
            s.0 == pace(self.limit@[leg as int], on_road, cross_country, drag),
    {
        pace_of(self.limit[leg as usize], on_road, cross_country, drag)
    }

    /// [`Journey::speed_on`] for the leg under way.
    pub fn leg_speed(&self, on_road: Speed, cross_country: Speed, drag: u64) -> (s: Speed)
        requires
            self.wf(),
        ensures
            s.0 == pace(self.limit@[self.leg as int], on_road, cross_country, drag),
    {
        self.speed_on(self.leg, on_road, cross_country, drag)
    }

    pub fn leg_distance(&self) -> (m: Metres)
        requires
            self.wf(),
        ensures
            m.0 == distance(self.path@[self.leg as int], self.path@[self.leg + 1]),
    {
        self.leg_from().distance_to(self.leg_to())
    }

    /// Where the whole journey ends.
    pub fn destination(&self) -> (p: Point)
        requires
            self.wf(),
        ensures
            p == self.path@.last(),
    {
        self.path[self.path.len() - 1]
    }

    /// Total distance over every leg, what fuel is charged against.
    pub fn distance(&self) -> (m: Metres)
        ensures
            m.0 == cap_metres(polyline(self.path@)),
    {
        if self.path.len() == 0 {
            return Metres(0);
        }
        let mut total: i64 = 0;
        let mut i: usize = 1;
        while i < self.path.len()
            invariant
                1 <= i <= self.path@.len(),
                total == cap_metres(polyline(self.path@.take(i as int))),
            decreases self.path@.len() - i,
        {
            let d = self.path[i - 1].distance_to(self.path[i]);
            proof {
                let pre = self.path@.take(i + 1);
                assert(pre.drop_last() =~= self.path@.take(i as int));
                assert(pre[pre.len() - 2] == self.path@[i - 1]);
                assert(pre.last() == self.path@[i as int]);
                crate::network::lemma_polyline_nonneg(self.path@.take(i as int));
            }
            total = if total > i64::MAX - d.0 {
                i64::MAX
            } else {
                total + d.0
            };
            i = i + 1;
        }
        assert(self.path@.take(i as int) =~= self.path@);
        Metres(total)
    }

    /// Whether the leg under way is the last one.
    pub fn on_last_leg(&self) -> (r: bool)
        requires
            self.wf(),
        ensures
            r == (self.leg + 1 >= self.path@.len() - 1),
    {
        self.leg + 1 >= self.legs()
    }

    /// Whether the current leg is due to have finished by `now`.
    pub fn leg_done_by(&self, now: Seconds) -> (r: bool)
        ensures
            r == (now.millis >= self.leg_end.millis),
    {
        now.millis >= self.leg_end.millis
    }

    /// The next leg, timed at `speed`, as `(leg, start, end)`. It starts when
    /// the previous leg was scheduled to end, so arrival times never drift.
    pub fn next_leg(&self, speed: Speed) -> (r: (u32, Seconds, Seconds))
        requires
            self.wf(),
            self.leg + 2 < self.path@.len(),
        ensures
            r.0 == self.leg + 1,
            r.1 == self.leg_end,
            r.2.millis == if self.leg_end.millis + leg_millis(
                distance(self.path@[self.leg + 1], self.path@[self.leg + 2]),
                speed.0 as int,
            ) <= u64::MAX {
                self.leg_end.millis + leg_millis(
                    distance(self.path@[self.leg + 1], self.path@[self.leg + 2]),
                    speed.0 as int,
                )
            } else {
                u64::MAX as int
            },
    {
        let leg = self.leg + 1;
        let start = self.leg_end;
        let d = self.path[leg as usize].distance_to(self.path[leg as usize + 1]);
        let took = leg_ticks(d, speed);
        (leg, start, Seconds { millis: start.millis.saturating_add(took.millis) })
    }

    /// The two ends of a leg, whichever leg is asked for.
    pub fn leg_ends(&self, leg: u32) -> (r: (Point, Point))
        requires
            leg + 1 < self.path@.len(),
        ensures
            r == (self.path@[leg as int], self.path@[leg + 1]),
    {
        let n = self.path.len();
        let i = leg as usize;
        assert(i + 1 < n);
        (self.path[i], self.path[i + 1])
    }

    /// Where the traveller is at `now`: at the leg's start before it began, at
    /// its end once it should have ended, and in proportion in between.
    pub fn position_at(&self, now: Seconds) -> (p: Point)
        requires
            self.wf(),
        ensures
            ({
                let from = self.path@[self.leg as int];
                let to = self.path@[self.leg + 1];
                let start = self.leg_start.millis;
                let end = self.leg_end.millis;
                if end <= start || now.millis >= end {
                    p == to
                } else if now.millis <= start {
                    p == from
                } else {
                    p.x.0 == lerp(from.x.0, to.x.0, now.millis - start, end - start) && p.y.0 == lerp(
                        from.y.0,
                        to.y.0,
                        now.millis - start,
                        end - start,
                    )
                }
            }),
    {
        let from = self.leg_from();
        let to = self.leg_to();
        let start = self.leg_start.millis;
        let end = self.leg_end.millis;
        if end <= start || now.millis >= end {
            return to;
        }
        if now.millis <= start {
            return from;
        }
        let step = now.millis - start;
        let steps = end - start;
        Point::new(Metres(lerp_exec(from.x.0, to.x.0, step, steps)), Metres(lerp_exec(from.y.0, to.y.0, step, steps)))
    }
}

/// Every way through the republic, handed to a caller together, so a planner
/// asked for a rail route cannot be handed the roads by mistake.
#[derive(Debug, Clone, Copy)]
pub struct Ways<'a> {
    pub roads: &'a Network,
    pub rails: &'a Network,
    pub tramway: &'a Network,
    pub metro: &'a Network,
    pub water: &'a Network,
    /// Aerodromes, joined to each other.
    pub air: &'a Network,
}

impl<'a> Ways<'a> {
    /// A republic that has built roads and nothing else: every other way is
    /// `nowhere`, a network with nothing in it.
    pub fn on_roads(roads: &'a Network, nowhere: &'a Network) -> (w: Ways<'a>)
        ensures
            w.roads == roads,
            w.rails == nowhere,
            w.tramway == nowhere,
            w.metro == nowhere,
            w.water == nowhere,
            w.air == nowhere,
    {
        Ways { roads, rails: nowhere, tramway: nowhere, metro: nowhere, water: nowhere, air: nowhere }
    }

    /// The network a medium rides.
    pub open spec fn rides(&self, medium: Medium) -> &'a Network {
        match medium {
            Medium::Road => self.roads,
            Medium::Rail => self.rails,
            Medium::Tram => self.tramway,
            Medium::Metro => self.metro,
            Medium::Water => self.water,
            Medium::Air => self.air,
        }
    }

    /// The network a medium rides.
    pub fn of(&self, medium: Medium) -> (r: &'a Network)
        ensures
            r == self.rides(medium),
    {
        match medium {
            Medium::Road => self.roads,
            Medium::Rail => self.rails,
            Medium::Tram => self.tramway,
            Medium::Metro => self.metro,
            Medium::Water => self.water,
            Medium::Air => self.air,
        }
    }
}

/// The largest step, in metres along either axis, whose straightness is
/// judged exactly. Legs longer than this are never merged.
pub const STRAIGHT_REACH: i128 = 0x1000_0000;

/// Whether `a -> b -> c` carries straight on: it does not double back, and
/// the sine of the angle it turns through is under a fiftieth (about one
/// degree). A step that goes nowhere turns through no angle at all.
pub open spec fn straight_on(a: Point, b: Point, c: Point) -> bool {
    let ux = b.x.0 - a.x.0;
    let uy = b.y.0 - a.y.0;
    let vx = c.x.0 - b.x.0;
    let vy = c.y.0 - b.y.0;
    let cross = ux * vy - uy * vx;
    if (ux == 0 && uy == 0) || (vx == 0 && vy == 0) {
        true
    } else if ux > STRAIGHT_REACH || ux < -STRAIGHT_REACH || uy > STRAIGHT_REACH || uy < -STRAIGHT_REACH
        || vx > STRAIGHT_REACH || vx < -STRAIGHT_REACH || vy > STRAIGHT_REACH || vy < -STRAIGHT_REACH {
        false
    } else {
        ux * vx + uy * vy > 0 && 2500 * (cross * cross) < (ux * ux + uy * uy) * (vx * vx + vy * vy)
    }
}

/// Whether `a -> b -> c` carries straight on rather than turning.
fn is_straight_on(a: Point, b: Point, c: Point) -> (r: bool)
    ensures
        r == straight_on(a, b, c),
{
    let ux = b.x.0 as i128 - a.x.0 as i128;
    let uy = b.y.0 as i128 - a.y.0 as i128;
    let vx = c.x.0 as i128 - b.x.0 as i128;
    let vy = c.y.0 as i128 - b.y.0 as i128;
    if (ux == 0 && uy == 0) || (vx == 0 && vy == 0) {
        return true;
    }
    if ux > STRAIGHT_REACH || ux < -STRAIGHT_REACH || uy > STRAIGHT_REACH || uy < -STRAIGHT_REACH
        || vx > STRAIGHT_REACH || vx < -STRAIGHT_REACH || vy > STRAIGHT_REACH || vy < -STRAIGHT_REACH {
        return false;
    }
    proof {
        lemma_straight_fits(ux as int, uy as int, vx as int, vy as int);
    }
    let dot = ux * vx + uy * vy;
    if dot <= 0 {
        return false;
    }
    let cross = ux * vy - uy * vx;
    let lu = ux * ux + uy * uy;
    let lv = vx * vx + vy * vy;
    2500 * (cross * cross) < lu * lv
}

proof fn lemma_straight_fits(ux: int, uy: int, vx: int, vy: int)
    requires
        -STRAIGHT_REACH <= ux <= STRAIGHT_REACH,
        -STRAIGHT_REACH <= uy <= STRAIGHT_REACH,
        -STRAIGHT_REACH <= vx <= STRAIGHT_REACH,
        -STRAIGHT_REACH <= vy <= STRAIGHT_REACH,
    ensures
        -0x100_0000_0000_0000 <= ux * vx <= 0x100_0000_0000_0000,
        -0x100_0000_0000_0000 <= uy * vy <= 0x100_0000_0000_0000,
        -0x100_0000_0000_0000 <= ux * vy <= 0x100_0000_0000_0000,
        -0x100_0000_0000_0000 <= uy * vx <= 0x100_0000_0000_0000,
        0 <= ux * ux <= 0x100_0000_0000_0000,
        0 <= uy * uy <= 0x100_0000_0000_0000,
        0 <= vx * vx <= 0x100_0000_0000_0000,
        0 <= vy * vy <= 0x100_0000_0000_0000,
        0 <= (ux * vy - uy * vx) * (ux * vy - uy * vx) <= 0x4_0000_0000_0000_0000_0000_0000_0000,
        0 <= (ux * ux + uy * uy) * (vx * vx + vy * vy) <= 0x4_0000_0000_0000_0000_0000_0000_0000,
{
    let r = STRAIGHT_REACH as int;
    assert(r * r == 0x100_0000_0000_0000);
    assert(ux * vx <= r * r && ux * vx >= -(r * r)) by (nonlinear_arith)
        requires -r <= ux <= r, -r <= vx <= r, r > 0;
    assert(uy * vy <= r * r && uy * vy >= -(r * r)) by (nonlinear_arith)
        requires -r <= uy <= r, -r <= vy <= r, r > 0;
    assert(ux * vy <= r * r && ux * vy >= -(r * r)) by (nonlinear_arith)
        requires -r <= ux <= r, -r <= vy <= r, r > 0;
    assert(uy * vx <= r * r && uy * vx >= -(r * r)) by (nonlinear_arith)
        requires -r <= uy <= r, -r <= vx <= r, r > 0;
    assert(0 <= ux * ux <= r * r) by (nonlinear_arith)
        requires -r <= ux <= r, r > 0;
    assert(0 <= uy * uy <= r * r) by (nonlinear_arith)
        requires -r <= uy <= r, r > 0;
    assert(0 <= vx * vx <= r * r) by (nonlinear_arith)
        requires -r <= vx <= r, r > 0;
    assert(0 <= vy * vy <= r * r) by (nonlinear_arith)
        requires -r <= vy <= r, r > 0;
    let c = ux * vy - uy * vx;
    let lu = ux * ux + uy * uy;
    let lv = vx * vx + vy * vy;
    let m = 0x200_0000_0000_0000int;
    assert(m * m == 0x4_0000_0000_0000_0000_0000_0000_0000);
    assert(0 <= c * c <= m * m) by (nonlinear_arith)
        requires -m <= c <= m;
    assert(0 <= lu * lv <= m * m) by (nonlinear_arith)
        requires 0 <= lu <= m, 0 <= lv <= m;
}

/// The waypoints and leg limits after one step of a [`PathBuilder`].
pub open spec fn stepped(
    path: Seq<Point>,
    limit: Seq<Option<Speed>>,
    to: Point,
    lim: Option<Speed>,
) -> (Seq<Point>, Seq<Option<Speed>>) {
    let last = path.last();
    if distance(last, to) < SAME_PLACE {
        (path, limit)
    } else if limit.len() > 0 && limit.last() == lim && path.len() >= 2 && straight_on(
        path[path.len() - 2],
        last,
        to,
    ) {
        (path.update(path.len() - 1, to), limit)
    } else {
        (path.push(to), limit.push(lim))
    }
}

/// A builder after a run of steps, in order.
pub open spec fn walked(
    path: Seq<Point>,
    limit: Seq<Option<Speed>>,
    steps: Seq<(Point, Option<Speed>)>,
) -> (Seq<Point>, Seq<Option<Speed>>)
    decreases steps.len(),
{
    if steps.len() == 0 {
        (path, limit)
    } else {
        let (p, l) = walked(path, limit, steps.drop_last());
        stepped(p, l, steps.last().0, steps.last().1)
    }
}

/// Builds a waypoint list, dropping steps that go nowhere and merging steps
/// that carry straight on at the same speed.
#[derive(Debug, Clone, PartialEq, Eq)]
pub struct PathBuilder {
    pub path: Vec<Point>,
    /// One per leg: what the road allows on it, `None` off road.
    pub limit: Vec<Option<Speed>>,
}

impl PathBuilder {
    /// One leg per hop, and a start to hop from.
    pub open spec fn wf(&self) -> bool {
        &&& self.path@.len() >= 1
        &&& self.path@.len() == self.limit@.len() + 1
    }

    /// A builder standing at `start`, with no legs yet.
    pub fn from(start: Point) -> (b: PathBuilder)
        ensures
            b.wf(),
            b.path@ == seq![start],
            b.limit@ == Seq::<Option<Speed>>::empty(),
    {
        let b = PathBuilder { path: vec![start], limit: Vec::new() };
        assert(b.path@ =~= seq![start]);
        b
    }

    /// Go on to `to`, with `limit` on the way there.
    pub fn step(&mut self, to: Point, limit: Option<Speed>)
        requires
            old(self).wf(),
        ensures
            final(self).wf(),
            (final(self).path@, final(self).limit@) == stepped(old(self).path@, old(self).limit@, to, limit),
    {
        let n = self.path.len();
        let last = self.path[n - 1];
        if last.distance_to(to).0 < SAME_PLACE {
            return;
        }
        let k = self.limit.len();
        let same_limit = if k > 0 {
            match (self.limit[k - 1], limit) {
                (Some(a), Some(b)) => a.0 == b.0,
                (None, None) => true,
                _ => false,
            }
        } else {
            false
        };
        if same_limit && n >= 2 && is_straight_on(self.path[n - 2], last, to) {
            self.path.set(n - 1, to);
            return;
        }
        self.path.push(to);
        self.limit.push(limit);
    }
}

/// `s` is the speed of the quickest segment joining two junctions.
pub open spec fn is_best(segs: Seq<Segment>, a: NodeId, b: NodeId, s: Speed) -> bool {
    &&& exists|k: int| 0 <= k < segs.len() && joins(#[trigger] segs[k], a.0 as int, b.0 as int) && segs[k].speed == s
    &&& forall|k: int|
        0 <= k < segs.len() && joins(#[trigger] segs[k], a.0 as int, b.0 as int) ==> segs[k].speed.0 <= s.0
}

/// The quickest road between two junctions: the fastest of the segments that
/// join them, if any does.
pub open spec fn best_speed(segs: Seq<Segment>, a: NodeId, b: NodeId) -> Option<Speed> {
    if exists|k: int| 0 <= k < segs.len() && joins(#[trigger] segs[k], a.0 as int, b.0 as int) {
        Some(choose|s: Speed| #[trigger] is_best(segs, a, b, s))
    } else {
        None
    }
}

/// The steps a trip along a run of junctions takes: onto the first junction
/// off road, then each hop at the speed of the road it rides.
pub open spec fn road_steps(positions: Seq<Point>, segs: Seq<Segment>, nodes: Seq<NodeId>) -> Seq<(Point, Option<Speed>)> {
    Seq::new(
        nodes.len(),
        |i: int|
            if i == 0 {
                (positions[nodes[0].0 as int], None)
            } else {
                (positions[nodes[i].0 as int], best_speed(segs, nodes[i - 1], nodes[i]))
            },
    )
}

/// A run of junctions is a quickest way from `a` to `b`.
pub open spec fn quickest_way(segs: Seq<Segment>, nodes: Seq<NodeId>, a: int, b: int) -> bool {
    &&& nodes.len() >= 1
    &&& nodes[0].0 == a
    &&& nodes.last().0 == b
    &&& exists|ks: Seq<int>|
        #[trigger] is_path(segs, ids(nodes), ks) && no_cheaper(segs, a, b, path_cost(segs, ks))
}

/// What the road candidate for a trip may be: nothing when either end is
/// further than [`ROAD_ACCESS`] from any junction or the network does not join
/// the junctions nearest them, and otherwise across country to the nearest
/// junction, along a quickest way through the network, then across country to
/// the door.
pub open spec fn road_way(
    positions: Seq<Point>,
    segs: Seq<Segment>,
    from: Point,
    to: Point,
    r: Option<(Seq<Point>, Seq<Option<Speed>>)>,
) -> bool {
    match (nearest(positions, from, ROAD_ACCESS as int), nearest(positions, to, ROAD_ACCESS as int)) {
        (Some(a), Some(b)) => match r {
            Some(walk) => {
                &&& reachable(segs, a, b)
                &&& exists|nodes: Seq<NodeId>|
                    #[trigger] quickest_way(segs, nodes, a, b) && walk == walked(
                        seq![from],
                        Seq::empty(),
                        road_steps(positions, segs, nodes).push((to, None)),
                    )
            },
            None => !reachable(segs, a, b),
        },
        _ => r is None,
    }
}

/// The road candidate for a trip: across country to the nearest junction,
/// along the network, then across country to the door. `None` when either end
/// is further than [`ROAD_ACCESS`] from any junction, or the network does not
/// join the two.
pub fn by_road(from: Point, to: Point, roads: &Network) -> (r: Option<PathBuilder>)
    requires
        roads.wf(),
    ensures
        r matches Some(builder) ==> builder.wf(),
        road_way(roads.positions(), roads.segs(), from, to, match r {
            Some(builder) => Some((builder.path@, builder.limit@)),
            None => None,
        }),
{
    let start = roads.nearest_node(from, Metres(ROAD_ACCESS));
    let finish = roads.nearest_node(to, Metres(ROAD_ACCESS));
    proof {
        match start {
            Some(x) => lemma_nearest_is(roads.positions(), from, ROAD_ACCESS as int, x.0 as int),
            None => lemma_nearest_none(roads.positions(), from, ROAD_ACCESS as int),
        }
        match finish {
            Some(x) => lemma_nearest_is(roads.positions(), to, ROAD_ACCESS as int, x.0 as int),
            None => lemma_nearest_none(roads.positions(), to, ROAD_ACCESS as int),
        }
    }
    let start = match start {
        Some(s) => s,
        None => return None,
    };
    let finish = match finish {
        Some(f) => f,
        None => return None,
    };
    let route = match roads.route(start, finish) {
        Some(r) => r,
        None => {
            assert(road_way(roads.positions(), roads.segs(), from, to, None));
            return None;
        },
    };
    let ghost segs = roads.segs();
    let ghost positions = roads.positions();
    let ghost nodes = route.nodes@;
    let ghost ks = choose|ks: Seq<int>|
        #[trigger] is_path(segs, ids(nodes), ks) && cap_millis(path_cost(segs, ks)) == route.time.millis
            && no_cheaper(segs, start.0 as int, finish.0 as int, path_cost(segs, ks));
    proof {
        assert(ids(nodes)[0] == nodes[0].0);
        lemma_path_in_range(roads, ids(nodes), ks);
        assert forall|i: int| 0 <= i < nodes.len() implies (#[trigger] nodes[i]).0 < positions.len() by {
            assert(ids(nodes)[i] == nodes[i].0);
        }
    }
    let ghost steps = road_steps(positions, segs, nodes);
    let mut b = PathBuilder::from(from);
    let first = route.nodes[0];
    let first_at = roads.position_of(first).unwrap();
    b.step(first_at, None);
    proof {
        assert(steps.take(1).drop_last() =~= Seq::<(Point, Option<Speed>)>::empty());
        assert(steps.take(1).last() == steps[0]);
        assert(steps[0] == (positions[nodes[0].0 as int], None::<Speed>));
        assert(first_at == positions[nodes[0].0 as int]);
        assert(walked(seq![from], Seq::empty(), Seq::<(Point, Option<Speed>)>::empty()) == (
        seq![from], Seq::<Option<Speed>>::empty()));
        assert(walked(seq![from], Seq::empty(), steps.take(1)) == (b.path@, b.limit@));
    }
    let mut i: usize = 1;
    while i < route.nodes.len()
        invariant
            1 <= i <= route.nodes@.len(),
            nodes == route.nodes@,
            roads.wf(),
            segs == roads.segs(),
            positions == roads.positions(),
            steps == road_steps(positions, segs, nodes),
            forall|j: int| 0 <= j < nodes.len() ==> (#[trigger] nodes[j]).0 < positions.len(),
            b.wf(),
            (b.path@, b.limit@) == walked(seq![from], Seq::empty(), steps.take(i as int)),
        decreases route.nodes@.len() - i,
    {
        let previous = route.nodes[i - 1];
        let node = route.nodes[i];
        let limit = roads.speed_between(previous, node);
        proof {
            lemma_best_speed_is(segs, previous, node, limit);
        }
        let at = roads.position_of(node).unwrap();
        b.step(at, limit);
        proof {
            assert(steps.take(i + 1).drop_last() =~= steps.take(i as int));
            assert(steps.take(i + 1).last() == steps[i as int]);
        }
        i = i + 1;
    }
    b.step(to, None);
    proof {
        assert(steps.take(i as int) =~= steps);
        assert(steps.push((to, None)).drop_last() =~= steps);
        assert(is_path(segs, ids(nodes), ks) && no_cheaper(segs, start.0 as int, finish.0 as int, path_cost(segs, ks)));
        assert(quickest_way(segs, nodes, start.0 as int, finish.0 as int));
        assert(ids(nodes)[0] == start.0 && ids(nodes).last() == finish.0);
        assert(path_between(segs, ids(nodes), ks, start.0 as int, finish.0 as int));
        assert(reachable(segs, start.0 as int, finish.0 as int));
        let all = steps.push((to, None::<Speed>));
        assert(all.drop_last() == steps);
        assert(all.last() == (to, None::<Speed>));
        assert(walked(seq![from], Seq::empty(), all) == (b.path@, b.limit@));
        assert(road_steps(roads.positions(), roads.segs(), nodes) == steps);
        assert(quickest_way(roads.segs(), nodes, start.0 as int, finish.0 as int));
        assert(exists|ns: Seq<NodeId>|
            #[trigger] quickest_way(roads.segs(), ns, start.0 as int, finish.0 as int) && (b.path@, b.limit@) == walked(
                seq![from],
                Seq::empty(),
                road_steps(roads.positions(), roads.segs(), ns).push((to, None)),
            ));
        assert(nearest(roads.positions(), from, ROAD_ACCESS as int) == Some(start.0 as int));
        assert(nearest(roads.positions(), to, ROAD_ACCESS as int) == Some(finish.0 as int));
        lemma_road_way_found(
            roads.positions(),
            roads.segs(),
            from,
            to,
            start.0 as int,
            finish.0 as int,
            nodes,
            (b.path@, b.limit@),
        );
    }
    Some(b)
}

/// A road candidate found along a quickest way between the junctions nearest
/// the two ends is what [`road_way`] allows.
proof fn lemma_road_way_found(
    positions: Seq<Point>,
    segs: Seq<Segment>,
    from: Point,
    to: Point,
    a: int,
    b: int,
    nodes: Seq<NodeId>,
    walk: (Seq<Point>, Seq<Option<Speed>>),
)
    requires
        nearest(positions, from, ROAD_ACCESS as int) == Some(a),
        nearest(positions, to, ROAD_ACCESS as int) == Some(b),
        reachable(segs, a, b),
        quickest_way(segs, nodes, a, b),
        walk == walked(seq![from], Seq::empty(), road_steps(positions, segs, nodes).push((to, None))),
    ensures
        road_way(positions, segs, from, to, Some(walk)),
{
}

/// What [`Network::speed_between`] answers is the quickest road between the
/// two junctions.
proof fn lemma_best_speed_is(segs: Seq<Segment>, a: NodeId, b: NodeId, r: Option<Speed>)
    requires
        match r {
            Some(s) => {
                &&& exists|k: int|
                    0 <= k < segs.len() && joins(#[trigger] segs[k], a.0 as int, b.0 as int) && segs[k].speed == s
                &&& forall|k: int|
                    0 <= k < segs.len() && joins(#[trigger] segs[k], a.0 as int, b.0 as int) ==> segs[k].speed.0 <= s.0
            },
            None => forall|k: int| 0 <= k < segs.len() ==> !joins(#[trigger] segs[k], a.0 as int, b.0 as int),
        },
    ensures
        r == best_speed(segs, a, b),
{
    match r {
        Some(s) => {
            let k = choose|k: int|
                0 <= k < segs.len() && joins(#[trigger] segs[k], a.0 as int, b.0 as int) && segs[k].speed == s;
            assert(exists|k: int| 0 <= k < segs.len() && joins(#[trigger] segs[k], a.0 as int, b.0 as int));
            assert(is_best(segs, a, b, s));
            let t = choose|t: Speed| #[trigger] is_best(segs, a, b, t);
            let kt = choose|k: int|
                0 <= k < segs.len() && joins(#[trigger] segs[k], a.0 as int, b.0 as int) && segs[k].speed == t;
            assert(segs[kt].speed.0 <= s.0);
            assert(segs[k].speed.0 <= t.0);
        },
        None => {},
    }
}


/// The drag on one leg today, in thousandths: what lies on a road for a leg
/// that is on one, and the ground's for a leg across country.
pub open spec fn leg_drag(c: Crossing, road_drag: u64, from: Point, to: Point, limit: Option<Speed>) -> u64 {
    if limit is Some {
        road_drag
    } else {
        c.drag_between(from, to) as u64
    }
}

/// How long the first `k` legs of a walk take to drive, in milliseconds.
pub open spec fn drive_millis(
    c: Crossing,
    road_drag: u64,
    on_road: Speed,
    cross_country: Speed,
    path: Seq<Point>,
    limit: Seq<Option<Speed>>,
    k: int,
) -> int
    decreases k,
{
    if k <= 0 {
        0
    } else {
        drive_millis(c, road_drag, on_road, cross_country, path, limit, k - 1) + leg_millis(
            distance(path[k - 1], path[k]),
            pace(limit[k - 1], on_road, cross_country, leg_drag(c, road_drag, path[k - 1], path[k], limit[k - 1])) as int,
        )
    }
}

/// What a walk costs to drive, or `None` for one that goes nowhere, which no
/// finite cost beats.
pub open spec fn drive_cost(
    c: Crossing,
    road_drag: u64,
    on_road: Speed,
    cross_country: Speed,
    walk: (Seq<Point>, Seq<Option<Speed>>),
) -> Option<int> {
    if walk.0.len() < 2 {
        None
    } else {
        Some(drive_millis(c, road_drag, on_road, cross_country, walk.0, walk.1, walk.1.len() as int))
    }
}

/// Whether one cost is strictly below another, `None` being beyond every cost.
pub open spec fn cheaper(a: Option<int>, b: Option<int>) -> bool {
    match (a, b) {
        (Some(x), Some(y)) => x < y,
        (Some(_), None) => true,
        _ => false,
    }
}

/// The steps along a way across country, after its start.
pub open spec fn off_road_steps(way: Seq<Point>) -> Seq<(Point, Option<Speed>)> {
    Seq::new(
        if way.len() > 0 {
            (way.len() - 1) as nat
        } else {
            0
        },
        |i: int| (way[i + 1], None::<Speed>),
    )
}

/// The walk straight across country: along the way the crossing found, or
/// the straight line priced through whatever is in the way when it found none.
pub open spec fn direct_walk(from: Point, to: Point, way: Option<Seq<Point>>) -> (Seq<Point>, Seq<Option<Speed>>) {
    match way {
        Some(w) => walked(seq![from], Seq::empty(), off_road_steps(w)),
        None => walked(seq![from], Seq::empty(), seq![(to, None::<Speed>)]),
    }
}

/// The walk a drive takes: the road candidate when it is strictly quicker,
/// the direct walk otherwise, and the bare hop from start to end when what
/// was chosen goes nowhere or has more legs than a journey counts.
pub open spec fn chosen_walk(
    c: Crossing,
    road_drag: u64,
    on_road: Speed,
    cross_country: Speed,
    from: Point,
    to: Point,
    way: Option<Seq<Point>>,
    road: Option<(Seq<Point>, Seq<Option<Speed>>)>,
) -> (Seq<Point>, Seq<Option<Speed>>) {
    let candidate = match road {
        Some(w) => w,
        None => (Seq::<Point>::empty(), Seq::<Option<Speed>>::empty()),
    };
    let direct = direct_walk(from, to, way);
    let pick = if cheaper(
        drive_cost(c, road_drag, on_road, cross_country, candidate),
        drive_cost(c, road_drag, on_road, cross_country, direct),
    ) {
        candidate
    } else {
        direct
    };
    if pick.0.len() < 2 || pick.0.len() > u32::MAX {
        (seq![from, to], seq![None::<Speed>])
    } else {
        pick
    }
}

/// A drive from `from` to `to` as planned: the chosen walk, with its first
/// leg timed from `now`.
pub open spec fn drive_planned(
    c: Crossing,
    road_drag: u64,
    on_road: Speed,
    cross_country: Speed,
    from: Point,
    to: Point,
    now: Seconds,
    way: Option<Seq<Point>>,
    road: Option<(Seq<Point>, Seq<Option<Speed>>)>,
    j: Journey,
) -> bool {
    let walk = chosen_walk(c, road_drag, on_road, cross_country, from, to, way, road);
    let first = leg_millis(
        distance(walk.0[0], walk.0[1]),
        pace(walk.1[0], on_road, cross_country, leg_drag(c, road_drag, walk.0[0], walk.0[1], walk.1[0])) as int,
    );
    &&& j.path@ == walk.0
    &&& j.limit@ == walk.1
    &&& j.leg == 0
    &&& j.leg_start == now
    &&& j.leg_end.millis == if now.millis + first <= u64::MAX {
        now.millis + first
    } else {
        u64::MAX as int
    }
}

/// What a walk costs to drive.
fn cost_of(
    b: &PathBuilder,
    crossing: &Crossing,
    road_drag: u64,
    on_road: Speed,
    cross_country: Speed,
) -> (r: Option<u128>)
    requires
        b.wf(),
        crossing.wf(),
    ensures
        match drive_cost(*crossing, road_drag, on_road, cross_country, (b.path@, b.limit@)) {
            None => r is None,
            Some(c) => r is Some && r->0 == c,
        },
{
    if b.path.len() < 2 {
        return None;
    }
    let mut total: u128 = 0;
    let mut i: usize = 0;
    while i < b.limit.len()
        invariant
            b.wf(),
            crossing.wf(),
            i <= b.limit@.len(),
            total == drive_millis(*crossing, road_drag, on_road, cross_country, b.path@, b.limit@, i as int),
            total <= i * (u64::MAX as int),
        decreases b.limit@.len() - i,
    {
        let from = b.path[i];
        let to = b.path[i + 1];
        let limit = b.limit[i];
        let drag: u64 = match limit {
            Some(_) => road_drag,
            None => crossing.drag_along(from, to) as u64,
        };
        let speed = pace_of(limit, on_road, cross_country, drag);
        let t = leg_ticks(from.distance_to(to), speed);
        assert(i * (u64::MAX as int) + u64::MAX <= u128::MAX) by (nonlinear_arith)
            requires
                i < 0x1_0000_0000_0000_0000int,
        ;
        total = total + t.millis as u128;
        i = i + 1;
        assert(total <= i * (u64::MAX as int)) by (nonlinear_arith)
            requires
                total <= (i - 1) * (u64::MAX as int) + u64::MAX,
        ;
    }
    Some(total)
}

/// Plan a drive from `from` to `to`.
///
/// Roads are preferred, never required. The road network is tried and the
/// way across country is tried, and whichever is quicker wins, ties going to
/// the direct way: fewer waypoints, and an answer that does not depend on
/// which was built first. A republic with no roads at all still moves
/// freight; it moves it slowly, which is the pressure that makes roads worth
/// building. Every leg is costed at today's drag: `road_drag` is what lies on
/// the roads, in thousandths, and the crossing gives the ground's.
///
/// The first leg is timed from `now`, and its end is capped at the latest
/// time a `Seconds` holds.
pub fn plan(
    from: Point,
    to: Point,
    roads: &Network,
    crossing: &Crossing,
    on_road: Speed,
    cross_country: Speed,
    road_drag: u64,
    now: Seconds,
) -> (j: Journey)
    requires
        roads.wf(),
        crossing.wf(),
    ensures
        j.wf(),
        exists|way: Option<Seq<Point>>, road: Option<(Seq<Point>, Seq<Option<Speed>>)>|
            crossing.way_found(from, to, way) && road_way(roads.positions(), roads.segs(), from, to, road)
                && #[trigger] drive_planned(*crossing, road_drag, on_road, cross_country, from, to, now, way, road, j),
{
    // Across country, the way the lattice says is quickest.
    let way = crossing.route(from, to);
    let ghost way_seq: Option<Seq<Point>> = match &way {
        Some(w) => Some(w@),
        None => None,
    };
    assert(crossing.way_found(from, to, way_seq));
    let mut direct = PathBuilder::from(from);
    match way {
        Some(w) => {
            assert(way_seq == Some(w@));
            let ghost steps = off_road_steps(w@);
            let mut k: usize = 1;
            proof {
                assert(steps.take(0) =~= Seq::<(Point, Option<Speed>)>::empty());
            }
            while k < w.len()
                invariant
                    1 <= k <= w@.len() || (k == 1 && w@.len() == 0),
                    steps == off_road_steps(w@),
                    direct.wf(),
                    (direct.path@, direct.limit@) == walked(seq![from], Seq::empty(), steps.take(k - 1)),
                decreases w@.len() - k,
            {
                direct.step(w[k], None);
                proof {
                    assert(steps.take(k as int).drop_last() =~= steps.take(k - 1));
                    assert(steps.take(k as int).last() == (w@[k as int], None::<Speed>));
                }
                k = k + 1;
            }
            proof {
                if w@.len() == 0 {
                    assert(steps =~= Seq::<(Point, Option<Speed>)>::empty());
                    assert(steps.take(0) =~= steps);
                } else {
                    assert(steps.take(k - 1) =~= steps);
                }
            }
        },
        None => {
            direct.step(to, None);
            proof {
                let one = seq![(to, None::<Speed>)];
                assert(one.drop_last() =~= Seq::<(Point, Option<Speed>)>::empty());
                assert(one.last() == (to, None::<Speed>));
                assert(walked(seq![from], Seq::empty(), Seq::<(Point, Option<Speed>)>::empty()) == (
                seq![from], Seq::<Option<Speed>>::empty()));
                assert(walked(seq![from], Seq::empty(), one) == stepped(seq![from], Seq::empty(), to, None));
            }
        },
    }
    assert((direct.path@, direct.limit@) == direct_walk(from, to, way_seq));

    let candidate = by_road(from, to, roads);
    let ghost road_seq: Option<(Seq<Point>, Seq<Option<Speed>>)> = match &candidate {
        Some(b) => Some((b.path@, b.limit@)),
        None => None,
    };
    let road_cost = match &candidate {
        Some(b) => cost_of(b, crossing, road_drag, on_road, cross_country),
        None => None,
    };
    let direct_cost = cost_of(&direct, crossing, road_drag, on_road, cross_country);
    let road_wins = match (road_cost, direct_cost) {
        (Some(a), Some(b)) => a < b,
        (Some(_), None) => true,
        _ => false,
    };
    let ghost empty = (Seq::<Point>::empty(), Seq::<Option<Speed>>::empty());
    let ghost candidate_walk = match road_seq {
        Some(w) => w,
        None => empty,
    };
    let ghost direct_walk_now = (direct.path@, direct.limit@);
    proof {
        assert(drive_cost(*crossing, road_drag, on_road, cross_country, empty) is None);
        let rc = drive_cost(*crossing, road_drag, on_road, cross_country, candidate_walk);
        let dc = drive_cost(*crossing, road_drag, on_road, cross_country, direct_walk_now);
        assert(rc is None ==> road_cost is None);
        assert(rc is Some ==> road_cost is Some && road_cost->0 == rc->0);
        assert(dc is None ==> direct_cost is None);
        assert(dc is Some ==> direct_cost is Some && direct_cost->0 == dc->0);
        assert(road_wins == cheaper(rc, dc));
    }
    let chosen = if road_wins {
        match candidate {
            Some(b) => b,
            None => direct,
        }
    } else {
        direct
    };
    assert((chosen.path@, chosen.limit@) == if road_wins {
        candidate_walk
    } else {
        direct_walk_now
    });
    let (path, limit) = if chosen.path.len() < 2 || chosen.path.len() > 0xFFFF_FFFF {
        (vec![from, to], vec![None])
    } else {
        (chosen.path, chosen.limit)
    };
    proof {
        assert(path@.len() >= 2 ==> (path@, limit@) == chosen_walk(
            *crossing,
            road_drag,
            on_road,
            cross_country,
            from,
            to,
            way_seq,
            road_seq,
        ));
    }
    let first_drag: u64 = match limit[0] {
        Some(_) => road_drag,
        None => crossing.drag_along(path[0], path[1]) as u64,
    };
    let first = leg_ticks(path[0].distance_to(path[1]), pace_of(limit[0], on_road, cross_country, first_drag));
    let room = u64::MAX - now.millis;
    let capped = Seconds { millis: if first.millis <= room { first.millis } else { room } };
    let j = Journey::begin(path, limit, now, capped);
    assert(drive_planned(*crossing, road_drag, on_road, cross_country, from, to, now, way_seq, road_seq, j));
    j
}


/// How fast anything moves in and out of a yard, in metres an hour.
pub fn shunting() -> (s: Speed)
    ensures
        s == Speed(15_000u64),
{
    Speed::from_kph(15)
}

/// The steps of a confined run through the junctions `nodes`: the shunt out
/// of the yard onto the first, then junction to junction at what the way
/// allows.
pub open spec fn confined_steps(positions: Seq<Point>, segs: Seq<Segment>, nodes: Seq<NodeId>) -> Seq<(Point, Option<Speed>)> {
    road_steps(positions, segs, nodes).update(0, (positions[nodes[0].0 as int], Some(Speed(15_000u64))))
}

/// What a confined run may be: nothing when either end is further than
/// [`TERMINAL_REACH`] from the way or the way does not join the junctions
/// nearest them, and otherwise a quickest way between those junctions with
/// the shunt in and out of the yards at each end.
pub open spec fn confined_way(
    positions: Seq<Point>,
    segs: Seq<Segment>,
    from: Point,
    to: Point,
    r: Option<(Seq<Point>, Seq<Option<Speed>>)>,
) -> bool {
    match (nearest(positions, from, TERMINAL_REACH as int), nearest(positions, to, TERMINAL_REACH as int)) {
        (Some(a), Some(b)) => match r {
            Some(walk) => {
                &&& reachable(segs, a, b)
                &&& exists|nodes: Seq<NodeId>|
                    #[trigger] quickest_way(segs, nodes, a, b) && walk == walked(
                        seq![from],
                        Seq::empty(),
                        confined_steps(positions, segs, nodes).push((to, Some(Speed(15_000u64)))),
                    )
            },
            None => !reachable(segs, a, b),
        },
        _ => r is None,
    }
}

/// A confined run found along a quickest way is what [`confined_way`] allows.
proof fn lemma_confined_way_found(
    positions: Seq<Point>,
    segs: Seq<Segment>,
    from: Point,
    to: Point,
    a: int,
    b: int,
    nodes: Seq<NodeId>,
    walk: (Seq<Point>, Seq<Option<Speed>>),
)
    requires
        nearest(positions, from, TERMINAL_REACH as int) == Some(a),
        nearest(positions, to, TERMINAL_REACH as int) == Some(b),
        reachable(segs, a, b),
        quickest_way(segs, nodes, a, b),
        walk == walked(
            seq![from],
            Seq::empty(),
            confined_steps(positions, segs, nodes).push((to, Some(Speed(15_000u64)))),
        ),
    ensures
        confined_way(positions, segs, from, to, Some(walk)),
{
}

/// The run a confined vehicle takes through its own network, and `None` where
/// it cannot: either end out of reach of the way, or the way not joining them.
fn confined_run(from: Point, to: Point, net: &Network) -> (r: Option<PathBuilder>)
    requires
        net.wf(),
    ensures
        r matches Some(builder) ==> builder.wf(),
        confined_way(net.positions(), net.segs(), from, to, match r {
            Some(builder) => Some((builder.path@, builder.limit@)),
            None => None,
        }),
{
    let start = net.nearest_node(from, Metres(TERMINAL_REACH));
    let finish = net.nearest_node(to, Metres(TERMINAL_REACH));
    proof {
        match start {
            Some(x) => lemma_nearest_is(net.positions(), from, TERMINAL_REACH as int, x.0 as int),
            None => lemma_nearest_none(net.positions(), from, TERMINAL_REACH as int),
        }
        match finish {
            Some(x) => lemma_nearest_is(net.positions(), to, TERMINAL_REACH as int, x.0 as int),
            None => lemma_nearest_none(net.positions(), to, TERMINAL_REACH as int),
        }
    }
    let start = match start {
        Some(s) => s,
        None => return None,
    };
    let finish = match finish {
        Some(f) => f,
        None => return None,
    };
    let route = match net.route(start, finish) {
        Some(r) => r,
        None => {
            assert(confined_way(net.positions(), net.segs(), from, to, None));
            return None;
        },
    };
    let ghost segs = net.segs();
    let ghost positions = net.positions();
    let ghost nodes = route.nodes@;
    let ghost ks = choose|ks: Seq<int>|
        #[trigger] is_path(segs, ids(nodes), ks) && cap_millis(path_cost(segs, ks)) == route.time.millis
            && no_cheaper(segs, start.0 as int, finish.0 as int, path_cost(segs, ks));
    proof {
        assert(ids(nodes)[0] == nodes[0].0);
        lemma_path_in_range(net, ids(nodes), ks);
        assert forall|i: int| 0 <= i < nodes.len() implies (#[trigger] nodes[i]).0 < positions.len() by {
            assert(ids(nodes)[i] == nodes[i].0);
        }
    }
    let ghost steps = confined_steps(positions, segs, nodes);
    let mut b = PathBuilder::from(from);
    let first = route.nodes[0];
    let first_at = net.position_of(first).unwrap();
    b.step(first_at, Some(shunting()));
    proof {
        assert(steps.take(1).drop_last() =~= Seq::<(Point, Option<Speed>)>::empty());
        assert(steps.take(1).last() == steps[0]);
        assert(steps[0] == (positions[nodes[0].0 as int], Some(Speed(15_000u64))));
        assert(first_at == positions[nodes[0].0 as int]);
        assert(walked(seq![from], Seq::empty(), Seq::<(Point, Option<Speed>)>::empty()) == (
        seq![from], Seq::<Option<Speed>>::empty()));
        assert(walked(seq![from], Seq::empty(), steps.take(1)) == (b.path@, b.limit@));
    }
    let mut i: usize = 1;
    while i < route.nodes.len()
        invariant
            1 <= i <= route.nodes@.len(),
            nodes == route.nodes@,
            net.wf(),
            segs == net.segs(),
            positions == net.positions(),
            steps == confined_steps(positions, segs, nodes),
            forall|j: int| 0 <= j < nodes.len() ==> (#[trigger] nodes[j]).0 < positions.len(),
            b.wf(),
            (b.path@, b.limit@) == walked(seq![from], Seq::empty(), steps.take(i as int)),
        decreases route.nodes@.len() - i,
    {
        let previous = route.nodes[i - 1];
        let node = route.nodes[i];
        let limit = net.speed_between(previous, node);
        proof {
            lemma_best_speed_is(segs, previous, node, limit);
        }
        let at = net.position_of(node).unwrap();
        b.step(at, limit);
        proof {
            assert(steps.take(i + 1).drop_last() =~= steps.take(i as int));
            assert(steps.take(i + 1).last() == steps[i as int]);
        }
        i = i + 1;
    }
    b.step(to, Some(shunting()));
    proof {
        assert(steps.take(i as int) =~= steps);
        let all = steps.push((to, Some(Speed(15_000u64))));
        assert(all.drop_last() == steps);
        assert(all.last() == (to, Some(Speed(15_000u64))));
        assert(walked(seq![from], Seq::empty(), all) == (b.path@, b.limit@));
        assert(is_path(segs, ids(nodes), ks) && no_cheaper(segs, start.0 as int, finish.0 as int, path_cost(segs, ks)));
        assert(quickest_way(segs, nodes, start.0 as int, finish.0 as int));
        assert(ids(nodes)[0] == start.0 && ids(nodes).last() == finish.0);
        assert(path_between(segs, ids(nodes), ks, start.0 as int, finish.0 as int));
        assert(reachable(segs, start.0 as int, finish.0 as int));
        lemma_confined_way_found(
            positions,
            segs,
            from,
            to,
            start.0 as int,
            finish.0 as int,
            nodes,
            (b.path@, b.limit@),
        );
    }
    Some(b)
}

/// A confined run as planned: its walk, or the bare shunt from start to end
/// when the walk goes nowhere or has more legs than a journey counts, with
/// the first leg timed from `now` at the vehicle's own pace capped by the way.
pub open spec fn run_planned(
    on_road: Speed,
    cross_country: Speed,
    from: Point,
    to: Point,
    now: Seconds,
    run: (Seq<Point>, Seq<Option<Speed>>),
    j: Journey,
) -> bool {
    let walk = if run.0.len() < 2 || run.0.len() > u32::MAX {
        (seq![from, to], seq![Some(Speed(15_000u64))])
    } else {
        run
    };
    let first = leg_millis(distance(walk.0[0], walk.0[1]), pace(walk.1[0], on_road, cross_country, 0) as int);
    &&& j.path@ == walk.0
    &&& j.limit@ == walk.1
    &&& j.leg == 0
    &&& j.leg_start == now
    &&& j.leg_end.millis == if now.millis + first <= u64::MAX {
        now.millis + first
    } else {
        u64::MAX as int
    }
}

/// Plan a journey for a vehicle of any medium.
///
/// `None` is a real answer and the whole mechanic. A lorry can always get
/// somewhere, however slowly, so a road vehicle always plans, as [`plan`]
/// does. A train, a barge or an aeroplane cannot leave its network, so if
/// either end is out of reach of it there is no journey. Every hop of a
/// confined run carries a limit, the shunt in and out of the yard included,
/// and nothing on it consults the ground: a barge does not care that it
/// rained.
pub fn plan_for(
    medium: Medium,
    from: Point,
    to: Point,
    ways: Ways,
    crossing: &Crossing,
    on_road: Speed,
    cross_country: Speed,
    road_drag: u64,
    now: Seconds,
) -> (r: Option<Journey>)
    requires
        ways.roads.wf(),
        ways.rides(medium).wf(),
        crossing.wf(),
    ensures
        r matches Some(j) ==> j.wf(),
        medium == Medium::Road ==> r is Some && exists|
            way: Option<Seq<Point>>,
            road: Option<(Seq<Point>, Seq<Option<Speed>>)>,
        |
            crossing.way_found(from, to, way) && road_way(ways.roads.positions(), ways.roads.segs(), from, to, road)
                && #[trigger] drive_planned(*crossing, road_drag, on_road, cross_country, from, to, now, way, road, r->0),
        medium != Medium::Road ==> exists|run: Option<(Seq<Point>, Seq<Option<Speed>>)>|
            #[trigger] confined_way(ways.rides(medium).positions(), ways.rides(medium).segs(), from, to, run) && match run {
                None => r is None,
                Some(walk) => r is Some && run_planned(on_road, cross_country, from, to, now, walk, r->0),
            },
{
    if medium.free_ranging() {
        let j = plan(from, to, ways.roads, crossing, on_road, cross_country, road_drag, now);
        let r = Some(j);
        assert(r->0 == j);
        return r;
    }
    let net = ways.of(medium);
    let run = confined_run(from, to, net);
    let ghost run_seq: Option<(Seq<Point>, Seq<Option<Speed>>)> = match &run {
        Some(b) => Some((b.path@, b.limit@)),
        None => None,
    };
    let b = match run {
        Some(b) => b,
        None => {
            assert(confined_way(ways.rides(medium).positions(), ways.rides(medium).segs(), from, to, run_seq));
            return None;
        },
    };
    let ghost walk = if (run_seq->0).0.len() < 2 || (run_seq->0).0.len() > u32::MAX {
        (seq![from, to], seq![Some(Speed(15_000u64))])
    } else {
        run_seq->0
    };
    let (path, limit) = if b.path.len() < 2 || b.path.len() > 0xFFFF_FFFF {
        let p = vec![from, to];
        let l = vec![Some(shunting())];
        assert(p@ =~= seq![from, to]);
        assert(l@ =~= seq![Some(Speed(15_000u64))]);
        (p, l)
    } else {
        (b.path, b.limit)
    };
    assert(path@ == walk.0 && limit@ == walk.1);
    let first = leg_ticks(path[0].distance_to(path[1]), pace_of(limit[0], on_road, cross_country, 0));
    let room = u64::MAX - now.millis;
    let capped = Seconds { millis: if first.millis <= room { first.millis } else { room } };
    let j = Journey::begin(path, limit, now, capped);
    assert(confined_way(ways.rides(medium).positions(), ways.rides(medium).segs(), from, to, run_seq));
    assert(run_planned(on_road, cross_country, from, to, now, run_seq->0, j));
    Some(j)
}

} // verus!
