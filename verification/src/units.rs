//! Real quantities, held as integers.
//!
//! Every measure the simulation reasons about has a real unit: a distance is
//! in metres, a mass in tonnes, a speed in metres per hour and a duration in
//! milliseconds. They are whole numbers so that every answer is exact and
//! reproduces bit for bit on any machine: a shared seed is a promise between
//! players, and integer arithmetic is the arithmetic that keeps it.
//!
//! Distances between points are the floor of the true Euclidean distance,
//! computed with an exact integer square root.

use vstd::prelude::*;

verus! {

/// A distance or a depth, in whole metres.
#[derive(Debug, Clone, Copy, PartialEq, Eq, Structural, PartialOrd, Ord, Hash)]
pub struct Metres(pub i64);

impl Metres {
    /// No distance at all.
    pub fn zero() -> (m: Metres)
        ensures
            m.0 == 0,
    {
        Metres(0)
    }
}

/// A mass, in whole tonnes. Never negative: a shortfall is a smaller
/// delivery, not a debt.
#[derive(Debug, Clone, Copy, PartialEq, Eq, Structural, PartialOrd, Ord, Hash)]
pub struct Tonnes(pub u64);

impl Tonnes {
    /// Nothing at all.
    pub fn zero() -> (t: Tonnes)
        ensures
            t.0 == 0,
    {
        Tonnes(0)
    }

    pub fn is_positive(self) -> (r: bool)
        ensures
            r == (self.0 > 0),
    {
        self.0 > 0
    }

    /// The smaller of two masses.
    pub fn min(self, other: Tonnes) -> (r: Tonnes)
        ensures
            r.0 == if self.0 <= other.0 { self.0 } else { other.0 },
    {
        if self.0 <= other.0 {
            self
        } else {
            other
        }
    }

    /// Take `other` away, stopping at nothing rather than going negative.
    pub fn saturating_sub(self, other: Tonnes) -> (r: Tonnes)
        ensures
            r.0 == if self.0 >= other.0 { self.0 - other.0 } else { 0 },
    {
        if self.0 >= other.0 {
            Tonnes(self.0 - other.0)
        } else {
            Tonnes(0)
        }
    }
}

/// A speed, in metres per hour.
#[derive(Debug, Clone, Copy, PartialEq, Eq, Structural, PartialOrd, Ord, Hash)]
pub struct Speed(pub u64);

/// A duration, in milliseconds.
#[derive(Debug, Clone, Copy, PartialEq, Eq, Structural, PartialOrd, Ord, Hash)]
pub struct Seconds {
    pub millis: u64,
}

/// A position on the ground plane.
#[derive(Debug, Clone, Copy, PartialEq, Eq, Structural, Hash)]
pub struct Point {
    pub x: Metres,
    pub y: Metres,
}

/// Milliseconds in an hour.
pub const MILLIS_PER_HOUR: u64 = 3_600_000;

/// The integer square root: the largest `r` whose square does not exceed `n`.
pub open spec fn is_isqrt(r: int, n: int) -> bool {
    0 <= r && r * r <= n && n < (r + 1) * (r + 1)
}

/// The integer square root of a non-negative number.
pub open spec fn isqrt(n: int) -> int {
    choose|r: int| is_isqrt(r, n)
}

/// There is only one integer square root.
pub proof fn lemma_isqrt_unique(r1: int, r2: int, n: int)
    requires
        is_isqrt(r1, n),
        is_isqrt(r2, n),
    ensures
        r1 == r2,
{
    if r1 < r2 {
        assert((r1 + 1) * (r1 + 1) <= r2 * r2) by (nonlinear_arith)
            requires
                0 <= r1 < r2,
        ;
    } else if r2 < r1 {
        assert((r2 + 1) * (r2 + 1) <= r1 * r1) by (nonlinear_arith)
            requires
                0 <= r2 < r1,
        ;
    }
}

/// A root that has been found is the one `isqrt` names.
pub proof fn lemma_isqrt_is(r: int, n: int)
    requires
        is_isqrt(r, n),
    ensures
        isqrt(n) == r,
{
    let c = choose|c: int| is_isqrt(c, n);
    assert(is_isqrt(c, n));
    lemma_isqrt_unique(c, r, n);
}

/// The root of a larger number is no smaller.
pub proof fn lemma_isqrt_monotone(r1: int, n1: int, r2: int, n2: int)
    requires
        is_isqrt(r1, n1),
        is_isqrt(r2, n2),
        n1 <= n2,
    ensures
        r1 <= r2,
{
    if r2 < r1 {
        assert((r2 + 1) * (r2 + 1) <= r1 * r1) by (nonlinear_arith)
            requires
                0 <= r2 < r1,
        ;
    }
}

/// The exact integer square root, by bisection.
pub fn isqrt_u128(n: u128) -> (r: u64)
    ensures
        is_isqrt(r as int, n as int),
{
    let mut lo: u128 = 0;
    let mut hi: u128 = 0x1_0000_0000_0000_0000;
    assert(hi * hi == 0x1_0000_0000_0000_0000_0000_0000_0000_0000int);
    while hi - lo > 1
        invariant
            lo < hi <= 0x1_0000_0000_0000_0000,
            lo * lo <= n,
            n < hi * hi,
        decreases hi - lo,
    {
        let mid = lo + (hi - lo) / 2;
        assert(mid < 0x1_0000_0000_0000_0000);
        assert(mid * mid < 0x1_0000_0000_0000_0000_0000_0000_0000_0000int) by (nonlinear_arith)
            requires
                mid < 0x1_0000_0000_0000_0000,
        ;
        if mid * mid <= n {
            lo = mid;
        } else {
            hi = mid;
        }
    }
    assert(hi == lo + 1);
    lo as u64
}

/// The floor of the Euclidean distance between two points, capped at the
/// largest distance a `Metres` can hold.
pub open spec fn distance(a: Point, b: Point) -> int {
    let dx = b.x.0 - a.x.0;
    let dy = b.y.0 - a.y.0;
    let r = isqrt(dx * dx + dy * dy);
    if r <= i64::MAX {
        r
    } else {
        i64::MAX as int
    }
}

/// A point is no distance from itself.
pub proof fn lemma_distance_self(p: Point)
    ensures
        distance(p, p) == 0,
{
    assert(is_isqrt(0, 0));
    lemma_isqrt_is(0, 0);
}

/// How long covering `length` metres takes at `speed` metres per hour, in
/// milliseconds — rounded down, and capped at the longest duration a
/// `Seconds` can hold. Standing still never arrives.
pub open spec fn travel_millis(length: int, speed: int) -> int {
    if speed == 0 {
        u64::MAX as int
    } else {
        let t = length * (MILLIS_PER_HOUR as int) / speed;
        if t <= u64::MAX {
            t
        } else {
            u64::MAX as int
        }
    }
}

impl Point {
    /// The corner of the map every coordinate is measured from.
    pub fn origin() -> (p: Point)
        ensures
            p.x.0 == 0,
            p.y.0 == 0,
    {
        Point { x: Metres(0), y: Metres(0) }
    }

    pub fn new(x: Metres, y: Metres) -> (p: Point)
        ensures
            p.x == x,
            p.y == y,
    {
        Point { x, y }
    }

    /// Straight-line distance to another point.
    pub fn distance_to(self, other: Point) -> (d: Metres)
        ensures
            d.0 == distance(self, other),
            d.0 >= 0,
    {
        let dx: i128 = other.x.0 as i128 - self.x.0 as i128;
        let dy: i128 = other.y.0 as i128 - self.y.0 as i128;
        let ax: u128 = if dx < 0 { (-dx) as u128 } else { dx as u128 };
        let ay: u128 = if dy < 0 { (-dy) as u128 } else { dy as u128 };
        assert(ax < 0x1_0000_0000_0000_0000);
        assert(ay < 0x1_0000_0000_0000_0000);
        assert(ax * ax < 0x1_0000_0000_0000_0000_0000_0000_0000_0000int) by (nonlinear_arith)
            requires
                ax < 0x1_0000_0000_0000_0000,
        ;
        assert(ay * ay < 0x1_0000_0000_0000_0000_0000_0000_0000_0000int) by (nonlinear_arith)
            requires
                ay < 0x1_0000_0000_0000_0000,
        ;
        let sx = ax * ax;
        let sy = ay * ay;
        assert(sx as int == dx * dx) by (nonlinear_arith)
            requires
                sx == ax * ax,
                ax == dx || ax == -dx,
        ;
        assert(sy as int == dy * dy) by (nonlinear_arith)
            requires
                sy == ay * ay,
                ay == dy || ay == -dy,
        ;
        let sum: u128 = sx.saturating_add(sy);
        let r = isqrt_u128(sum);
        proof {
            let n = dx * dx + dy * dy;
            exists_isqrt(n);
            if n <= u128::MAX {
                assert(sum as int == n);
                lemma_isqrt_is(r as int, n);
            } else {
                // The true root is at least the root of the cap, which is
                // already past anything a `Metres` can hold.
                let c = choose|c: int| is_isqrt(c, n);
                assert(sum == u128::MAX);
                assert(is_isqrt(0xFFFF_FFFF_FFFF_FFFFint, u128::MAX as int)) by (nonlinear_arith);
                lemma_isqrt_unique(r as int, 0xFFFF_FFFF_FFFF_FFFFint, u128::MAX as int);
                lemma_isqrt_is(c, n);
                lemma_isqrt_monotone(r as int, sum as int, c, n);
            }
            assert(distance(self, other) == if isqrt(n) <= i64::MAX { isqrt(n) } else { i64::MAX as int });
        }
        if r > i64::MAX as u64 {
            Metres(i64::MAX)
        } else {
            Metres(r as i64)
        }
    }
}

/// A distance is never negative.
pub proof fn lemma_distance_nonneg(a: Point, b: Point)
    ensures
        0 <= distance(a, b) <= i64::MAX,
{
    let dx = b.x.0 - a.x.0;
    let dy = b.y.0 - a.y.0;
    let n = dx * dx + dy * dy;
    assert(dx * dx >= 0) by (nonlinear_arith);
    assert(dy * dy >= 0) by (nonlinear_arith);
    exists_isqrt(n);
}

/// Every non-negative number has an integer square root.
pub proof fn exists_isqrt(n: int)
    requires
        n >= 0,
    ensures
        exists|r: int| is_isqrt(r, n),
    decreases n,
{
    if n == 0 {
        assert(is_isqrt(0, 0));
    } else {
        exists_isqrt(n - 1);
        let r = choose|r: int| #[trigger] is_isqrt(r, n - 1);
        if n < (r + 1) * (r + 1) {
            assert(is_isqrt(r, n));
        } else {
            assert(n == (r + 1) * (r + 1));
            assert(n < (r + 2) * (r + 2)) by (nonlinear_arith)
                requires
                    n == (r + 1) * (r + 1),
                    r >= 0,
            ;
            assert(is_isqrt(r + 1, n));
        }
    }
}

impl Speed {
    /// Standing still.
    pub fn zero() -> (s: Speed)
        ensures
            s.0 == 0,
    {
        Speed(0)
    }

    /// A speed given in kilometres per hour.
    pub fn from_kph(kph: u64) -> (s: Speed)
        requires
            kph <= u64::MAX / 1000,
        ensures
            s.0 == kph * 1000,
    {
        Speed(kph * 1000)
    }

    /// How long it takes to cover a distance at this speed.
    pub fn time_to_cover(self, length: Metres) -> (t: Seconds)
        requires
            length.0 >= 0,
        ensures
            t.millis == travel_millis(length.0 as int, self.0 as int),
    {
        if self.0 == 0 {
            return Seconds { millis: u64::MAX };
        }
        let len = length.0 as u128;
        assert(len * (MILLIS_PER_HOUR as u128) < 0x1_0000_0000_0000_0000_0000_0000) by (nonlinear_arith)
            requires
                len < 0x1_0000_0000_0000_0000,
        ;
        let t = len * (MILLIS_PER_HOUR as u128) / (self.0 as u128);
        if t > u64::MAX as u128 {
            Seconds { millis: u64::MAX }
        } else {
            Seconds { millis: t as u64 }
        }
    }
}

impl Seconds {
    /// No time at all.
    pub fn zero() -> (t: Seconds)
        ensures
            t.millis == 0,
    {
        Seconds { millis: 0 }
    }

    /// A whole number of seconds.
    pub fn from_secs(secs: u64) -> (t: Seconds)
        requires
            secs <= u64::MAX / 1000,
        ensures
            t.millis == secs * 1000,
    {
        Seconds { millis: secs * 1000 }
    }

    /// Whole minutes, rounded down.
    pub fn whole_minutes(self) -> (m: u64)
        ensures
            m == self.millis / 60_000,
    {
        self.millis / 60_000
    }
}

/// The coordinate `step` of `steps` of the way from `a` to `b`, rounded
/// toward `a`.
pub open spec fn lerp(a: i64, b: i64, step: int, steps: int) -> int {
    if b >= a {
        a + (b - a) * step / steps
    } else {
        a - (a - b) * step / steps
    }
}

pub fn lerp_exec(a: i64, b: i64, step: u64, steps: u64) -> (r: i64)
    requires
        0 < steps,
        step <= steps,
    ensures
        r == lerp(a, b, step as int, steps as int),
        step == steps ==> r == b,
{
    if b >= a {
        let d = (b as i128 - a as i128) as u128;
        proof {
            assert(d * step <= d * steps) by (nonlinear_arith)
                requires step <= steps, d >= 0;
            assert(d * step / (steps as int) <= d) by (nonlinear_arith)
                requires step <= steps, steps > 0, d >= 0;
            assert(d * steps / (steps as int) == d) by (nonlinear_arith)
                requires steps > 0, d >= 0;
            assert(d * step <= 0xFFFF_FFFF_FFFF_FFFF * 0xFFFF_FFFF_FFFF_FFFF) by (nonlinear_arith)
                requires d <= 0xFFFF_FFFF_FFFF_FFFF, step <= 0xFFFF_FFFF_FFFF_FFFF;
        }
        let off = d * (step as u128) / (steps as u128);
        (a as i128 + off as i128) as i64
    } else {
        let d = (a as i128 - b as i128) as u128;
        proof {
            assert(d * step <= d * steps) by (nonlinear_arith)
                requires step <= steps, d >= 0;
            assert(d * step / (steps as int) <= d) by (nonlinear_arith)
                requires step <= steps, steps > 0, d >= 0;
            assert(d * steps / (steps as int) == d) by (nonlinear_arith)
                requires steps > 0, d >= 0;
            assert(d * step <= 0xFFFF_FFFF_FFFF_FFFF * 0xFFFF_FFFF_FFFF_FFFF) by (nonlinear_arith)
                requires d <= 0xFFFF_FFFF_FFFF_FFFF, step <= 0xFFFF_FFFF_FFFF_FFFF;
        }
        let off = d * (step as u128) / (steps as u128);
        (a as i128 - off as i128) as i64
    }
}

/// The dot product of two offsets is at most the product of their lengths'
/// bounds, strictly, when each length is below its bound.
proof fn lemma_dot_below(ux: int, uy: int, vx: int, vy: int, p: int, q: int)
    requires
        p > 0,
        q > 0,
        ux * ux + uy * uy < p * p,
        vx * vx + vy * vy < q * q,
    ensures
        ux * vx + uy * vy < p * q,
{
    let d = ux * vx + uy * vy;
    let a = ux * ux + uy * uy;
    let b = vx * vx + vy * vy;
    let e = ux * vy - uy * vx;
    let p1 = ux * vx;
    let p2 = uy * vy;
    let p3 = ux * vy;
    let p4 = uy * vx;
    assert((ux * ux) * (vx * vx) == p1 * p1) by (nonlinear_arith)
        requires
            p1 == ux * vx,
    ;
    assert((ux * ux) * (vy * vy) == p3 * p3) by (nonlinear_arith)
        requires
            p3 == ux * vy,
    ;
    assert((uy * uy) * (vx * vx) == p4 * p4) by (nonlinear_arith)
        requires
            p4 == uy * vx,
    ;
    assert((uy * uy) * (vy * vy) == p2 * p2) by (nonlinear_arith)
        requires
            p2 == uy * vy,
    ;
    assert(p1 * p2 == p3 * p4) by (nonlinear_arith)
        requires
            p1 == ux * vx,
            p2 == uy * vy,
            p3 == ux * vy,
            p4 == uy * vx,
    ;
    let a1 = ux * ux;
    let a2 = uy * uy;
    let b1 = vx * vx;
    let b2 = vy * vy;
    assert(a * b == a1 * b1 + a1 * b2 + a2 * b1 + a2 * b2) by (nonlinear_arith)
        requires
            a == a1 + a2,
            b == b1 + b2,
    ;
    assert(d * d == p1 * p1 + 2 * (p1 * p2) + p2 * p2) by (nonlinear_arith)
        requires
            d == p1 + p2,
    ;
    assert(e * e == p3 * p3 - 2 * (p3 * p4) + p4 * p4) by (nonlinear_arith)
        requires
            e == p3 - p4,
    ;
    assert(a * b == d * d + e * e);
    assert(e * e >= 0) by (nonlinear_arith);
    assert(a >= 0 && b >= 0) by (nonlinear_arith)
        requires
            a == ux * ux + uy * uy,
            b == vx * vx + vy * vy,
    ;
    assert(a * b < (p * p) * (q * q)) by (nonlinear_arith)
        requires
            0 <= a < p * p,
            0 <= b < q * q,
    ;
    if d >= p * q {
        assert(p * q > 0) by (nonlinear_arith)
            requires
                p > 0,
                q > 0,
        ;
        assert(d * d >= (p * q) * (p * q)) by (nonlinear_arith)
            requires
                d >= p * q,
                p * q > 0,
        ;
        assert((p * q) * (p * q) == (p * p) * (q * q)) by (nonlinear_arith);
    }
}

/// Going by way of a third point is never shorter, but for the rounding of
/// each distance down to whole metres: at most one metre is lost.
pub proof fn lemma_distance_triangle(a: Point, b: Point, c: Point)
    ensures
        distance(a, c) <= distance(a, b) + distance(b, c) + 1,
{
    lemma_distance_nonneg(a, b);
    lemma_distance_nonneg(b, c);
    lemma_distance_nonneg(a, c);
    let ux = b.x.0 - a.x.0;
    let uy = b.y.0 - a.y.0;
    let vx = c.x.0 - b.x.0;
    let vy = c.y.0 - b.y.0;
    let nu = ux * ux + uy * uy;
    let nv = vx * vx + vy * vy;
    let nw = (ux + vx) * (ux + vx) + (uy + vy) * (uy + vy);
    assert(nu >= 0 && nv >= 0 && nw >= 0) by (nonlinear_arith)
        requires
            nu == ux * ux + uy * uy,
            nv == vx * vx + vy * vy,
            nw == (ux + vx) * (ux + vx) + (uy + vy) * (uy + vy),
    ;
    exists_isqrt(nu);
    exists_isqrt(nv);
    exists_isqrt(nw);
    let ru = isqrt(nu);
    let rv = isqrt(nv);
    let rw = isqrt(nw);
    assert(is_isqrt(ru, nu));
    assert(is_isqrt(rv, nv));
    assert(is_isqrt(rw, nw));
    assert(c.x.0 - a.x.0 == ux + vx);
    assert(c.y.0 - a.y.0 == uy + vy);
    if ru <= i64::MAX && rv <= i64::MAX {
        let p = ru + 1;
        let q = rv + 1;
        lemma_dot_below(ux, uy, vx, vy, p, q);
        assert(nw == nu + nv + 2 * (ux * vx + uy * vy)) by (nonlinear_arith)
            requires
                nu == ux * ux + uy * uy,
                nv == vx * vx + vy * vy,
                nw == (ux + vx) * (ux + vx) + (uy + vy) * (uy + vy),
        ;
        assert((p + q) * (p + q) == p * p + q * q + 2 * (p * q)) by (nonlinear_arith);
        assert(nw < (p + q) * (p + q));
        if rw >= p + q {
            assert(rw * rw >= (p + q) * (p + q)) by (nonlinear_arith)
                requires
                    rw >= p + q,
                    p + q > 0,
            ;
        }
    }
}

} // verus!
