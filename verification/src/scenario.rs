//! Founding a republic that can actually run: what the founding puts down,
//! and how it looks for somewhere to put each thing.

use crate::building::{building_def, building_index, new_site, placement, Building, BuildingId, BuildingKind, Buildings};
use crate::citizen::{Age, CitizenId, CitizenRecord, Home, Learning, Population, Workplace, SCHOOL_DAYS};
use crate::geology::{key_leq, workable, Deposit, Geology, Mineral};
use crate::resource::{Resource, Stock};
use crate::units::{Metres, Point, Tonnes};
use vstd::prelude::*;

verus! {

/// What the founding managed to put down.
#[derive(Debug, Clone, PartialEq, Eq)]
pub struct StartingBase {
    pub housing: Vec<BuildingId>,
    pub mine: Option<BuildingId>,
    pub plant: Option<BuildingId>,
    pub woodcutter: Option<BuildingId>,
    pub sawmill: Option<BuildingId>,
    pub store: Option<BuildingId>,
    pub construction_office: Option<BuildingId>,
    pub depot: Option<BuildingId>,
    /// The garage the republic's lorries live in. Without it nothing moves.
    pub motor_depot: Option<BuildingId>,
    pub farm: Option<BuildingId>,
    pub food_factory: Option<BuildingId>,
    pub textile_mill: Option<BuildingId>,
    pub boiler: Option<BuildingId>,
    /// `None` when the border could not take a crossing.
    pub customs: Option<BuildingId>,
    /// The transformer stations the town plugs into.
    pub substations: Vec<BuildingId>,
    /// Where the town centre ended up.
    pub centre: Point,
}

/// The founding grant, in hundredths of a rouble: two and a half million
/// roubles. It is roubles, which is why which bloc's posts the land reaches is
/// the first thing that matters about a posting.
pub const GRANT_ROUBLES: u64 = 250_000_000;

/// The settlers sent with the posting: enough to staff what was sent with
/// them, and not one more.
pub const SETTLERS: usize = 143;

/// The farthest a site search may start from the origin, or reach, in metres.
pub const SEARCH_LIMIT: i64 = 0x100_0000_0000;

/// The rank a coal body is chosen by: how deep it starts, then its id.
pub open spec fn coal_key(d: Deposit) -> (i64, u32) {
    (d.top.0, d.id.0)
}

/// Whether `i` is the coal body a founding sites its town on: the shallowest
/// body still holding coal, the lowest id among equally shallow ones, and the
/// first stored among bodies that rank the same.
pub open spec fn first_coal(ds: Seq<Deposit>, i: int) -> bool {
    &&& 0 <= i < ds.len()
    &&& workable(ds[i], Mineral::Coal)
    &&& forall|j: int|
        0 <= j < ds.len() && #[trigger] workable(ds[j], Mineral::Coal) ==> key_leq(coal_key(ds[i]), coal_key(ds[j]))
    &&& forall|j: int|
        0 <= j < i && #[trigger] workable(ds[j], Mineral::Coal) ==> coal_key(ds[j]) != coal_key(ds[i])
}

/// Whether `c` is where a founding puts its town: the middle of the
/// shallowest coal body, or the middle of the map when there is no coal.
pub open spec fn town_centre(geology: Geology, extent: Metres, c: Point) -> bool {
    ||| exists|i: int| #[trigger] first_coal(geology@, i) && c == geology@[i].centre
    ||| (forall|j: int| 0 <= j < geology@.len() ==> !#[trigger] workable(geology@[j], Mineral::Coal)) && c == Point {
        x: Metres((extent.0 / 2) as i64),
        y: Metres((extent.0 / 2) as i64),
    }
}

/// Where a founding puts its town: on the shallowest coal body, since that is
/// what a republic would actually do, and in the middle of the map when there
/// is no coal at all. `extent` is the side of the map.
pub fn town_site(geology: &Geology, extent: Metres) -> (c: Point)
    requires
        extent.0 >= 0,
    ensures
        town_centre(*geology, extent, c),
{
    let ds = geology.all();
    let mut best: Option<usize> = None;
    let mut i: usize = 0;
    while i < ds.len()
        invariant
            i <= ds@.len(),
            ds@ == geology@,
            match best {
                None => forall|j: int| 0 <= j < i ==> !#[trigger] workable(ds@[j], Mineral::Coal),
                Some(b) => {
                    &&& b < i
                    &&& workable(ds@[b as int], Mineral::Coal)
                    &&& forall|j: int|
                        0 <= j < i && #[trigger] workable(ds@[j], Mineral::Coal) ==> key_leq(
                            coal_key(ds@[b as int]),
                            coal_key(ds@[j]),
                        )
                    &&& forall|j: int|
                        0 <= j < b && #[trigger] workable(ds@[j], Mineral::Coal) ==> coal_key(ds@[j]) != coal_key(
                            ds@[b as int],
                        )
                },
            },
        decreases ds@.len() - i,
    {
        let d = &ds[i];
        if d.mineral == Mineral::Coal && !d.is_exhausted() {
            let better = match best {
                None => true,
                Some(b) => d.top.0 < ds[b].top.0 || (d.top.0 == ds[b].top.0 && d.id.0 < ds[b].id.0),
            };
            if better {
                best = Some(i);
            }
        }
        i = i + 1;
    }
    match best {
        Some(b) => {
            assert(first_coal(geology@, b as int));
            ds[b].centre
        },
        None => Point { x: Metres(extent.0 / 2), y: Metres(extent.0 / 2) },
    }
}

/// The candidate `(dx, dy)` steps from `near`.
pub open spec fn spot(near: Point, step: i64, dx: int, dy: int) -> Point {
    Point { x: Metres((near.x.0 + dx * step) as i64), y: Metres((near.y.0 + dy * step) as i64) }
}

pub open spec fn abs(v: int) -> int {
    if v < 0 {
        -v
    } else {
        v
    }
}

/// How many steps out from the start a candidate is: its ring of the spiral.
pub open spec fn ring_of(dx: int, dy: int) -> int {
    if abs(dx) >= abs(dy) {
        abs(dx)
    } else {
        abs(dy)
    }
}

/// Whether candidate `(dx, dy)` comes before `(ex, ey)` in the search: an
/// inner ring first, and within a ring row by row, then column by column.
pub open spec fn searched_before(dx: int, dy: int, ex: int, ey: int) -> bool {
    ring_of(dx, dy) < ring_of(ex, ey) || (ring_of(dx, dy) == ring_of(ex, ey) && (dy < ey || (dy == ey && dx < ex)))
}

/// Whether a candidate was tried and turned down: the terrain answered, and
/// with that answer the building would not go there.
pub open spec fn turned_down<F: Fn(Point) -> bool>(
    buildings: Buildings,
    geology: Geology,
    kind: BuildingKind,
    near: Point,
    step: i64,
    ground_takes_it: F,
    dx: int,
    dy: int,
) -> bool {
    exists|b: bool|
        call_ensures(ground_takes_it, (spot(near, step, dx, dy),), b) && #[trigger] placement(
            buildings.buildings(),
            kind,
            spot(near, step, dx, dy),
            b,
            geology@,
        ) is Err
}

/// Whether `p` is the first candidate of the search where the building would
/// go: a candidate within reach, placeable with the terrain's answer, and
/// every candidate before it turned down.
pub open spec fn first_workable<F: Fn(Point) -> bool>(
    buildings: Buildings,
    geology: Geology,
    kind: BuildingKind,
    near: Point,
    within: Metres,
    step: i64,
    ground_takes_it: F,
    p: Point,
) -> bool {
    exists|dx: int, dy: int|
        #![trigger spot(near, step, dx, dy)]
        {
            &&& ring_of(dx, dy) <= (within.0 + step - 1) / (step as int)
            &&& p == spot(near, step, dx, dy)
            &&& exists|b: bool|
                call_ensures(ground_takes_it, (p,), b) && #[trigger] placement(buildings.buildings(), kind, p, b, geology@)
                    is Ok
            &&& forall|ex: int, ey: int|
                #[trigger] searched_before(ex, ey, dx, dy) ==> turned_down(
                    buildings,
                    geology,
                    kind,
                    near,
                    step,
                    ground_takes_it,
                    ex,
                    ey,
                )
        }
}

/// Search outward from `near` for somewhere this kind of building will stand,
/// in a square spiral of `step`-metre steps reaching `within`: deterministic,
/// and it finds the nearest workable site rather than the first a random
/// search stumbles into. `ground_takes_it` is the terrain's answer for a
/// footprint at a point.
///
/// `Some` names the first candidate of the spiral where the building would
/// go; every candidate before it was turned down. `None` when every
/// candidate was.
pub fn find_site<F: Fn(Point) -> bool>(
    buildings: &Buildings,
    geology: &Geology,
    kind: BuildingKind,
    near: Point,
    within: Metres,
    step: i64,
    ground_takes_it: F,
) -> (r: Option<Point>)
    requires
        1 <= step <= SEARCH_LIMIT,
        within.0 <= SEARCH_LIMIT,
        -SEARCH_LIMIT <= near.x.0 <= SEARCH_LIMIT,
        -SEARCH_LIMIT <= near.y.0 <= SEARCH_LIMIT,
        forall|p: Point| call_requires(ground_takes_it, (p,)),
    ensures
        r matches Some(p) ==> first_workable(*buildings, *geology, kind, near, within, step, ground_takes_it, p),
        r is None ==> forall|ex: int, ey: int|
            ring_of(ex, ey) <= (within.0 + step - 1) / (step as int) ==> #[trigger] turned_down(
                *buildings,
                *geology,
                kind,
                near,
                step,
                ground_takes_it,
                ex,
                ey,
            ),
{
    if within.0 >= 0 {
        return spiral_search(buildings, geology, kind, near, within, step, ground_takes_it);
    }
    // A reach short of nothing still looks at the point itself, as long as it
    // is less than one step short; a whole step short, it looks nowhere.
    if within.0 <= -step {
        assert((within.0 + step - 1) / (step as int) < 0) by (nonlinear_arith)
            requires
                within.0 + step - 1 < 0,
                step >= 1,
        ;
        return None;
    }
    assert((within.0 + step - 1) / (step as int) == 0) by (nonlinear_arith)
        requires
            0 <= within.0 + step - 1 < step,
            step >= 1,
    ;
    assert((0 + step - 1) / (step as int) == 0) by (nonlinear_arith)
        requires
            step >= 1,
    ;
    spiral_search(buildings, geology, kind, near, Metres(0), step, ground_takes_it)
}

/// The spiral itself, for a reach of nothing or more.
fn spiral_search<F: Fn(Point) -> bool>(
    buildings: &Buildings,
    geology: &Geology,
    kind: BuildingKind,
    near: Point,
    within: Metres,
    step: i64,
    ground_takes_it: F,
) -> (r: Option<Point>)
    requires
        1 <= step <= SEARCH_LIMIT,
        0 <= within.0 <= SEARCH_LIMIT,
        -SEARCH_LIMIT <= near.x.0 <= SEARCH_LIMIT,
        -SEARCH_LIMIT <= near.y.0 <= SEARCH_LIMIT,
        forall|p: Point| call_requires(ground_takes_it, (p,)),
    ensures
        r matches Some(p) ==> first_workable(*buildings, *geology, kind, near, within, step, ground_takes_it, p),
        r is None ==> forall|ex: int, ey: int|
            ring_of(ex, ey) <= (within.0 + step - 1) / (step as int) ==> #[trigger] turned_down(
                *buildings,
                *geology,
                kind,
                near,
                step,
                ground_takes_it,
                ex,
                ey,
            ),
{
    let rings: i64 = (within.0 + step - 1) / step;
    assert(0 <= rings <= SEARCH_LIMIT && rings * step <= within.0 + step) by (nonlinear_arith)
        requires
            rings == (within.0 + step - 1) / (step as int),
            1 <= step,
            0 <= within.0 <= SEARCH_LIMIT,
    ;
    let mut ring: i64 = 0;
    while ring <= rings
        invariant
            1 <= step <= SEARCH_LIMIT,
            0 <= within.0 <= SEARCH_LIMIT,
            -SEARCH_LIMIT <= near.x.0 <= SEARCH_LIMIT,
            -SEARCH_LIMIT <= near.y.0 <= SEARCH_LIMIT,
            forall|p: Point| call_requires(ground_takes_it, (p,)),
            rings == (within.0 + step - 1) / (step as int),
            0 <= rings <= SEARCH_LIMIT,
            rings * step <= within.0 + step,
            0 <= ring <= rings + 1,
            forall|ex: int, ey: int|
                ring_of(ex, ey) < ring ==> #[trigger] turned_down(
                    *buildings,
                    *geology,
                    kind,
                    near,
                    step,
                    ground_takes_it,
                    ex,
                    ey,
                ),
        decreases rings + 1 - ring,
    {
        let mut dy: i64 = -ring;
        while dy <= ring
            invariant
                1 <= step <= SEARCH_LIMIT,
                -SEARCH_LIMIT <= near.x.0 <= SEARCH_LIMIT,
                -SEARCH_LIMIT <= near.y.0 <= SEARCH_LIMIT,
                forall|p: Point| call_requires(ground_takes_it, (p,)),
                0 <= rings <= SEARCH_LIMIT,
                rings == (within.0 + step - 1) / (step as int),
                0 <= within.0 <= SEARCH_LIMIT,
                rings * step <= within.0 + step,
                0 <= ring <= rings,
                -ring <= dy <= ring + 1,
                forall|ex: int, ey: int|
                    (ring_of(ex, ey) < ring || (ring_of(ex, ey) == ring && ey < dy)) ==> #[trigger] turned_down(
                        *buildings,
                        *geology,
                        kind,
                        near,
                        step,
                        ground_takes_it,
                        ex,
                        ey,
                    ),
            decreases ring + 1 - dy,
        {
            let mut dx: i64 = -ring;
            while dx <= ring
                invariant
                    1 <= step <= SEARCH_LIMIT,
                    -SEARCH_LIMIT <= near.x.0 <= SEARCH_LIMIT,
                    -SEARCH_LIMIT <= near.y.0 <= SEARCH_LIMIT,
                    forall|p: Point| call_requires(ground_takes_it, (p,)),
                    0 <= rings <= SEARCH_LIMIT,
                    rings == (within.0 + step - 1) / (step as int),
                    0 <= within.0 <= SEARCH_LIMIT,
                    rings * step <= within.0 + step,
                    0 <= ring <= rings,
                    -ring <= dy <= ring,
                    -ring <= dx <= ring + 1,
                    forall|ex: int, ey: int|
                        (ring_of(ex, ey) < ring || (ring_of(ex, ey) == ring && (ey < dy || (ey == dy && ex < dx))))
                            ==> #[trigger] turned_down(*buildings, *geology, kind, near, step, ground_takes_it, ex, ey),
                decreases ring + 1 - dx,
            {
                // Only the perimeter of this ring: the inside was searched on
                // an earlier pass.
                let on_ring = ring == 0 || dx == ring || dx == -ring || dy == ring || dy == -ring;
                if on_ring {
                    assert(-2 * SEARCH_LIMIT <= dx * step <= 2 * SEARCH_LIMIT) by (nonlinear_arith)
                        requires
                            -ring <= dx <= ring,
                            0 <= ring <= rings,
                            rings * step <= within.0 + step,
                            within.0 <= SEARCH_LIMIT,
                            1 <= step <= SEARCH_LIMIT,
                    ;
                    assert(-2 * SEARCH_LIMIT <= dy * step <= 2 * SEARCH_LIMIT) by (nonlinear_arith)
                        requires
                            -ring <= dy <= ring,
                            0 <= ring <= rings,
                            rings * step <= within.0 + step,
                            within.0 <= SEARCH_LIMIT,
                            1 <= step <= SEARCH_LIMIT,
                    ;
                    let candidate = Point::new(Metres(near.x.0 + dx * step), Metres(near.y.0 + dy * step));
                    assert(candidate == spot(near, step, dx as int, dy as int));
                    let answer = ground_takes_it(candidate);
                    let verdict = buildings.can_place(kind, candidate, answer, geology);
                    if verdict.is_ok() {
                        proof {
                            assert(ring_of(dx as int, dy as int) == ring);
                            assert(call_ensures(ground_takes_it, (candidate,), answer));
                            assert(placement(buildings.buildings(), kind, candidate, answer, geology@) is Ok);
                            assert forall|ex: int, ey: int| #[trigger] searched_before(ex, ey, dx as int, dy as int) implies turned_down(
                                *buildings,
                                *geology,
                                kind,
                                near,
                                step,
                                ground_takes_it,
                                ex,
                                ey,
                            ) by {
                            }
                            assert(ring_of(dx as int, dy as int) <= rings);
                            assert(spot(near, step, dx as int, dy as int) == candidate);
                            assert(exists|b: bool|
                                call_ensures(ground_takes_it, (candidate,), b) && #[trigger] placement(
                                    buildings.buildings(),
                                    kind,
                                    candidate,
                                    b,
                                    geology@,
                                ) is Ok);
                            let wx = dx as int;
                            let wy = dy as int;
                            assert(forall|ex: int, ey: int|
                                #[trigger] searched_before(ex, ey, wx, wy) ==> turned_down(
                                    *buildings,
                                    *geology,
                                    kind,
                                    near,
                                    step,
                                    ground_takes_it,
                                    ex,
                                    ey,
                                ));
                            assert(ring_of(wx, wy) <= (within.0 + step - 1) / (step as int));
                        }
                        assert(first_workable(*buildings, *geology, kind, near, within, step, ground_takes_it, candidate));
                        return Some(candidate);
                    }
                    proof {
                        assert(placement(buildings.buildings(), kind, spot(near, step, dx as int, dy as int), answer, geology@) is Err);
                        assert(turned_down(*buildings, *geology, kind, near, step, ground_takes_it, dx as int, dy as int));
                    }
                }
                proof {
                    assert forall|ex: int, ey: int|
                        (ring_of(ex, ey) < ring || (ring_of(ex, ey) == ring && (ey < dy || (ey == dy && ex < dx + 1))))
                            implies #[trigger] turned_down(*buildings, *geology, kind, near, step, ground_takes_it, ex, ey) by {
                        if ring_of(ex, ey) == ring && ey == dy && ex == dx {
                            assert(on_ring);
                        }
                    }
                }
                dx = dx + 1;
            }
            dy = dy + 1;
        }
        proof {
            assert forall|ex: int, ey: int| ring_of(ex, ey) < ring + 1 implies #[trigger] turned_down(
                *buildings,
                *geology,
                kind,
                near,
                step,
                ground_takes_it,
                ex,
                ey,
            ) by {
                if ring_of(ex, ey) == ring {
                    assert(ey <= ring);
                }
            }
        }
        ring = ring + 1;
    }
    None
}


/// Where a founding building is asked for: its kind, its offset from the town
/// centre in metres, and how far from there the site search may reach.
///
/// The order is the founding's, and it is load-bearing: labour fills
/// workplaces in commissioning order, so the order things are founded in is
/// their staffing priority. The mine first; housing close enough to walk to
/// everything; power and heat together, because they are the two
/// life-support systems; the transformer stations the town plugs into; then
/// haulage, which is life-support too, the materials chain, a shop and the
/// office that builds everything after this, a depot for the grant, and the
/// food chain and clothes.
pub open spec fn founding_requests() -> Seq<(BuildingKind, i64, i64, i64)> {
    seq![
        (BuildingKind::CoalMine, 0i64, 0i64, 400i64),
        (BuildingKind::Apartment, 300i64, 0i64, 600i64),
        (BuildingKind::Apartment, 420i64, 0i64, 600i64),
        (BuildingKind::Apartment, 540i64, 0i64, 600i64),
        (BuildingKind::PowerPlant, 0i64, 500i64, 800i64),
        (BuildingKind::HeatingPlant, 200i64, -450i64, 1_000i64),
        (BuildingKind::TransformerStation, -150i64, 180i64, 250i64),
        (BuildingKind::TransformerStation, 400i64, 150i64, 250i64),
        (BuildingKind::TransformerStation, -50i64, -400i64, 250i64),
        (BuildingKind::MotorDepot, -300i64, -500i64, 1_000i64),
        (BuildingKind::Woodcutter, -600i64, 0i64, 1_000i64),
        (BuildingKind::Sawmill, -400i64, 0i64, 1_000i64),
        (BuildingKind::Store, 250i64, 150i64, 400i64),
        (BuildingKind::ConstructionOffice, 0i64, -300i64, 600i64),
        (BuildingKind::Depot, 150i64, -200i64, 600i64),
        (BuildingKind::Farm, 0i64, 900i64, 1_000i64),
        (BuildingKind::FoodFactory, 400i64, 400i64, 1_000i64),
        (BuildingKind::TextileMill, -200i64, 400i64, 1_000i64),
    ]
}

fn requests() -> (r: [(BuildingKind, i64, i64, i64); 18])
    ensures
        r@ == founding_requests(),
{
    let r = [
        (BuildingKind::CoalMine, 0i64, 0i64, 400i64),
        (BuildingKind::Apartment, 300, 0, 600),
        (BuildingKind::Apartment, 420, 0, 600),
        (BuildingKind::Apartment, 540, 0, 600),
        (BuildingKind::PowerPlant, 0, 500, 800),
        (BuildingKind::HeatingPlant, 200, -450, 1_000),
        (BuildingKind::TransformerStation, -150, 180, 250),
        (BuildingKind::TransformerStation, 400, 150, 250),
        (BuildingKind::TransformerStation, -50, -400, 250),
        (BuildingKind::MotorDepot, -300, -500, 1_000),
        (BuildingKind::Woodcutter, -600, 0, 1_000),
        (BuildingKind::Sawmill, -400, 0, 1_000),
        (BuildingKind::Store, 250, 150, 400),
        (BuildingKind::ConstructionOffice, 0, -300, 600),
        (BuildingKind::Depot, 150, -200, 600),
        (BuildingKind::Farm, 0, 900, 1_000),
        (BuildingKind::FoodFactory, 400, 400, 1_000),
        (BuildingKind::TextileMill, -200, 400, 1_000),
    ];
    assert(r@ =~= founding_requests());
    r
}

/// The point `(dx, dy)` metres from `c`.
pub open spec fn offset(c: Point, dx: i64, dy: i64) -> Point {
    Point { x: Metres((c.x.0 + dx) as i64), y: Metres((c.y.0 + dy) as i64) }
}

/// What one founding request did: put the building up finished and fresh, at
/// the first workable site of the search, or, when every candidate within
/// reach was turned down, left everything as it was.
pub open spec fn put_done<F: Fn(Point) -> bool>(
    before: Buildings,
    after: Buildings,
    geology: Geology,
    kind: BuildingKind,
    near: Point,
    within: Metres,
    step: i64,
    ground_takes_it: F,
    r: Option<BuildingId>,
) -> bool {
    &&& after.wf()
    &&& match r {
        Some(id) => {
            &&& id == BuildingId(before.next_id_spec())
            &&& after.next_id_spec() == before.next_id_spec() + 1
            &&& after.buildings().len() == before.buildings().len() + 1
            &&& after.buildings().drop_last() == before.buildings()
            &&& after.buildings().last().id == id
            &&& after.buildings().last().kind == kind
            &&& after.buildings().last().work_done == building_def(kind).labour
            &&& first_workable(before, geology, kind, near, within, step, ground_takes_it, after.buildings().last().centre)
            &&& match placement(before.buildings(), kind, after.buildings().last().centre, true, geology@) {
                Ok(tapped) => new_site(after.buildings().last(), id, kind, after.buildings().last().centre, tapped),
                Err(_) => false,
            }
        },
        None => {
            &&& after == before
            &&& forall|ex: int, ey: int|
                ring_of(ex, ey) <= (within.0 + step - 1) / (step as int) ==> #[trigger] turned_down(
                    before,
                    geology,
                    kind,
                    near,
                    step,
                    ground_takes_it,
                    ex,
                    ey,
                )
        },
    }
}

/// Put one founding building up, finished, at the first workable site near
/// `near`; nothing only when every candidate within reach was turned down.
fn put<F: Fn(Point) -> bool + Copy>(
    buildings: &mut Buildings,
    geology: &Geology,
    kind: BuildingKind,
    near: Point,
    within: Metres,
    step: i64,
    ground_takes_it: F,
) -> (r: Option<BuildingId>)
    requires
        old(buildings).wf(),
        old(buildings).next_id_spec() < u32::MAX,
        1 <= step <= SEARCH_LIMIT,
        0 <= within.0 <= SEARCH_LIMIT,
        -SEARCH_LIMIT <= near.x.0 <= SEARCH_LIMIT,
        -SEARCH_LIMIT <= near.y.0 <= SEARCH_LIMIT,
        forall|p: Point| call_requires(ground_takes_it, (p,)),
    ensures
        put_done(*old(buildings), *final(buildings), *geology, kind, near, within, step, ground_takes_it, r),
{
    let site = find_site(buildings, geology, kind, near, within, step, ground_takes_it);
    match site {
        None => None,
        Some(p) => {
            // The search saw the ground take the building here, so it stands:
            // the terrain is not asked twice.
            proof {
                let b = choose|b: bool|
                    call_ensures(ground_takes_it, (p,), b) && #[trigger] placement(
                        old(buildings).buildings(),
                        kind,
                        p,
                        b,
                        geology@,
                    ) is Ok;
                assert(b);
            }
            match buildings.place_built(kind, p, true, geology) {
                Ok(id) => Some(id),
                Err(_) => None,
            }
        },
    }
}

/// The ids of the requests that put something up, in order.
pub open spec fn put_up(results: Seq<Option<BuildingId>>) -> Seq<BuildingId>
    decreases results.len(),
{
    if results.len() == 0 {
        Seq::empty()
    } else {
        let rest = put_up(results.drop_last());
        match results.last() {
            Some(id) => rest.push(id),
            None => rest,
        }
    }
}

/// Every founding request carried out in turn, from `states[0]` to
/// `states[18]`, each around its offset from the town centre.
pub open spec fn requests_done<F: Fn(Point) -> bool>(
    geology: Geology,
    centre: Point,
    step: i64,
    ground_takes_it: F,
    states: Seq<Buildings>,
    results: Seq<Option<BuildingId>>,
) -> bool {
    &&& states.len() == 19
    &&& results.len() == 18
    &&& forall|k: int|
        0 <= k < 18 ==> #[trigger] put_done(
            states[k],
            states[k + 1],
            geology,
            founding_requests()[k].0,
            offset(centre, founding_requests()[k].1, founding_requests()[k].2),
            Metres(founding_requests()[k].3),
            step,
            ground_takes_it,
            results[k],
        )
}

/// The customs house, at the frontier post the land gives the town, put up
/// finished when the ground there takes it.
pub open spec fn customs_done<F: Fn(Point) -> bool>(
    before: Buildings,
    after: Buildings,
    geology: Geology,
    ground_takes_it: F,
    post: Option<Point>,
    r: Option<BuildingId>,
) -> bool {
    &&& after.wf()
    &&& match post {
        None => r is None && after == before,
        Some(p) => exists|b: bool|
            call_ensures(ground_takes_it, (p,), b) && match #[trigger] placement(
                before.buildings(),
                BuildingKind::Customs,
                p,
                b,
                geology@,
            ) {
                Ok(tapped) => {
                    &&& r == Some(BuildingId(before.next_id_spec()))
                    &&& after.next_id_spec() == before.next_id_spec() + 1
                    &&& after.buildings().drop_last() == before.buildings()
                    &&& after.buildings().len() == before.buildings().len() + 1
                    &&& new_site(after.buildings().last(), BuildingId(before.next_id_spec()), BuildingKind::Customs, p, tapped)
                    &&& after.buildings().last().work_done == building_def(BuildingKind::Customs).labour
                },
                Err(_) => r is None && after == before,
            },
    }
}

/// What Moscow's opening grant puts where: coal to light the plant before
/// the mine produces; food, clothes and the first building materials at the
/// depot; diesel at the motor depot, because a republic with no refinery yet
/// still has to move things. Tonnes.
pub open spec fn grants(base: StartingBase) -> Seq<(Option<BuildingId>, Resource, u64)> {
    seq![
        (base.plant, Resource::Coal, 60u64),
        (base.depot, Resource::Food, 120u64),
        (base.depot, Resource::Clothes, 40u64),
        (base.depot, Resource::Planks, 80u64),
        (base.depot, Resource::Bricks, 80u64),
        (base.motor_depot, Resource::Fuel, 20u64),
    ]
}

/// One grant delivered: the building's stock of `r` grows by `t`, and
/// nothing else changes.
pub open spec fn give_done(before: Buildings, after: Buildings, id: Option<BuildingId>, r: Resource, t: u64) -> bool {
    &&& after.wf()
    &&& after.next_id_spec() == before.next_id_spec()
    &&& match id {
        None => after.buildings() == before.buildings(),
        Some(id) => {
            let i = building_index(before.buildings(), id);
            if i < before.buildings().len() && before.buildings()[i].stock.amount_of(r) + t <= u64::MAX {
                exists|st: Stock|
                    #[trigger] st.amounts() == before.buildings()[i].stock.amounts().update(
                        r.rank(),
                        (before.buildings()[i].stock.amount_of(r) + t) as u64,
                    ) && after.buildings() == before.buildings().update(
                        i,
                        Building { stock: st, ..before.buildings()[i] },
                    )
            } else {
                after.buildings() == before.buildings()
            }
        },
    }
}

/// Every grant delivered in turn, from `states[0]` to `states[6]`.
pub open spec fn grants_done(base: StartingBase, states: Seq<Buildings>) -> bool {
    &&& states.len() == 7
    &&& forall|k: int|
        0 <= k < 6 ==> #[trigger] give_done(states[k], states[k + 1], grants(base)[k].0, grants(base)[k].1, grants(base)[k].2)
}

/// The settlers, spread evenly over the housing that went up, with ages
/// spread across working life so the republic is not a single cohort that
/// retires at once. Ids follow on from the last one issued, and every
/// settler is of working age and so schooled.
pub open spec fn settlers(housing: Seq<BuildingId>, citizens: nat, first: nat) -> Seq<CitizenRecord> {
    if housing.len() == 0 {
        Seq::empty()
    } else {
        Seq::new(
            citizens,
            |i: int|
                CitizenRecord {
                    id: CitizenId((first + i) as u32),
                    home: Home(housing[i % housing.len() as int]),
                    workplace: Workplace(None),
                    age: Age((18 + i % 40) as u32),
                    learning: Learning { days: SCHOOL_DAYS, studying: false },
                },
        )
    }
}

fn give(buildings: &mut Buildings, id: Option<BuildingId>, r: Resource, t: u64)
    requires
        old(buildings).wf(),
    ensures
        give_done(*old(buildings), *final(buildings), id, r, t),
{
    if let Some(id) = id {
        buildings.deliver(id, r, t);
    }
}

/// The founding carried out: every request in turn from the buildings there
/// were before, each field of `base` the answer to its request, then the
/// customs house, then the grant, ending at `after`.
pub open spec fn founding_done<F: Fn(Point) -> bool>(
    geology: Geology,
    step: i64,
    ground_takes_it: F,
    post: Option<Point>,
    base: StartingBase,
    before: Buildings,
    after: Buildings,
    states: Seq<Buildings>,
    results: Seq<Option<BuildingId>>,
    opened: Buildings,
    delivered: Seq<Buildings>,
) -> bool {
    &&& requests_done(geology, base.centre, step, ground_takes_it, states, results)
    &&& states[0] == before
    &&& base.mine == results[0]
    &&& base.housing@ == put_up(results.subrange(1, 4))
    &&& base.plant == results[4]
    &&& base.boiler == results[5]
    &&& base.substations@ == put_up(results.subrange(6, 9))
    &&& base.motor_depot == results[9]
    &&& base.woodcutter == results[10]
    &&& base.sawmill == results[11]
    &&& base.store == results[12]
    &&& base.construction_office == results[13]
    &&& base.depot == results[14]
    &&& base.farm == results[15]
    &&& base.food_factory == results[16]
    &&& base.textile_mill == results[17]
    &&& customs_done(states[18], opened, geology, ground_takes_it, post, base.customs)
    &&& delivered[0] == opened
    &&& grants_done(base, delivered)
    &&& after.buildings() == delivered[6].buildings()
    &&& after.next_id_spec() == delivered[6].next_id_spec()
}

/// Found a republic that can actually run: site the town, put the founding
/// buildings up finished at the first workable site of each search, open a
/// customs house at the frontier post the land gives it, deliver Moscow's
/// grant and settle the settlers.
///
/// `step` is the site search's stride, two cells of the terrain;
/// `ground_takes_it` is the terrain's answer for a footprint at a point;
/// `post` is the frontier post nearest the town centre, if the border has
/// one. Settlers go to `people`, spread over whatever housing went up, and
/// there are none when no housing did.
pub fn found<F: Fn(Point) -> bool + Copy>(
    geology: &Geology,
    buildings: &mut Buildings,
    extent: Metres,
    step: i64,
    ground_takes_it: F,
    post: Option<Point>,
    citizens: usize,
    population: &mut Population,
) -> (base: StartingBase)
    requires
        old(buildings).wf(),
        old(buildings).next_id_spec() + 20 < u32::MAX,
        1 <= step <= SEARCH_LIMIT,
        0 <= extent.0 <= SEARCH_LIMIT,
        forall|i: int|
            0 <= i < geology@.len() ==> -SEARCH_LIMIT + 1_000 <= (#[trigger] geology@[i]).centre.x.0 <= SEARCH_LIMIT
                - 1_000 && -SEARCH_LIMIT + 1_000 <= geology@[i].centre.y.0 <= SEARCH_LIMIT - 1_000,
        old(population).wf(),
        old(population).next_id_spec() + citizens < u32::MAX,
        forall|p: Point| call_requires(ground_takes_it, (p,)),
    ensures
        town_centre(*geology, extent, base.centre),
        exists|
            states: Seq<Buildings>,
            results: Seq<Option<BuildingId>>,
            opened: Buildings,
            delivered: Seq<Buildings>,
        |
            #[trigger] founding_done(
                *geology,
                step,
                ground_takes_it,
                post,
                base,
                *old(buildings),
                *final(buildings),
                states,
                results,
                opened,
                delivered,
            ),
        final(buildings).wf(),
        final(population).wf(),
        final(population).people() == old(population).people() + settlers(
            base.housing@,
            citizens as nat,
            old(population).next_id_spec() as nat,
        ),
{
    let centre = town_site(geology, extent);
    proof {
        if exists|i: int| #[trigger] first_coal(geology@, i) && centre == geology@[i].centre {
            let i = choose|i: int| #[trigger] first_coal(geology@, i) && centre == geology@[i].centre;
            assert(-SEARCH_LIMIT + 1_000 <= geology@[i].centre.x.0);
        }
    }
    let asked = requests();
    let ghost mut states: Seq<Buildings> = seq![*buildings];
    let mut results: Vec<Option<BuildingId>> = Vec::new();
    let mut k: usize = 0;
    while k < 18
        invariant
            k <= 18,
            asked@ == founding_requests(),
            buildings.wf(),
            buildings.next_id_spec() <= old(buildings).next_id_spec() + k,
            old(buildings).next_id_spec() + 20 < u32::MAX,
            1 <= step <= SEARCH_LIMIT,
            -SEARCH_LIMIT + 1_000 <= centre.x.0 <= SEARCH_LIMIT - 1_000,
            -SEARCH_LIMIT + 1_000 <= centre.y.0 <= SEARCH_LIMIT - 1_000,
            forall|p: Point| call_requires(ground_takes_it, (p,)),
            states.len() == k + 1,
            results@.len() == k,
            states[0] == *old(buildings),
            states[k as int] == *buildings,
            forall|j: int|
                0 <= j < k ==> #[trigger] put_done(
                    states[j],
                    states[j + 1],
                    *geology,
                    founding_requests()[j].0,
                    offset(centre, founding_requests()[j].1, founding_requests()[j].2),
                    Metres(founding_requests()[j].3),
                    step,
                    ground_takes_it,
                    results@[j],
                ),
        decreases 18 - k,
    {
        let (kind, dx, dy, reach) = asked[k];
        let near = Point { x: Metres(centre.x.0 + dx), y: Metres(centre.y.0 + dy) };
        let r = put(buildings, geology, kind, near, Metres(reach), step, ground_takes_it);
        results.push(r);
        proof {
            states = states.push(*buildings);
        }
        k = k + 1;
    }
    let ghost mid = *buildings;
    let customs = match post {
        Some(p) => {
            let takes = ground_takes_it(p);
            match buildings.place_built(BuildingKind::Customs, p, takes, geology) {
                Ok(id) => Some(id),
                Err(_) => None,
            }
        },
        None => None,
    };
    let ghost opened = *buildings;
    let mut housing: Vec<BuildingId> = Vec::new();
    let mut h: usize = 1;
    while h < 4
        invariant
            1 <= h <= 4,
            results@.len() == 18,
            housing@ == put_up(results@.subrange(1, h as int)),
        decreases 4 - h,
    {
        proof {
            assert(results@.subrange(1, h + 1).drop_last() =~= results@.subrange(1, h as int));
        }
        if let Some(id) = results[h] {
            housing.push(id);
        }
        h = h + 1;
    }
    let mut substations: Vec<BuildingId> = Vec::new();
    let mut t: usize = 6;
    while t < 9
        invariant
            6 <= t <= 9,
            results@.len() == 18,
            substations@ == put_up(results@.subrange(6, t as int)),
        decreases 9 - t,
    {
        proof {
            assert(results@.subrange(6, t + 1).drop_last() =~= results@.subrange(6, t as int));
        }
        if let Some(id) = results[t] {
            substations.push(id);
        }
        t = t + 1;
    }
    let base = StartingBase {
        housing,
        mine: results[0],
        plant: results[4],
        woodcutter: results[10],
        sawmill: results[11],
        store: results[12],
        construction_office: results[13],
        depot: results[14],
        motor_depot: results[9],
        farm: results[15],
        food_factory: results[16],
        textile_mill: results[17],
        boiler: results[5],
        customs,
        substations,
        centre,
    };
    // Moscow's opening grant.
    let ghost mut delivered: Seq<Buildings> = seq![*buildings];
    give(buildings, base.plant, Resource::Coal, 60);
    proof { delivered = delivered.push(*buildings); }
    give(buildings, base.depot, Resource::Food, 120);
    proof { delivered = delivered.push(*buildings); }
    give(buildings, base.depot, Resource::Clothes, 40);
    proof { delivered = delivered.push(*buildings); }
    give(buildings, base.depot, Resource::Planks, 80);
    proof { delivered = delivered.push(*buildings); }
    give(buildings, base.depot, Resource::Bricks, 80);
    proof { delivered = delivered.push(*buildings); }
    give(buildings, base.motor_depot, Resource::Fuel, 20);
    proof {
        delivered = delivered.push(*buildings);
        assert forall|k: int| 0 <= k < 6 implies #[trigger] give_done(
            delivered[k],
            delivered[k + 1],
            grants(base)[k].0,
            grants(base)[k].1,
            grants(base)[k].2,
        ) by {
        }
        assert(grants_done(base, delivered));
        assert(requests_done(*geology, base.centre, step, ground_takes_it, states, results@));
        assert(founding_done(
            *geology,
            step,
            ground_takes_it,
            post,
            base,
            *old(buildings),
            *buildings,
            states,
            results@,
            opened,
            delivered,
        ));
    }
    // Settlers, spread evenly over what housing exists.
    let ghost first = population.next_id_spec() as nat;
    let n = base.housing.len();
    if n > 0 {
        let mut i: usize = 0;
        while i < citizens
            invariant
                i <= citizens,
                n == base.housing@.len(),
                n > 0,
                first == old(population).next_id_spec(),
                first + citizens < u32::MAX,
                population.wf(),
                population.next_id_spec() == first + i,
                population.people() == old(population).people() + settlers(base.housing@, citizens as nat, first).take(i as int),
            decreases citizens - i,
        {
            population.spawn_citizen(base.housing[i % n], (18 + i % 40) as u32);
            i = i + 1;
            proof {
                assert(population.people() =~= old(population).people() + settlers(base.housing@, citizens as nat, first).take(i as int));
            }
        }
        proof {
            assert(settlers(base.housing@, citizens as nat, first).take(i as int) =~= settlers(
                base.housing@,
                citizens as nat,
                first,
            ));
        }
    } else {
        assert(settlers(base.housing@, citizens as nat, first) =~= Seq::<CitizenRecord>::empty());
        assert(population.people() =~= old(population).people() + settlers(base.housing@, citizens as nat, first));
    }
    base
}

} // verus!
