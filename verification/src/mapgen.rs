//! Generating a world from a seed.
//!
//! A shared seed is a promise between players: two machines given the same
//! seed must produce the same ground. Generation therefore draws whole numbers
//! only, every one of them from the seeded stream in a fixed order, and
//! [`generate_geology`] states exactly which deposits a seed yields.
//!
//! Every value is drawn uniformly from its plan's range, inclusive-low and
//! exclusive-high; a range with nothing in it gives its low end without a
//! draw.

use crate::geology::{Deposit, DepositId, Geology, Layer, Mineral};
use crate::rng::{draw, seeded_state, Rng};
use crate::units::{Metres, Point, Tonnes};
use vstd::prelude::*;

verus! {

/// Substream identifier for geology, so map generation never shares draws
/// with anything else.
pub const GEOLOGY_STREAM: u64 = 1;

/// How to scatter one mineral through the ground. Ranges are inclusive-low,
/// exclusive-high.
#[derive(Debug, Clone, Copy, PartialEq, Eq)]
pub struct MineralPlan {
    pub mineral: Mineral,
    /// How many separate bodies to place.
    pub bodies: u32,
    pub radius: (Metres, Metres),
    /// Depth to the top of the body.
    pub top: (Metres, Metres),
    pub layers: u32,
    pub layer_thickness: (Metres, Metres),
    pub tonnes_per_layer: (Tonnes, Tonnes),
}

/// The starting geology of a republic: gravel shallow and everywhere, coal and
/// iron worth siting a town around, oil scarcer and deeper, groundwater broad
/// and enormous.
pub open spec fn default_plan_spec() -> Seq<MineralPlan> {
    seq![
        MineralPlan {
            mineral: Mineral::Gravel,
            bodies: 6,
            radius: (Metres(150), Metres(400)),
            top: (Metres(0), Metres(8)),
            layers: 2,
            layer_thickness: (Metres(3), Metres(8)),
            tonnes_per_layer: (Tonnes(40_000), Tonnes(120_000)),
        },
        MineralPlan {
            mineral: Mineral::Coal,
            bodies: 4,
            radius: (Metres(200), Metres(600)),
            top: (Metres(20), Metres(120)),
            layers: 4,
            layer_thickness: (Metres(8), Metres(25)),
            tonnes_per_layer: (Tonnes(150_000), Tonnes(600_000)),
        },
        MineralPlan {
            mineral: Mineral::IronOre,
            bodies: 3,
            radius: (Metres(150), Metres(450)),
            top: (Metres(30), Metres(160)),
            layers: 3,
            layer_thickness: (Metres(10), Metres(30)),
            tonnes_per_layer: (Tonnes(100_000), Tonnes(400_000)),
        },
        MineralPlan {
            mineral: Mineral::Oil,
            bodies: 2,
            radius: (Metres(250), Metres(700)),
            top: (Metres(400), Metres(1_200)),
            layers: 3,
            layer_thickness: (Metres(20), Metres(60)),
            tonnes_per_layer: (Tonnes(80_000), Tonnes(300_000)),
        },
        MineralPlan {
            mineral: Mineral::Groundwater,
            bodies: 3,
            radius: (Metres(800), Metres(2_000)),
            top: (Metres(4), Metres(40)),
            layers: 1,
            layer_thickness: (Metres(10), Metres(40)),
            tonnes_per_layer: (Tonnes(500_000), Tonnes(2_000_000)),
        },
    ]
}

/// The starting geology of a republic.
pub fn default_plan() -> (r: [MineralPlan; 5])
    ensures
        r@ == default_plan_spec(),
{
    let r = [
        MineralPlan {
            mineral: Mineral::Gravel,
            bodies: 6,
            radius: (Metres(150), Metres(400)),
            top: (Metres(0), Metres(8)),
            layers: 2,
            layer_thickness: (Metres(3), Metres(8)),
            tonnes_per_layer: (Tonnes(40_000), Tonnes(120_000)),
        },
        MineralPlan {
            mineral: Mineral::Coal,
            bodies: 4,
            radius: (Metres(200), Metres(600)),
            top: (Metres(20), Metres(120)),
            layers: 4,
            layer_thickness: (Metres(8), Metres(25)),
            tonnes_per_layer: (Tonnes(150_000), Tonnes(600_000)),
        },
        MineralPlan {
            mineral: Mineral::IronOre,
            bodies: 3,
            radius: (Metres(150), Metres(450)),
            top: (Metres(30), Metres(160)),
            layers: 3,
            layer_thickness: (Metres(10), Metres(30)),
            tonnes_per_layer: (Tonnes(100_000), Tonnes(400_000)),
        },
        MineralPlan {
            mineral: Mineral::Oil,
            bodies: 2,
            radius: (Metres(250), Metres(700)),
            top: (Metres(400), Metres(1_200)),
            layers: 3,
            layer_thickness: (Metres(20), Metres(60)),
            tonnes_per_layer: (Tonnes(80_000), Tonnes(300_000)),
        },
        MineralPlan {
            mineral: Mineral::Groundwater,
            bodies: 3,
            radius: (Metres(800), Metres(2_000)),
            top: (Metres(4), Metres(40)),
            layers: 1,
            layer_thickness: (Metres(10), Metres(40)),
            tonnes_per_layer: (Tonnes(500_000), Tonnes(2_000_000)),
        },
    ];
    assert(r@ =~= default_plan_spec());
    r
}

/// A whole number drawn uniformly from `[lo, hi)`, and the state left after.
/// An empty range gives `lo` and draws nothing.
pub open spec fn draw_in(s: Seq<u64>, lo: int, hi: int) -> (int, Seq<u64>) {
    if lo < hi && hi - lo <= u64::MAX {
        let (x, t) = draw(s, (hi - lo) as u64);
        (lo + x, t)
    } else {
        (lo, s)
    }
}

/// A deposit as it comes out of the ground: its id, mineral, centre, radius,
/// depth to its top, and its layers shallowest first.
pub type BodyShape = (DepositId, Mineral, Point, Metres, Metres, Seq<Layer>);

/// What a deposit is, as a [`BodyShape`].
pub open spec fn shape_of(d: Deposit) -> BodyShape {
    (d.id, d.mineral, d.centre, d.radius, d.top, d.layers@)
}

/// What each deposit of a run is, in order.
#[verifier::opaque]
pub open spec fn shapes(ds: Seq<Deposit>) -> Seq<BodyShape> {
    ds.map_values(|d: Deposit| shape_of(d))
}

/// The first `n` layers of a body drawn from state `s`: each a thickness then
/// a tonnage.
#[verifier::opaque]
pub open spec fn layers_drawn(s: Seq<u64>, plan: MineralPlan, n: nat) -> (Seq<Layer>, Seq<u64>)
    decreases n,
{
    if n == 0 {
        (Seq::empty(), s)
    } else {
        let (prev, s1) = layers_drawn(s, plan, (n - 1) as nat);
        let (thickness, s2) = draw_in(s1, plan.layer_thickness.0.0 as int, plan.layer_thickness.1.0 as int);
        let (tonnes, s3) = draw_in(s2, plan.tonnes_per_layer.0.0 as int, plan.tonnes_per_layer.1.0 as int);
        (
            prev.push(
                Layer { thickness: Metres(thickness as i64), remaining: Tonnes(tonnes as u64), initial: Tonnes(tonnes as u64) },
            ),
            s3,
        )
    }
}

/// One body drawn from state `s`: its centre on the map, its radius, the
/// depth to its top, then its layers.
#[verifier::opaque]
pub open spec fn body_drawn(s: Seq<u64>, plan: MineralPlan, extent: i64, id: u32) -> (BodyShape, Seq<u64>) {
    let (x, s1) = draw_in(s, 0, extent as int);
    let (y, s2) = draw_in(s1, 0, extent as int);
    let (radius, s3) = draw_in(s2, plan.radius.0.0 as int, plan.radius.1.0 as int);
    let (top, s4) = draw_in(s3, plan.top.0.0 as int, plan.top.1.0 as int);
    let (layers, s5) = layers_drawn(s4, plan, plan.layers as nat);
    (
        (
            DepositId(id),
            plan.mineral,
            Point { x: Metres(x as i64), y: Metres(y as i64) },
            Metres(radius as i64),
            Metres(top as i64),
            layers,
        ),
        s5,
    )
}

/// The first `n` bodies of one plan entry, numbered from `first`.
#[verifier::opaque]
pub open spec fn bodies_drawn(s: Seq<u64>, plan: MineralPlan, extent: i64, first: nat, n: nat) -> (Seq<BodyShape>, Seq<u64>)
    decreases n,
{
    if n == 0 {
        (Seq::empty(), s)
    } else {
        let (prev, s1) = bodies_drawn(s, plan, extent, first, (n - 1) as nat);
        let (body, s2) = body_drawn(s1, plan, extent, (first + n - 1) as u32);
        (prev.push(body), s2)
    }
}

/// How many bodies a plan places.
#[verifier::opaque]
pub open spec fn planned_bodies(plan: Seq<MineralPlan>) -> nat
    decreases plan.len(),
{
    if plan.len() == 0 {
        0
    } else {
        planned_bodies(plan.drop_last()) + plan.last().bodies as nat
    }
}

/// Every body of a plan, entry by entry and body by body, numbered from
/// `first`: the draw order is the map.
#[verifier::opaque]
pub open spec fn plan_drawn(s: Seq<u64>, plan: Seq<MineralPlan>, extent: i64, first: nat) -> (Seq<BodyShape>, Seq<u64>)
    decreases plan.len(),
{
    if plan.len() == 0 {
        (Seq::empty(), s)
    } else {
        let (prev, s1) = plan_drawn(s, plan.drop_last(), extent, first);
        let (bodies, s2) = bodies_drawn(s1, plan.last(), extent, first + planned_bodies(plan.drop_last()), plan.last().bodies as nat);
        (prev + bodies, s2)
    }
}

/// The deposits a seed yields under a plan, on a map `extent` metres a side.
pub open spec fn generated(seed: u64, extent: i64, plan: Seq<MineralPlan>) -> Seq<BodyShape> {
    plan_drawn(seeded_state(seed), plan, extent, 1).0
}

/// Draw a whole number uniformly from `[lo, hi)`; `lo` when that is empty.
fn draw_between(rng: &mut Rng, lo: i128, hi: i128) -> (x: i128)
    requires
        lo < hi ==> hi - lo <= u64::MAX,
    ensures
        (x as int, final(rng)@) == draw_in(old(rng)@, lo as int, hi as int),
        lo < hi ==> lo <= x < hi,
{
    if lo < hi {
        let span = (hi - lo) as u64;
        let x = rng.next_bounded(span);
        lo + x as i128
    } else {
        lo
    }
}

/// The layers of one body, shallowest first.
fn draw_layers(rng: &mut Rng, entry: MineralPlan) -> (layers: Vec<Layer>)
    ensures
        (layers@, final(rng)@) == layers_drawn(old(rng)@, entry, entry.layers as nat),
{
    let ghost start = rng@;
    proof {
        reveal(layers_drawn);
        assert(layers_drawn(start, entry, 0) == (Seq::<Layer>::empty(), start));
    }
    let mut layers: Vec<Layer> = Vec::new();
    let mut k: u32 = 0;
    while k < entry.layers
        invariant
            k <= entry.layers,
            (layers@, rng@) == layers_drawn(start, entry, k as nat),
        decreases entry.layers - k,
    {
        let thickness = draw_between(rng, entry.layer_thickness.0.0 as i128, entry.layer_thickness.1.0 as i128);
        let tonnes = draw_between(rng, entry.tonnes_per_layer.0.0 as i128, entry.tonnes_per_layer.1.0 as i128);
        let layer = Layer::new(Metres(thickness as i64), Tonnes(tonnes as u64));
        let ghost before = layers@;
        layers.push(layer);
        proof {
            reveal(layers_drawn);
            assert(layers@ == before.push(layer));
        }
        k = k + 1;
    }
    layers
}

/// One body: its centre on the map, its radius, the depth to its top, then
/// its layers.
fn draw_body(rng: &mut Rng, entry: MineralPlan, extent: Metres, id: u32) -> (d: Deposit)
    ensures
        (shape_of(d), final(rng)@) == body_drawn(old(rng)@, entry, extent.0, id),
        d.id == DepositId(id),
{
    let x = draw_between(rng, 0, extent.0 as i128);
    let y = draw_between(rng, 0, extent.0 as i128);
    let radius = draw_between(rng, entry.radius.0.0 as i128, entry.radius.1.0 as i128);
    let top = draw_between(rng, entry.top.0.0 as i128, entry.top.1.0 as i128);
    let layers = draw_layers(rng, entry);
    proof {
        reveal(body_drawn);
    }
    Deposit::new(
        DepositId(id),
        entry.mineral,
        Point::new(Metres(x as i64), Metres(y as i64)),
        Metres(radius as i64),
        Metres(top as i64),
        layers,
    )
}

/// Every body of one plan entry, numbered from `first`.
fn place_bodies(rng: &mut Rng, geology: &mut Geology, entry: MineralPlan, extent: Metres, first: u32)
    requires
        first + entry.bodies <= u32::MAX,
        forall|j: int| 0 <= j < old(geology)@.len() ==> (#[trigger] old(geology)@[j]).id.0 < first,
    ensures
        final(geology)@.len() == old(geology)@.len() + entry.bodies,
        forall|j: int| 0 <= j < final(geology)@.len() ==> (#[trigger] final(geology)@[j]).id.0 < first + entry.bodies,
        shapes(final(geology)@) == shapes(old(geology)@)
            + bodies_drawn(old(rng)@, entry, extent.0, first as nat, entry.bodies as nat).0,
        final(rng)@ == bodies_drawn(old(rng)@, entry, extent.0, first as nat, entry.bodies as nat).1,
{
    let ghost start = rng@;
    let ghost before = shapes(geology@);
    proof {
        reveal(bodies_drawn);
        assert(before + bodies_drawn(start, entry, extent.0, first as nat, 0).0 =~= before);
        reveal(shapes);
    }
    let mut b: u32 = 0;
    while b < entry.bodies
        invariant
            b <= entry.bodies,
            first + entry.bodies <= u32::MAX,
            geology@.len() == old(geology)@.len() + b,
            forall|j: int| 0 <= j < geology@.len() ==> (#[trigger] geology@[j]).id.0 < first + b,
            shapes(geology@) == before + bodies_drawn(start, entry, extent.0, first as nat, b as nat).0,
            rng@ == bodies_drawn(start, entry, extent.0, first as nat, b as nat).1,
        decreases entry.bodies - b,
    {
        let d = draw_body(rng, entry, extent, first + b);
        proof {
            reveal(bodies_drawn);
            assert forall|j: int| 0 <= j < geology@.len() implies (#[trigger] geology@[j]).id != d.id by {}
            assert(!crate::geology::has_id(geology@, d.id));
        }
        let ghost old_geology = geology@;
        geology.insert(d);
        proof {
            reveal(shapes);
            assert(shapes(geology@) =~= shapes(old_geology).push(shape_of(d)));
            assert(before + bodies_drawn(start, entry, extent.0, first as nat, (b + 1) as nat).0 =~= (before
                + bodies_drawn(start, entry, extent.0, first as nat, b as nat).0).push(shape_of(d)));
            assert forall|j: int| 0 <= j < geology@.len() implies (#[trigger] geology@[j]).id.0 < first + b + 1 by {
                if j < old_geology.len() {
                    assert(geology@[j] == old_geology[j]);
                }
            }
        }
        b = b + 1;
    }
}

/// Generate the geology of a square map `extent` metres on a side.
///
/// Bodies are centred anywhere within the extent, including near an edge
/// where part of the body runs off the map. Deposits are numbered from one,
/// in plan order and then body order.
pub fn generate_geology(seed: u64, extent: Metres, plan: &[MineralPlan]) -> (g: Geology)
    requires
        planned_bodies(plan@) < u32::MAX,
    ensures
        shapes(g@) == generated(seed, extent.0, plan@),
        g@.len() == planned_bodies(plan@),
{
    let mut rng = Rng::from_seed(seed);
    let mut geology = Geology::new();
    let mut next_id: u32 = 1;
    let ghost start = rng@;
    let mut i: usize = 0;
    proof {
        reveal(plan_drawn);
        reveal(planned_bodies);
        reveal(shapes);
        assert(shapes(geology@) =~= Seq::<BodyShape>::empty());
        assert(plan@.take(0) =~= Seq::<MineralPlan>::empty());
    }
    while i < plan.len()
        invariant
            i <= plan@.len(),
            planned_bodies(plan@) < u32::MAX,
            next_id == 1 + planned_bodies(plan@.take(i as int)),
            planned_bodies(plan@.take(i as int)) <= planned_bodies(plan@),
            geology@.len() == planned_bodies(plan@.take(i as int)),
            forall|j: int| 0 <= j < geology@.len() ==> (#[trigger] geology@[j]).id.0 < next_id,
            shapes(geology@) == plan_drawn(start, plan@.take(i as int), extent.0, 1).0,
            rng@ == plan_drawn(start, plan@.take(i as int), extent.0, 1).1,
        decreases plan@.len() - i,
    {
        let entry = plan[i];
        let ghost prev = plan_drawn(start, plan@.take(i as int), extent.0, 1);
        let ghost sofar = shapes(geology@);
        proof {
            lemma_planned_prefix(plan@, i + 1);
            lemma_plan_step(start, plan@, i as int, extent.0);
            assert(sofar == prev.0);
        }
        let ghost s1 = rng@;
        place_bodies(&mut rng, &mut geology, entry, extent, next_id);
        proof {
            let drawn = bodies_drawn(s1, entry, extent.0, next_id as nat, entry.bodies as nat);
            assert(shapes(geology@) == sofar + drawn.0);
            assert(rng@ == drawn.1);
            assert(plan_drawn(start, plan@.take(i + 1), extent.0, 1) == (prev.0 + drawn.0, drawn.1));
        }
        next_id = next_id + entry.bodies;
        i = i + 1;
    }
    proof {
        assert(plan@.take(i as int) =~= plan@);
        assert(start == seeded_state(seed));
    }
    geology
}

/// Drawing one more entry of a plan draws its bodies after everything before
/// it, numbered on from them.
proof fn lemma_plan_step(start: Seq<u64>, plan: Seq<MineralPlan>, i: int, extent: i64)
    requires
        0 <= i < plan.len(),
    ensures
        plan_drawn(start, plan.take(i + 1), extent, 1) == ({
            let (prev, s1) = plan_drawn(start, plan.take(i), extent, 1);
            let (bodies, s2) = bodies_drawn(s1, plan[i], extent, 1 + planned_bodies(plan.take(i)), plan[i].bodies as nat);
            (prev + bodies, s2)
        }),
{
    reveal(plan_drawn);
    reveal(planned_bodies);
    assert(plan.take(i + 1).drop_last() =~= plan.take(i));
    assert(plan.take(i + 1).last() == plan[i]);
}

/// A prefix of a plan places no more bodies than the whole.
proof fn lemma_planned_prefix(plan: Seq<MineralPlan>, k: int)
    requires
        0 <= k <= plan.len(),
    ensures
        planned_bodies(plan.take(k)) <= planned_bodies(plan),
        k > 0 ==> planned_bodies(plan.take(k)) == planned_bodies(plan.take(k - 1)) + plan[k - 1].bodies,
    decreases plan.len(),
{
    reveal(planned_bodies);
    if k > 0 {
        assert(plan.take(k).drop_last() =~= plan.take(k - 1));
    }
    if plan.len() > 0 {
        if k == plan.len() {
            assert(plan.take(k) =~= plan);
        } else {
            lemma_planned_prefix(plan.drop_last(), k);
            assert(plan.drop_last().take(k) =~= plan.take(k));
        }
    } else {
        assert(plan.take(k) =~= plan);
    }
}

} // verus!
