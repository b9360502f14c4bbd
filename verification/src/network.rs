//! A way through the republic, as a graph. Roads, rails and navigable water.
//!
//! A railway is the same object as a road: junctions, two-way spans between
//! them, a speed limit per span, and shortest route by travel time. So is
//! navigable water. What keeps them apart is not three types but three
//! *instances*: a train routes over the rails and finds no road there, because
//! the road is in a different `Network`.
//!
//! A network is a graph rather than a grid: a few thousand junctions rather
//! than a million cells, and its size tracks what the player has actually
//! built instead of how big the map is.
//!
//! A segment's cost is its length divided by a real [`Speed`], in
//! milliseconds. Shortest routes are found by Dijkstra's search, with the
//! frontier ordered by `(cost, node)`: a total order, so two runs always take
//! the same one of two equally short roads.

use crate::units::{distance, is_isqrt, lemma_distance_nonneg, lemma_isqrt_is, travel_millis, Metres, Point, Seconds, Speed};
use vstd::prelude::*;

verus! {

/// A junction.
#[derive(Debug, Clone, Copy, PartialEq, Eq, Structural, Hash, PartialOrd, Ord)]
pub struct NodeId(pub u32);

/// The speed of an ordinary paved road: 50 km/h.
pub fn default_road_speed() -> (s: Speed)
    ensures
        s.0 == 50_000,
{
    Speed::from_kph(50)
}

/// A stretch of road between two junctions.
#[derive(Debug, Clone, Copy, PartialEq, Eq, Structural)]
pub struct Segment {
    pub from: NodeId,
    pub to: NodeId,
    pub length: Metres,
    pub speed: Speed,
}

/// How long a segment takes to drive, in milliseconds. A segment of negative
/// length — which no network lays — takes no time.
pub open spec fn seg_millis(s: Segment) -> int {
    travel_millis(if s.length.0 < 0 { 0 } else { s.length.0 as int }, s.speed.0 as int)
}

impl Segment {
    pub fn travel_time(&self) -> (t: Seconds)
        ensures
            t.millis == seg_millis(*self),
    {
        let length = if self.length.0 < 0 { Metres(0) } else { self.length };
        self.speed.time_to_cover(length)
    }
}

/// A route through the network.
#[derive(Debug, Clone, PartialEq)]
pub struct Route {
    /// Junctions passed through, start first.
    pub nodes: Vec<NodeId>,
    pub distance: Metres,
    pub time: Seconds,
}

/// Whether a segment joins two junctions, in either direction.
pub open spec fn joins(s: Segment, a: int, b: int) -> bool {
    (s.from.0 == a && s.to.0 == b) || (s.to.0 == a && s.from.0 == b)
}

/// A walk through the network: junctions `nodes`, and for each hop the index
/// of the segment ridden.
pub open spec fn is_path(segs: Seq<Segment>, nodes: Seq<u32>, ks: Seq<int>) -> bool {
    &&& nodes.len() == ks.len() + 1
    &&& forall|i: int|
        0 <= i < ks.len() ==> 0 <= #[trigger] ks[i] < segs.len() && joins(
            segs[ks[i]],
            nodes[i] as int,
            nodes[i + 1] as int,
        )
}

/// What a walk costs: the time of every segment it rides.
pub open spec fn path_cost(segs: Seq<Segment>, ks: Seq<int>) -> int
    decreases ks.len(),
{
    if ks.len() == 0 {
        0
    } else {
        path_cost(segs, ks.drop_last()) + seg_millis(segs[ks.last()])
    }
}

/// A walk from `a` to `b`.
pub open spec fn path_between(segs: Seq<Segment>, nodes: Seq<u32>, ks: Seq<int>, a: int, b: int) -> bool {
    &&& is_path(segs, nodes, ks)
    &&& nodes[0] == a
    &&& nodes.last() == b
}

/// Whether any walk leads from `a` to `b`.
pub open spec fn reachable(segs: Seq<Segment>, a: int, b: int) -> bool {
    exists|nodes: Seq<u32>, ks: Seq<int>| #[trigger] path_between(segs, nodes, ks, a, b)
}

/// No walk from `a` to `b` costs less than `c`.
pub open spec fn no_cheaper(segs: Seq<Segment>, a: int, b: int, c: int) -> bool {
    forall|nodes: Seq<u32>, ks: Seq<int>|
        #[trigger] path_between(segs, nodes, ks, a, b) ==> c <= path_cost(segs, ks)
}

/// The junction ids of a run of nodes.
pub open spec fn ids(nodes: Seq<NodeId>) -> Seq<u32> {
    nodes.map_values(|n: NodeId| n.0)
}

/// The length of a line drawn through some points, in order.
pub open spec fn polyline(points: Seq<Point>) -> int
    decreases points.len(),
{
    if points.len() <= 1 {
        0
    } else {
        polyline(points.drop_last()) + distance(points[points.len() - 2], points.last())
    }
}

/// A distance capped at what a `Metres` can hold.
pub open spec fn cap_metres(d: int) -> int {
    if d <= i64::MAX {
        d
    } else {
        i64::MAX as int
    }
}

/// A duration capped at what a `Seconds` can hold.
pub open spec fn cap_millis(t: int) -> int {
    if t <= u64::MAX {
        t
    } else {
        u64::MAX as int
    }
}

/// Every road in the republic.
#[derive(Debug, Clone, PartialEq)]
pub struct Network {
    nodes: Vec<Point>,
    segments: Vec<Segment>,
    /// For each node, the `(neighbour, segment index)` pairs leaving it, in
    /// the order the segments were laid — the tie-break of last resort.
    adjacency: Vec<Vec<(NodeId, usize)>>,
}

impl Network {
    /// Where each junction stands.
    pub closed spec fn positions(&self) -> Seq<Point> {
        self.nodes@
    }

    /// Every segment laid, in the order it was laid.
    pub closed spec fn segs(&self) -> Seq<Segment> {
        self.segments@
    }

    /// The links leaving junction `a`.
    pub closed spec fn links(&self, a: int) -> Seq<(NodeId, usize)> {
        self.adjacency@[a]@
    }

    /// The network's own bookkeeping is consistent: every segment joins two
    /// different known junctions and is as long as the straight line between
    /// them, and the links leaving each junction are exactly the segments that
    /// touch it.
    pub closed spec fn wf(&self) -> bool {
        &&& self.adjacency@.len() == self.nodes@.len()
        &&& self.nodes@.len() <= u32::MAX
        &&& forall|k: int|
            0 <= k < self.segments@.len() ==> {
                let s = #[trigger] self.segments@[k];
                &&& s.from.0 < self.nodes@.len()
                &&& s.to.0 < self.nodes@.len()
                &&& s.from != s.to
                &&& s.length.0 == distance(self.nodes@[s.from.0 as int], self.nodes@[s.to.0 as int])
                &&& has_link(self.adjacency@[s.from.0 as int]@, s.to, k)
                &&& has_link(self.adjacency@[s.to.0 as int]@, s.from, k)
            }
        &&& forall|a: int, j: int|
            0 <= a < self.adjacency@.len() && 0 <= j < self.adjacency@[a]@.len() ==> {
                let (b, k) = #[trigger] self.adjacency@[a]@[j];
                &&& k < self.segments@.len()
                &&& joins(self.segments@[k as int], a, b.0 as int)
            }
    }

    pub fn new() -> (n: Network)
        ensures
            n.wf(),
            n.positions() == Seq::<Point>::empty(),
            n.segs() == Seq::<Segment>::empty(),
    {
        Network { nodes: Vec::new(), segments: Vec::new(), adjacency: Vec::new() }
    }

    pub fn add_node(&mut self, at: Point) -> (id: NodeId)
        requires
            old(self).wf(),
            old(self).positions().len() < u32::MAX,
        ensures
            final(self).wf(),
            id.0 == old(self).positions().len(),
            final(self).positions() == old(self).positions().push(at),
            final(self).segs() == old(self).segs(),
    {
        let id = NodeId(self.nodes.len() as u32);
        self.nodes.push(at);
        self.adjacency.push(Vec::new());
        proof {
            let n = self.nodes@.len();
            assert forall|k: int| 0 <= k < self.segments@.len() implies {
                let s = #[trigger] self.segments@[k];
                &&& s.from.0 < n
                &&& s.to.0 < n
                &&& s.from != s.to
                &&& s.length.0 == distance(self.nodes@[s.from.0 as int], self.nodes@[s.to.0 as int])
                &&& has_link(self.adjacency@[s.from.0 as int]@, s.to, k)
                &&& has_link(self.adjacency@[s.to.0 as int]@, s.from, k)
            } by {
                let s = self.segments@[k];
                assert(old(self).segments@[k] == s);
                assert(self.nodes@[s.from.0 as int] == old(self).nodes@[s.from.0 as int]);
                assert(self.nodes@[s.to.0 as int] == old(self).nodes@[s.to.0 as int]);
                assert(self.adjacency@[s.from.0 as int] == old(self).adjacency@[s.from.0 as int]);
                assert(self.adjacency@[s.to.0 as int] == old(self).adjacency@[s.to.0 as int]);
            }
            assert forall|a: int, j: int|
                0 <= a < self.adjacency@.len() && 0 <= j < self.adjacency@[a]@.len() implies {
                let (b, k) = #[trigger] self.adjacency@[a]@[j];
                &&& k < self.segments@.len()
                &&& joins(self.segments@[k as int], a, b.0 as int)
            } by {
                assert(a < n - 1);
                assert(self.adjacency@[a] == old(self).adjacency@[a]);
            }
        }
        id
    }

    pub fn node_count(&self) -> (c: usize)
        ensures
            c == self.positions().len(),
    {
        self.nodes.len()
    }

    pub fn segment_count(&self) -> (c: usize)
        ensures
            c == self.segs().len(),
    {
        self.segments.len()
    }

    /// Every stretch of road laid.
    pub fn segments(&self) -> (r: &[Segment])
        ensures
            r@ == self.segs(),
    {
        self.segments.as_slice()
    }

    pub fn position_of(&self, node: NodeId) -> (r: Option<Point>)
        ensures
            match r {
                Some(p) => node.0 < self.positions().len() && p == self.positions()[node.0 as int],
                None => node.0 >= self.positions().len(),
            },
    {
        let i = node.0 as usize;
        if i < self.nodes.len() {
            Some(self.nodes[i])
        } else {
            None
        }
    }


    /// Lay road between two junctions. Two-way: freight and people use it in
    /// both directions. Both junctions must be known, and different.
    pub fn connect(&mut self, a: NodeId, b: NodeId, speed: Speed) -> (index: usize)
        requires
            old(self).wf(),
            a != b,
            a.0 < old(self).positions().len(),
            b.0 < old(self).positions().len(),
        ensures
            final(self).wf(),
            index == old(self).segs().len(),
            final(self).positions() == old(self).positions(),
            final(self).segs() == old(self).segs().push(
                Segment {
                    from: a,
                    to: b,
                    length: Metres(
                        distance(old(self).positions()[a.0 as int], old(self).positions()[b.0 as int])
                            as i64,
                    ),
                    speed,
                },
            ),
    {
        let pa = self.nodes[a.0 as usize];
        let pb = self.nodes[b.0 as usize];
        let length = pa.distance_to(pb);
        let index = self.segments.len();
        self.segments.push(Segment { from: a, to: b, length, speed });
        let ghost mid = self.adjacency@;
        self.adjacency[a.0 as usize].push((b, index));
        self.adjacency[b.0 as usize].push((a, index));
        proof {
            let n = self.nodes@.len();
            let oa = old(self).adjacency@;
            assert forall|x: int| 0 <= x < n implies #[trigger] self.adjacency@[x]@ == if x == a.0 {
                oa[x]@.push((b, index))
            } else if x == b.0 {
                oa[x]@.push((a, index))
            } else {
                oa[x]@
            } by {}
            assert forall|k: int| 0 <= k < self.segments@.len() implies {
                let s = #[trigger] self.segments@[k];
                &&& s.from.0 < n
                &&& s.to.0 < n
                &&& s.from != s.to
                &&& s.length.0 == distance(self.nodes@[s.from.0 as int], self.nodes@[s.to.0 as int])
                &&& has_link(self.adjacency@[s.from.0 as int]@, s.to, k)
                &&& has_link(self.adjacency@[s.to.0 as int]@, s.from, k)
            } by {
                let s = self.segments@[k];
                if k < index {
                    assert(old(self).segments@[k] == s);
                    let f = s.from.0 as int;
                    let t = s.to.0 as int;
                    let jf = choose|j: int| 0 <= j < oa[f]@.len() && (#[trigger] oa[f]@[j]).0 == s.to && oa[f]@[j].1 as int == k;
                    assert(self.adjacency@[f]@[jf] == oa[f]@[jf]);
                    let jt = choose|j: int| 0 <= j < oa[t]@.len() && (#[trigger] oa[t]@[j]).0 == s.from && oa[t]@[j].1 as int == k;
                    assert(self.adjacency@[t]@[jt] == oa[t]@[jt]);
                } else {
                    let la = self.adjacency@[a.0 as int]@;
                    assert(la[la.len() - 1] == (b, index));
                    let lb = self.adjacency@[b.0 as int]@;
                    assert(lb[lb.len() - 1] == (a, index));
                }
            }
            assert forall|x: int, j: int|
                0 <= x < self.adjacency@.len() && 0 <= j < self.adjacency@[x]@.len() implies {
                let (y, k) = #[trigger] self.adjacency@[x]@[j];
                &&& k < self.segments@.len()
                &&& joins(self.segments@[k as int], x, y.0 as int)
            } by {
                if j < oa[x]@.len() {
                    assert(self.adjacency@[x]@[j] == oa[x]@[j]);
                    let (y, k) = oa[x]@[j];
                    assert(self.segments@[k as int] == old(self).segments@[k as int]);
                }
            }
        }
        index
    }

    /// Total length of road laid, capped at what a `Metres` can hold.
    pub fn total_length(&self) -> (m: Metres)
        requires
            self.wf(),
        ensures
            m.0 == cap_metres(total_seg_length(self.segs())),
    {
        let mut total: i64 = 0;
        let mut i: usize = 0;
        proof {
            assert forall|k: int| 0 <= k < self.segs().len() implies #[trigger] self.segs()[k].length.0 >= 0 by {
                let s = self.segments@[k];
                lemma_distance_nonneg(self.nodes@[s.from.0 as int], self.nodes@[s.to.0 as int]);
            }
        }
        while i < self.segments.len()
            invariant
                i <= self.segs().len(),
                self.segs() == self.segments@,
                forall|k: int| 0 <= k < self.segs().len() ==> #[trigger] self.segs()[k].length.0 >= 0,
                total == cap_metres(total_seg_length(self.segs().take(i as int))),
            decreases self.segs().len() - i,
        {
            proof {
                assert(self.segs().take(i + 1).drop_last() =~= self.segs().take(i as int));
                lemma_total_seg_length_nonneg(self.segs().take(i as int));
            }
            let l = self.segments[i].length.0;
            total = if total > i64::MAX - l {
                i64::MAX
            } else {
                total + l
            };
            i = i + 1;
        }
        assert(self.segs().take(i as int) =~= self.segs());
        Metres(total)
    }

    /// The junction nearest a point, if one is within `within`. Ties break on
    /// the lower id, so two junctions the same distance away always resolve
    /// the same way.
    pub fn nearest_node(&self, to: Point, within: Metres) -> (r: Option<NodeId>)
        requires
            self.wf(),
        ensures
            match r {
                Some(id) => {
                    &&& id.0 < self.positions().len()
                    &&& distance(self.positions()[id.0 as int], to) <= within.0
                    &&& forall|j: int|
                        0 <= j < self.positions().len() && distance(#[trigger] self.positions()[j], to)
                            <= within.0 ==> nearer_or_equal(
                            self.positions(),
                            to,
                            id.0 as int,
                            j,
                        )
                },
                None => forall|j: int|
                    0 <= j < self.positions().len() ==> distance(#[trigger] self.positions()[j], to)
                        > within.0,
            },
    {
        let mut best: Option<(i64, u32)> = None;
        let mut i: usize = 0;
        while i < self.nodes.len()
            invariant
                i <= self.positions().len(),
                self.positions() == self.nodes@,
                self.positions().len() <= u32::MAX,
                match best {
                    Some((d, id)) => {
                        &&& id < i
                        &&& d == distance(self.positions()[id as int], to)
                        &&& d <= within.0
                        &&& forall|j: int|
                            0 <= j < i && distance(#[trigger] self.positions()[j], to) <= within.0
                                ==> nearer_or_equal(self.positions(), to, id as int, j)
                    },
                    None => forall|j: int|
                        0 <= j < i ==> distance(#[trigger] self.positions()[j], to) > within.0,
                },
            decreases self.positions().len() - i,
        {
            let d = self.nodes[i].distance_to(to).0;
            if d <= within.0 {
                best = match best {
                    Some((bd, bid)) => if d < bd {
                        Some((d, i as u32))
                    } else {
                        Some((bd, bid))
                    },
                    None => Some((d, i as u32)),
                };
            }
            i = i + 1;
        }
        match best {
            Some((_, id)) => Some(NodeId(id)),
            None => None,
        }
    }

    /// The junction at a point, reusing one already within `merge`.
    ///
    /// This is what stops every road being an island: two roads ordered end to
    /// end meet because the second one finds the first one's junction rather
    /// than laying a new node a metre away from it.
    pub fn junction_at(&mut self, at: Point, merge: Metres) -> (id: NodeId)
        requires
            old(self).wf(),
            old(self).positions().len() < u32::MAX,
        ensures
            final(self).wf(),
            final(self).segs() == old(self).segs(),
            id.0 < final(self).positions().len(),
            (exists|j: int|
                0 <= j < old(self).positions().len() && distance(
                    #[trigger] old(self).positions()[j],
                    at,
                ) <= merge.0) ==> {
                &&& final(self).positions() == old(self).positions()
                &&& distance(old(self).positions()[id.0 as int], at) <= merge.0
                &&& forall|j: int|
                    0 <= j < old(self).positions().len() && distance(
                        #[trigger] old(self).positions()[j],
                        at,
                    ) <= merge.0 ==> nearer_or_equal(old(self).positions(), at, id.0 as int, j)
            },
            !(exists|j: int|
                0 <= j < old(self).positions().len() && distance(
                    #[trigger] old(self).positions()[j],
                    at,
                ) <= merge.0) ==> {
                &&& final(self).positions() == old(self).positions().push(at)
                &&& id.0 == old(self).positions().len()
            },
    {
        match self.nearest_node(at, merge) {
            Some(existing) => existing,
            None => self.add_node(at),
        }
    }

    /// Whether these two junctions already have road between them.
    pub fn are_connected(&self, a: NodeId, b: NodeId) -> (r: bool)
        requires
            self.wf(),
        ensures
            r == exists|k: int| 0 <= k < self.segs().len() && joins(#[trigger] self.segs()[k], a.0 as int, b.0 as int),
    {
        let i = a.0 as usize;
        if i >= self.adjacency.len() {
            proof {
                assert forall|k: int| 0 <= k < self.segs().len() implies !joins(#[trigger] self.segs()[k], a.0 as int, b.0 as int) by {}
            }
            return false;
        }
        let links = &self.adjacency[i];
        let mut j: usize = 0;
        while j < links.len()
            invariant
                j <= links@.len(),
                links@ == self.links(i as int),
                i == a.0 as usize,
                i < self.positions().len(),
                self.wf(),
                forall|m: int| 0 <= m < j ==> (#[trigger] links@[m]).0 != b,
            decreases links@.len() - j,
        {
            if links[j].0 == b {
                proof {
                    let link = links@[j as int];
                    assert(self.adjacency@[i as int]@[j as int] == link);
                    assert(link.1 < self.segments@.len());
                    assert(joins(self.segments@[link.1 as int], i as int, link.0.0 as int));
                    assert(link.0 == b);
                    assert(link.0.0 == b.0);
                    assert(i as int == a.0 as int);
                    assert(self.segs()[link.1 as int] == self.segments@[link.1 as int]);
                    assert(joins(self.segs()[link.1 as int], a.0 as int, b.0 as int));
                }
                return true;
            }
            j = j + 1;
        }
        proof {
            assert forall|k: int| 0 <= k < self.segs().len() implies !joins(#[trigger] self.segs()[k], a.0 as int, b.0 as int) by {
                if joins(self.segs()[k], a.0 as int, b.0 as int) {
                    self.lemma_link_for(k, a.0 as int, b.0 as int);
                    let m = choose|m: int| 0 <= m < self.links(a.0 as int).len() && (#[trigger] self.links(a.0 as int)[m]).0 == NodeId(b.0) && self.links(a.0 as int)[m].1 as int == k;
                    assert(NodeId(b.0) == b);
                    assert(links@[m].0 == b);
                }
            }
        }
        false
    }

    /// The speed limit on the road between two adjacent junctions, if there is
    /// road between them. Where two run in parallel, the quicker one.
    pub fn speed_between(&self, a: NodeId, b: NodeId) -> (r: Option<Speed>)
        requires
            self.wf(),
        ensures
            match r {
                Some(s) => {
                    &&& exists|k: int|
                        0 <= k < self.segs().len() && joins(#[trigger] self.segs()[k], a.0 as int, b.0 as int)
                            && self.segs()[k].speed == s
                    &&& forall|k: int|
                        0 <= k < self.segs().len() && joins(#[trigger] self.segs()[k], a.0 as int, b.0 as int)
                            ==> self.segs()[k].speed.0 <= s.0
                },
                None => forall|k: int|
                    0 <= k < self.segs().len() ==> !joins(#[trigger] self.segs()[k], a.0 as int, b.0 as int),
            },
    {
        let i = a.0 as usize;
        if i >= self.adjacency.len() {
            proof {
                assert forall|k: int| 0 <= k < self.segs().len() implies !joins(#[trigger] self.segs()[k], a.0 as int, b.0 as int) by {}
            }
            return None;
        }
        let links = &self.adjacency[i];
        let mut best: Option<Speed> = None;
        let mut j: usize = 0;
        while j < links.len()
            invariant
                j <= links@.len(),
                links@ == self.links(i as int),
                i == a.0 as usize,
                i < self.positions().len(),
                self.wf(),
                match best {
                    Some(s) => {
                        &&& exists|m: int| 0 <= m < j && (#[trigger] links@[m]).0 == b && self.segs()[links@[m].1 as int].speed == s
                        &&& forall|m: int| 0 <= m < j && (#[trigger] links@[m]).0 == b ==> self.segs()[links@[m].1 as int].speed.0 <= s.0
                    },
                    None => forall|m: int| 0 <= m < j ==> (#[trigger] links@[m]).0 != b,
                },
            decreases links@.len() - j,
        {
            let (other, k) = links[j];
            if other == b {
                let sp = self.segments[k].speed;
                best = match best {
                    Some(s) => if sp.0 >= s.0 {
                        Some(sp)
                    } else {
                        Some(s)
                    },
                    None => Some(sp),
                };
            }
            j = j + 1;
        }
        proof {
            assert forall|k: int| 0 <= k < self.segs().len() && joins(#[trigger] self.segs()[k], a.0 as int, b.0 as int)
                implies exists|m: int| 0 <= m < links@.len() && (#[trigger] links@[m]).0 == b && links@[m].1 as int == k by {
                self.lemma_link_for(k, a.0 as int, b.0 as int);
                let m = choose|m: int| 0 <= m < self.links(a.0 as int).len() && (#[trigger] self.links(a.0 as int)[m]).0 == NodeId(b.0) && self.links(a.0 as int)[m].1 as int == k;
                assert(NodeId(b.0) == b);
                assert(links@[m] == self.links(a.0 as int)[m]);
            }
            match best {
                Some(s) => {
                    let m = choose|m: int| 0 <= m < j && (#[trigger] links@[m]).0 == b && self.segs()[links@[m].1 as int].speed == s;
                    let k = links@[m].1 as int;
                    assert(self.adjacency@[i as int]@[m] == links@[m]);
                    assert(joins(self.segs()[k], a.0 as int, b.0 as int));
                },
                None => {},
            }
        }
        best
    }

    /// Every segment touching a junction is among the links leaving it.
    pub proof fn lemma_link_for(&self, k: int, a: int, b: int)
        requires
            self.wf(),
            0 <= k < self.segs().len(),
            joins(self.segs()[k], a, b),
        ensures
            0 <= a < self.positions().len(),
            0 <= b < self.positions().len(),
            has_link(self.links(a), NodeId(b as u32), k),
    {
        let s = self.segments@[k];
        if s.from.0 == a {
            assert(s.to == NodeId(b as u32));
        } else {
            assert(s.from == NodeId(b as u32));
        }
        assert(has_link(self.adjacency@[a]@, NodeId(b as u32), k));
    }


    /// Shortest route by travel time.
    ///
    /// `None` when either junction is not in this network, or when no road
    /// joins them. Otherwise the route starts at `from`, ends at `to`, every
    /// hop rides a segment of this network, and no walk between the two is
    /// quicker. Its time is what the segments it rides take, and its distance
    /// is the straight-line length of the line through its junctions.
    #[verifier::spinoff_prover]
    #[verifier::rlimit(100)]
    pub fn route(&self, from: NodeId, to: NodeId) -> (r: Option<Route>)
        requires
            self.wf(),
        ensures
            match r {
                Some(route) => {
                    &&& from.0 < self.positions().len()
                    &&& to.0 < self.positions().len()
                    &&& route.nodes@.len() >= 1
                    &&& route.nodes@[0] == from
                    &&& route.nodes@.last() == to
                    &&& exists|ks: Seq<int>|
                        #[trigger] is_path(self.segs(), ids(route.nodes@), ks) && cap_millis(
                            path_cost(self.segs(), ks),
                        ) == route.time.millis && no_cheaper(
                            self.segs(),
                            from.0 as int,
                            to.0 as int,
                            path_cost(self.segs(), ks),
                        )
                    &&& route.distance.0 == cap_metres(polyline(self.route_points(route.nodes@)))
                },
                None => from.0 >= self.positions().len() || to.0 >= self.positions().len()
                    || !reachable(self.segs(), from.0 as int, to.0 as int),
            },
            from == to && from.0 < self.positions().len() ==> (r matches Some(route) && route.nodes@ == seq![from]
                && route.distance.0 == 0 && route.time.millis == 0),
    {
        let n = self.nodes.len();
        if from.0 as usize >= n || to.0 as usize >= n {
            return None;
        }
        if from == to {
            let mut nodes: Vec<NodeId> = Vec::new();
            nodes.push(from);
            proof {
                let ks = Seq::<int>::empty();
                assert(ids(nodes@) =~= seq![from.0]);
                assert(is_path(self.segs(), ids(nodes@), ks));
                assert forall|pn: Seq<u32>, pk: Seq<int>| #[trigger] path_between(self.segs(), pn, pk, from.0 as int, to.0 as int) implies 0 <= path_cost(self.segs(), pk) by {
                    lemma_path_cost_nonneg(self.segs(), pk);
                }
                assert(self.route_points(nodes@).len() == 1);
                assert(polyline(self.route_points(nodes@)) == 0);
                assert(path_cost(self.segs(), ks) == 0);
                assert(no_cheaper(self.segs(), from.0 as int, to.0 as int, path_cost(self.segs(), ks)));
                assert(is_path(self.segs(), ids(nodes@), ks) && cap_millis(path_cost(self.segs(), ks)) == 0 && no_cheaper(self.segs(), from.0 as int, to.0 as int, path_cost(self.segs(), ks)));
            }
            assert(nodes@ =~= seq![from]);
            return Some(Route { nodes, distance: Metres(0), time: Seconds { millis: 0 } });
        }
        let mut best: Vec<u128> = Vec::new();
        let mut came_from: Vec<Option<u32>> = Vec::new();
        let mut settled: Vec<bool> = Vec::new();
        let mut i: usize = 0;
        while i < n
            invariant
                i <= n,
                best@.len() == i,
                came_from@.len() == i,
                settled@.len() == i,
                forall|v: int| 0 <= v < i ==> #[trigger] best@[v] == INF,
                forall|v: int| 0 <= v < i ==> #[trigger] came_from@[v] is None,
                forall|v: int| 0 <= v < i ==> !#[trigger] settled@[v],
            decreases n - i,
        {
            best.push(INF);
            came_from.push(None);
            settled.push(false);
            i = i + 1;
        }
        best.set(from.0 as usize, 0);
        let mut heap: Vec<(u128, u32)> = Vec::new();
        heap.push((0, from.0));
        let ghost segs = self.segs();
        let ghost f = from.0 as int;
        let ghost mut came_seg: Seq<int> = Seq::new(n as nat, |v: int| 0int);
        let ghost mut ord: Seq<int> = Seq::new(n as nat, |v: int| 0int);
        let ghost mut done: Set<int> = Set::empty();
        proof {
            assert(heap@[0] == (0u128, from.0));
        }
        while heap.len() > 0
            invariant_except_break
                relaxed(self, n as int, best@, settled@),
            invariant
                self.wf(),
                segs == self.segs(),
                n == self.positions().len(),
                f == from.0,
                from.0 < n,
                to.0 < n,
                from != to,
                frame_ok(segs, n as int, f, best@, settled@, came_from@, came_seg, ord, done),
                heap_ok(n as int, best@, settled@, heap@),
                optimal_ok(segs, n as int, f, best@, settled@),
            ensures
                frame_ok(segs, n as int, f, best@, settled@, came_from@, came_seg, ord, done),
                optimal_ok(segs, n as int, f, best@, settled@),
                settled@[to.0 as int] || (heap@.len() == 0 && relaxed(self, n as int, best@, settled@) && heap_ok(n as int, best@, settled@, heap@)),
            decreases n - done.len(), heap@.len(),
        {
            let ghost old_heap = heap@;
            let (cost, node) = pop_min(&mut heap);
            let idx = node as usize;
            if settled[idx] {
                proof {
                    lemma_heap_after_pop(n as int, best@, settled@, old_heap, heap@, (cost, node));
                }
                continue;
            }
            proof {
                lemma_settle(self, segs, n as int, f, best@, settled@, came_from@, came_seg, ord, done, old_heap, heap@, (cost, node));
            }
            let ghost pre_settled = settled@;
            let ghost pre_ord = ord;
            let ghost pre_done = done;
            settled.set(idx, true);
            proof {
                ord = ord.update(idx as int, done.len() as int);
                done = done.insert(idx as int);
                lemma_after_settle(self, segs, n as int, f, best@, pre_settled, settled@, came_from@, came_seg, pre_ord, ord, pre_done, done, heap@, idx as int);
            }
            if node == to.0 {
                break;
            }
            let links = &self.adjacency[idx];
            let mut j: usize = 0;
            while j < links.len()
                invariant
                    self.wf(),
                    segs == self.segs(),
                    n == self.positions().len(),
                    links@ == self.links(idx as int),
                    idx == node as usize,
                    idx < n,
                    settled@[idx as int],
                    cost == best@[idx as int],
                    j <= links@.len(),
                    f == from.0,
                    from.0 < n,
                    done.len() >= 1,
                    frame_ok(segs, n as int, f, best@, settled@, came_from@, came_seg, ord, done),
                    heap_ok(n as int, best@, settled@, heap@),
                    optimal_ok(segs, n as int, f, best@, settled@),
                    relaxed_except(self, n as int, best@, settled@, idx as int),
                    forall|m: int| 0 <= m < j && !settled@[(#[trigger] links@[m]).0.0 as int] ==> best@[links@[m].0.0 as int] <= best@[idx as int] + seg_millis(segs[links@[m].1 as int]),
                decreases links@.len() - j,
            {
                let (nb, seg) = links[j];
                let next = nb.0 as usize;
                proof {
                    assert(self.adjacency@[idx as int]@[j as int] == links@[j as int]);
                }
                if !settled[next] {
                    let step = self.segments[seg].travel_time().millis as u128;
                    proof {
                        lemma_cost_bound(segs, n as int, f, best@, settled@, came_from@, came_seg, ord, done, idx as int);
                    }
                    let cand = cost + step;
                    if cand < best[next] {
                        let ghost pre_best = best@;
                        let ghost pre_heap = heap@;
                        let ghost pre_came = came_from@;
                        let ghost pre_came_seg = came_seg;
                        best.set(next, cand);
                        came_from.set(next, Some(node));
                        heap.push((cand, nb.0));
                        proof {
                            came_seg = came_seg.update(next as int, seg as int);
                            lemma_relax_update(self, segs, n as int, f, pre_best, best@, settled@, pre_came, came_from@, pre_came_seg, came_seg, ord, done, pre_heap, heap@, idx as int, node, next as int, seg as int, links@, j as int);
                        }
                    }
                }
                j = j + 1;
            }
            proof {
                lemma_relaxed_close(self, n as int, best@, settled@, idx as int, links@);
            }
        }
        if !settled[to.0 as usize] {
            proof {
                assert forall|pn: Seq<u32>, pk: Seq<int>| !#[trigger] path_between(segs, pn, pk, f, to.0 as int) by {
                    if path_between(segs, pn, pk, f, to.0 as int) {
                        let y = lemma_frontier(self, segs, n as int, f, best@, settled@, came_from@, came_seg, ord, done, heap@, pn, pk);
                        assert(heap@.contains((best@[y], y as u32)));
                    }
                }
            }
            return None;
        }
        // Walk back from the destination.
        let mut rev: Vec<NodeId> = Vec::new();
        rev.push(to);
        let mut cursor: u32 = to.0;
        let ghost mut fwd_nodes: Seq<u32> = seq![to.0];
        let ghost mut fwd_ks: Seq<int> = Seq::empty();
        proof {
            assert(is_path(segs, fwd_nodes, fwd_ks));
        }
        loop
            invariant
                self.wf(),
                segs == self.segs(),
                n == self.positions().len(),
                cursor < n,
                f == from.0,
                settled@[cursor as int],
                frame_ok(segs, n as int, f, best@, settled@, came_from@, came_seg, ord, done),
                optimal_ok(segs, n as int, f, best@, settled@),
                to.0 < n,
                settled@[to.0 as int],
                path_between(segs, fwd_nodes, fwd_ks, cursor as int, to.0 as int),
                path_cost(segs, fwd_ks) == best@[to.0 as int] - best@[cursor as int],
                rev@.len() == fwd_nodes.len(),
                forall|m: int| 0 <= m < rev@.len() ==> (#[trigger] rev@[m]).0 == fwd_nodes[fwd_nodes.len() - 1 - m],
            ensures
                cursor == from.0,
                path_between(segs, fwd_nodes, fwd_ks, from.0 as int, to.0 as int),
                path_cost(segs, fwd_ks) == best@[to.0 as int],
                rev@.len() == fwd_nodes.len(),
                forall|m: int| 0 <= m < rev@.len() ==> (#[trigger] rev@[m]).0 == fwd_nodes[fwd_nodes.len() - 1 - m],
            decreases ord[cursor as int],
        {
            match came_from[cursor as usize] {
                Some(prev) => {
                    proof {
                        assert(came_from@[cursor as int] == Some(prev));
                        assert(came_ok(segs, n as int, best@, settled@, came_seg, ord, done, cursor as int, prev as int));
                        let k = came_seg[cursor as int];
                        let new_nodes = seq![prev] + fwd_nodes;
                        let new_ks = seq![k] + fwd_ks;
                        lemma_prepend_path(segs, fwd_nodes, fwd_ks, prev, k);
                        fwd_nodes = new_nodes;
                        fwd_ks = new_ks;
                    }
                    rev.push(NodeId(prev));
                    proof {
                        assert forall|m: int| 0 <= m < rev@.len() implies (#[trigger] rev@[m]).0 == fwd_nodes[fwd_nodes.len() - 1 - m] by {
                            if m < rev@.len() - 1 {
                                assert(fwd_nodes[fwd_nodes.len() - 1 - m] == fwd_nodes.drop_first()[fwd_nodes.len() - 2 - m]);
                            }
                        }
                    }
                    cursor = prev;
                },
                None => {
                    proof {
                        assert(came_from@[cursor as int] is None);
                        lemma_settled_finite(segs, n as int, f, best@, settled@, came_from@, came_seg, ord, done, cursor as int);
                        if cursor != from.0 {
                            assert(best@[cursor as int] != INF);
                            assert(came_from@[cursor as int] is Some);
                        }
                    }
                    break;
                },
            }
        }
        proof {
            lemma_path_in_range(self, fwd_nodes, fwd_ks);
            assert forall|m: int| 0 <= m < rev@.len() implies (#[trigger] rev@[m]).0 < self.positions().len() by {
                assert(rev@[m].0 == fwd_nodes[fwd_nodes.len() - 1 - m]);
            }
        }
        // Lay the junctions out start first, measuring as we go.
        let mut nodes: Vec<NodeId> = Vec::new();
        let mut dist: i64 = 0;
        let total = rev.len();
        let mut k: usize = 0;
        while k < total
            invariant
                self.wf(),
                total == rev@.len(),
                total >= 1,
                k <= total,
                nodes@.len() == k,
                forall|m: int| 0 <= m < k ==> #[trigger] nodes@[m] == rev@[total - 1 - m],
                forall|m: int| 0 <= m < total ==> (#[trigger] rev@[m]).0 < self.positions().len(),
                dist == cap_metres(polyline(self.route_points(nodes@))),
            decreases total - k,
        {
            let node = rev[total - 1 - k];
            let ghost before = nodes@;
            if k > 0 {
                let a = self.nodes[nodes[k - 1].0 as usize];
                let b = self.nodes[node.0 as usize];
                let d = a.distance_to(b).0;
                proof {
                    lemma_polyline_nonneg(self.route_points(before));
                }
                dist = if dist > i64::MAX - d { i64::MAX } else { dist + d };
            }
            nodes.push(node);
            proof {
                let pts = self.route_points(nodes@);
                assert(pts.drop_last() =~= self.route_points(before));
                if k > 0 {
                    assert(pts[pts.len() - 2] == self.positions()[nodes@[k - 1].0 as int]);
                }
            }
            k = k + 1;
        }
        proof {
            assert(ids(nodes@) =~= fwd_nodes) by {
                assert forall|m: int| 0 <= m < nodes@.len() implies ids(nodes@)[m] == fwd_nodes[m] by {
                    assert(nodes@[m] == rev@[total - 1 - m]);
                }
            }
            assert(nodes@[0].0 == from.0);
            assert(nodes@[0] == from);
            assert(nodes@.last().0 == to.0);
            assert(nodes@.last() == to);
            lemma_path_cost_nonneg(segs, fwd_ks);
            assert(is_path(segs, ids(nodes@), fwd_ks));
        }
        let time = if best[to.0 as usize] > u64::MAX as u128 {
            u64::MAX
        } else {
            best[to.0 as usize] as u64
        };
        proof {
            assert(is_path(self.segs(), ids(nodes@), fwd_ks));
            assert(exists|ks: Seq<int>|
                #[trigger] is_path(self.segs(), ids(nodes@), ks) && cap_millis(path_cost(self.segs(), ks)) == time
                    && no_cheaper(self.segs(), from.0 as int, to.0 as int, path_cost(self.segs(), ks)));
        }
        let route = Route { nodes, distance: Metres(dist), time: Seconds { millis: time } };
        assert(route.nodes@.len() >= 1 && route.nodes@[0] == from && route.nodes@.last() == to);
        Some(route)
    }


    /// How long it takes to travel between two points on the map, using the
    /// network and walking to and from the nearest junction at each end.
    ///
    /// `None` when either end is further than `access` from any junction, or
    /// when the network does not join the two nearest junctions: an
    /// unconnected building is genuinely unreachable.
    pub fn travel_time(&self, from: Point, to: Point, access: Metres, walking: Speed) -> (r: Option<Seconds>)
        requires
            self.wf(),
        ensures
            match (nearest(self.positions(), from, access.0 as int), nearest(self.positions(), to, access.0 as int)) {
                (Some(a), Some(b)) => match r {
                    Some(t) => {
                        &&& reachable(self.segs(), a, b)
                        &&& t.millis == cap_millis(
                            walk_millis(self.positions()[a], from, walking) + cap_millis(
                                shortest_cost(self.segs(), a, b),
                            ) + walk_millis(self.positions()[b], to, walking),
                        )
                    },
                    None => !reachable(self.segs(), a, b),
                },
                _ => r is None,
            },
    {
        let a = self.nearest_node(from, access);
        let b = self.nearest_node(to, access);
        proof {
            match a {
                Some(x) => lemma_nearest_is(self.positions(), from, access.0 as int, x.0 as int),
                None => lemma_nearest_none(self.positions(), from, access.0 as int),
            }
            match b {
                Some(x) => lemma_nearest_is(self.positions(), to, access.0 as int, x.0 as int),
                None => lemma_nearest_none(self.positions(), to, access.0 as int),
            }
        }
        let a = match a {
            Some(x) => x,
            None => return None,
        };
        let b = match b {
            Some(x) => x,
            None => return None,
        };
        let route = match self.route(a, b) {
            Some(r) => r,
            None => return None,
        };
        let pa = self.nodes[a.0 as usize];
        let pb = self.nodes[b.0 as usize];
        let walk_in = walking.time_to_cover(pa.distance_to(from));
        let walk_out = walking.time_to_cover(pb.distance_to(to));
        proof {
            let segs = self.segs();
            let ks = choose|ks: Seq<int>|
                #[trigger] is_path(segs, ids(route.nodes@), ks) && cap_millis(path_cost(segs, ks))
                    == route.time.millis && no_cheaper(segs, a.0 as int, b.0 as int, path_cost(segs, ks));
            let c = path_cost(segs, ks);
            assert(ids(route.nodes@)[0] == a.0);
            assert(ids(route.nodes@).last() == b.0);
            assert(path_between(segs, ids(route.nodes@), ks, a.0 as int, b.0 as int));
            assert(shortest(segs, a.0 as int, b.0 as int, c));
            lemma_shortest_cost_is(segs, a.0 as int, b.0 as int, c);
        }
        let total = walk_in.millis.saturating_add(route.time.millis).saturating_add(walk_out.millis);
        Some(Seconds { millis: total })
    }

    /// The points a route passes through, in order.
    pub closed spec fn route_points(&self, nodes: Seq<NodeId>) -> Seq<Point> {
        nodes.map_values(|v: NodeId| self.positions()[v.0 as int])
    }

    /// The points of a run of junctions are where those junctions stand, in
    /// order, so a route's distance is the sum of the straight hops between
    /// them.
    pub proof fn route_points_are_positions(&self, nodes: Seq<NodeId>)
        ensures
            self.route_points(nodes).len() == nodes.len(),
            forall|i: int| 0 <= i < nodes.len() ==> #[trigger] self.route_points(nodes)[i] == self.positions()[nodes[i].0 as int],
    {
    }

    /// Where a segment runs, in world coordinates, if both its junctions are
    /// in this network.
    pub fn segment_ends(&self, segment: &Segment) -> (r: Option<(Point, Point)>)
        ensures
            match r {
                Some((a, b)) => {
                    &&& segment.from.0 < self.positions().len()
                    &&& segment.to.0 < self.positions().len()
                    &&& a == self.positions()[segment.from.0 as int]
                    &&& b == self.positions()[segment.to.0 as int]
                },
                None => segment.from.0 >= self.positions().len() || segment.to.0
                    >= self.positions().len(),
            },
    {
        let a = match self.position_of(segment.from) {
            Some(p) => p,
            None => return None,
        };
        let b = match self.position_of(segment.to) {
            Some(p) => p,
            None => return None,
        };
        Some((a, b))
    }
}

/// A list of links holds one to `b` over segment `k`.
pub open spec fn has_link(links: Seq<(NodeId, usize)>, b: NodeId, k: int) -> bool {
    exists|m: int| 0 <= m < links.len() && (#[trigger] links[m]).0 == b && links[m].1 as int == k
}


/// Junction `a` is the nearest to `p` of those within `within`.
pub open spec fn is_nearest(positions: Seq<Point>, p: Point, within: int, a: int) -> bool {
    &&& 0 <= a < positions.len()
    &&& distance(positions[a], p) <= within
    &&& forall|j: int|
        0 <= j < positions.len() && distance(#[trigger] positions[j], p) <= within ==> nearer_or_equal(
            positions,
            p,
            a,
            j,
        )
}

/// The junction nearest a point, of those within reach, if any is.
pub open spec fn nearest(positions: Seq<Point>, p: Point, within: int) -> Option<int> {
    if exists|a: int| is_nearest(positions, p, within, a) {
        Some(choose|a: int| is_nearest(positions, p, within, a))
    } else {
        None
    }
}

/// `c` is the cost of the quickest walk from `a` to `b`.
pub open spec fn shortest(segs: Seq<Segment>, a: int, b: int, c: int) -> bool {
    &&& exists|nodes: Seq<u32>, ks: Seq<int>|
        #[trigger] path_between(segs, nodes, ks, a, b) && path_cost(segs, ks) == c
    &&& no_cheaper(segs, a, b, c)
}

/// The cost of the quickest walk from `a` to `b`.
pub open spec fn shortest_cost(segs: Seq<Segment>, a: int, b: int) -> int {
    choose|c: int| shortest(segs, a, b, c)
}

/// How long walking from a junction to a point takes.
pub open spec fn walk_millis(from: Point, to: Point, walking: Speed) -> int {
    travel_millis(distance(from, to), walking.0 as int)
}

pub(crate) proof fn lemma_nearest_is(positions: Seq<Point>, p: Point, within: int, a: int)
    requires
        is_nearest(positions, p, within, a),
    ensures
        nearest(positions, p, within) == Some(a),
{
    let b = choose|b: int| is_nearest(positions, p, within, b);
    assert(is_nearest(positions, p, within, b));
    assert(nearer_or_equal(positions, p, a, b));
    assert(nearer_or_equal(positions, p, b, a));
}

pub(crate) proof fn lemma_nearest_none(positions: Seq<Point>, p: Point, within: int)
    requires
        forall|j: int| 0 <= j < positions.len() ==> distance(#[trigger] positions[j], p) > within,
    ensures
        nearest(positions, p, within) is None,
{
    if exists|a: int| is_nearest(positions, p, within, a) {
        let a = choose|a: int| is_nearest(positions, p, within, a);
        assert(distance(positions[a], p) > within);
    }
}

proof fn lemma_shortest_cost_is(segs: Seq<Segment>, a: int, b: int, c: int)
    requires
        shortest(segs, a, b, c),
    ensures
        shortest_cost(segs, a, b) == c,
        reachable(segs, a, b),
{
    let d = choose|d: int| shortest(segs, a, b, d);
    assert(shortest(segs, a, b, d));
    let (n1, k1) = choose|n1: Seq<u32>, k1: Seq<int>| #[trigger] path_between(segs, n1, k1, a, b) && path_cost(segs, k1) == c;
    let (n2, k2) = choose|n2: Seq<u32>, k2: Seq<int>| #[trigger] path_between(segs, n2, k2, a, b) && path_cost(segs, k2) == d;
    assert(d <= path_cost(segs, k1));
    assert(c <= path_cost(segs, k2));
}

/// Junction `i` is at least as near `to` as junction `j`, ties going to the
/// lower id.
pub open spec fn nearer_or_equal(positions: Seq<Point>, to: Point, i: int, j: int) -> bool {
    distance(positions[i], to) < distance(positions[j], to) || (distance(positions[i], to)
        == distance(positions[j], to) && i <= j)
}

/// Every segment's length, added up.
pub open spec fn total_seg_length(segs: Seq<Segment>) -> int
    decreases segs.len(),
{
    if segs.len() == 0 {
        0
    } else {
        total_seg_length(segs.drop_last()) + segs.last().length.0
    }
}

proof fn lemma_total_seg_length_nonneg(segs: Seq<Segment>)
    requires
        forall|k: int| 0 <= k < segs.len() ==> #[trigger] segs[k].length.0 >= 0,
    ensures
        total_seg_length(segs) >= 0,
    decreases segs.len(),
{
    if segs.len() > 0 {
        assert forall|k: int| 0 <= k < segs.drop_last().len() implies #[trigger] segs.drop_last()[k].length.0 >= 0 by {
            assert(segs.drop_last()[k] == segs[k]);
        }
        lemma_total_seg_length_nonneg(segs.drop_last());
    }
}

/// What an unreached junction's best time starts at.
const INF: u128 = 0xFFFF_FFFF_FFFF_FFFF_FFFF_FFFF_FFFF_FFFF;

/// More than any one segment can take, in milliseconds.
spec fn step_bound() -> int {
    0x1_0000_0000_0000_0000
}

/// Junction `v` was last reached from `p`, over the segment recorded for it.
spec fn came_ok(
    segs: Seq<Segment>,
    n: int,
    best: Seq<u128>,
    settled: Seq<bool>,
    came_seg: Seq<int>,
    ord: Seq<int>,
    done: Set<int>,
    v: int,
    p: int,
) -> bool {
    &&& 0 <= p < n
    &&& settled[p]
    &&& best[v] != INF
    &&& 0 <= came_seg[v] < segs.len()
    &&& joins(segs[came_seg[v]], p, v)
    &&& best[v] == best[p] + seg_millis(segs[came_seg[v]])
    &&& (settled[v] ==> ord[p] < ord[v])
    &&& (!settled[v] ==> ord[p] < done.len())
}

/// The search's bookkeeping: sizes, the start, which junctions are settled
/// and in what order, how large the best times can be, and how each reached
/// junction was reached.
spec fn frame_ok(
    segs: Seq<Segment>,
    n: int,
    f: int,
    best: Seq<u128>,
    settled: Seq<bool>,
    came: Seq<Option<u32>>,
    came_seg: Seq<int>,
    ord: Seq<int>,
    done: Set<int>,
) -> bool {
    &&& best.len() == n
    &&& settled.len() == n
    &&& came.len() == n
    &&& came_seg.len() == n
    &&& ord.len() == n
    &&& 0 <= f < n
    &&& n <= u32::MAX
    &&& best[f] == 0
    &&& came[f] is None
    &&& done.finite()
    &&& forall|v: int| #[trigger] done.contains(v) <==> 0 <= v < n && settled[v]
    &&& done.len() <= n
    &&& (done.len() >= 1 ==> settled[f])
    &&& forall|v: int|
        0 <= v < n && #[trigger] settled[v] ==> 0 <= ord[v] < done.len() && best[v] <= ord[v]
            * step_bound()
    &&& forall|v: int|
        0 <= v < n && !settled[v] && #[trigger] best[v] != INF ==> best[v] <= done.len()
            * step_bound()
    &&& forall|v: int|
        0 <= v < n && (#[trigger] came[v]) is Some ==> came_ok(
            segs,
            n,
            best,
            settled,
            came_seg,
            ord,
            done,
            v,
            came[v].unwrap() as int,
        )
    &&& forall|v: int| 0 <= v < n && v != f && best[v] != INF ==> (#[trigger] came[v]) is Some
}

/// Every entry on the frontier is a real junction at no less than its best
/// time, and every reached, unsettled junction has an entry at its best time.
spec fn heap_ok(n: int, best: Seq<u128>, settled: Seq<bool>, heap: Seq<(u128, u32)>) -> bool {
    &&& forall|i: int|
        0 <= i < heap.len() ==> (#[trigger] heap[i]).1 < n && heap[i].0 >= best[heap[i].1 as int]
            && heap[i].0 != INF
    &&& forall|v: int|
        0 <= v < n && !settled[v] && #[trigger] best[v] != INF ==> heap.contains((best[v], v as u32))
}

/// A settled junction's best time is the cheapest way to it.
spec fn optimal_ok(segs: Seq<Segment>, n: int, f: int, best: Seq<u128>, settled: Seq<bool>) -> bool {
    forall|x: int| 0 <= x < n && #[trigger] settled[x] ==> no_cheaper(segs, f, x, best[x] as int)
}

/// Every settled junction has offered each unsettled neighbour its own best
/// time plus the hop.
spec fn relaxed(net: &Network, n: int, best: Seq<u128>, settled: Seq<bool>) -> bool {
    forall|u: int, m: int|
        #![trigger settled[u], net.links(u)[m]]
        0 <= u < n && settled[u] && 0 <= m < net.links(u).len() && !settled[net.links(
            u,
        )[m].0.0 as int] ==> best[net.links(u)[m].0.0 as int] <= best[u] + seg_millis(
            net.segs()[net.links(u)[m].1 as int],
        )
}

/// [`relaxed`], for every settled junction but `x`.
spec fn relaxed_except(net: &Network, n: int, best: Seq<u128>, settled: Seq<bool>, x: int) -> bool {
    forall|u: int, m: int|
        #![trigger settled[u], net.links(u)[m]]
        0 <= u < n && u != x && settled[u] && 0 <= m < net.links(u).len() && !settled[net.links(
            u,
        )[m].0.0 as int] ==> best[net.links(u)[m].0.0 as int] <= best[u] + seg_millis(
            net.segs()[net.links(u)[m].1 as int],
        )
}

/// Take the frontier entry that is least by `(cost, node)`.
fn pop_min(heap: &mut Vec<(u128, u32)>) -> (e: (u128, u32))
    requires
        old(heap)@.len() > 0,
    ensures
        exists|i: int| 0 <= i < old(heap)@.len() && old(heap)@[i] == e && final(heap)@ == old(heap)@.remove(i),
        forall|i: int|
            0 <= i < old(heap)@.len() ==> e.0 < (#[trigger] old(heap)@[i]).0 || (e.0 == old(heap)@[i].0
                && e.1 <= old(heap)@[i].1),
{
    let mut at: usize = 0;
    let mut i: usize = 1;
    while i < heap.len()
        invariant
            heap@ == old(heap)@,
            heap@.len() > 0,
            at < i <= heap@.len(),
            forall|j: int|
                0 <= j < i ==> heap@[at as int].0 < (#[trigger] heap@[j]).0 || (heap@[at as int].0
                    == heap@[j].0 && heap@[at as int].1 <= heap@[j].1),
        decreases heap@.len() - i,
    {
        let c = heap[i];
        let b = heap[at];
        if c.0 < b.0 || (c.0 == b.0 && c.1 < b.1) {
            at = i;
        }
        i = i + 1;
    }
    heap.remove(at)
}

proof fn lemma_heap_after_pop(
    n: int,
    best: Seq<u128>,
    settled: Seq<bool>,
    old_heap: Seq<(u128, u32)>,
    heap: Seq<(u128, u32)>,
    e: (u128, u32),
)
    requires
        heap_ok(n, best, settled, old_heap),
        n <= u32::MAX,
        best.len() == n,
        settled.len() == n,
        exists|i: int| 0 <= i < old_heap.len() && old_heap[i] == e && heap == old_heap.remove(i),
        e.1 < n,
        settled[e.1 as int],
    ensures
        heap_ok(n, best, settled, heap),
{
    let i = choose|i: int| 0 <= i < old_heap.len() && old_heap[i] == e && heap == old_heap.remove(i);
    assert forall|k: int| 0 <= k < heap.len() implies (#[trigger] heap[k]).1 < n && heap[k].0 >= best[heap[k].1 as int] && heap[k].0 != INF by {
        if k < i {
            assert(heap[k] == old_heap[k]);
        } else {
            assert(heap[k] == old_heap[k + 1]);
        }
    }
    assert forall|v: int| 0 <= v < n && !settled[v] && #[trigger] best[v] != INF implies heap.contains((best[v], v as u32)) by {
        assert(e.1 as int != v);
        assert((v as u32) as int == v);
        lemma_contains_after_remove(old_heap, i, (best[v], v as u32));
    }
}

proof fn lemma_contains_after_remove(s: Seq<(u128, u32)>, i: int, x: (u128, u32))
    requires
        0 <= i < s.len(),
        s.contains(x),
        s[i] != x,
    ensures
        s.remove(i).contains(x),
{
    let j = choose|j: int| 0 <= j < s.len() && s[j] == x;
    if j < i {
        assert(s.remove(i)[j] == x);
    } else {
        assert(s.remove(i)[j - 1] == x);
    }
}

/// The entry popped for an unsettled junction is at its best time, and that
/// time is the cheapest way there.
proof fn lemma_settle(
    net: &Network,
    segs: Seq<Segment>,
    n: int,
    f: int,
    best: Seq<u128>,
    settled: Seq<bool>,
    came: Seq<Option<u32>>,
    came_seg: Seq<int>,
    ord: Seq<int>,
    done: Set<int>,
    old_heap: Seq<(u128, u32)>,
    heap: Seq<(u128, u32)>,
    e: (u128, u32),
)
    requires
        net.wf(),
        segs == net.segs(),
        n == net.positions().len(),
        frame_ok(segs, n, f, best, settled, came, came_seg, ord, done),
        heap_ok(n, best, settled, old_heap),
        optimal_ok(segs, n, f, best, settled),
        relaxed(net, n, best, settled),
        exists|i: int| 0 <= i < old_heap.len() && old_heap[i] == e && heap == old_heap.remove(i),
        forall|i: int|
            0 <= i < old_heap.len() ==> e.0 < (#[trigger] old_heap[i]).0 || (e.0 == old_heap[i].0 && e.1
                <= old_heap[i].1),
        !settled[e.1 as int],
    ensures
        e.1 < n,
        e.0 == best[e.1 as int],
        best[e.1 as int] != INF,
        no_cheaper(segs, f, e.1 as int, best[e.1 as int] as int),
        !done.contains(e.1 as int),
        done.len() < n,
        forall|i: int| 0 <= i < heap.len() ==> (#[trigger] heap[i]).1 < n && heap[i].0 >= best[heap[i].1 as int] && heap[i].0 != INF,
        forall|v: int| 0 <= v < n && v != e.1 && !settled[v] && #[trigger] best[v] != INF ==> heap.contains((best[v], v as u32)),
{
    let i = choose|i: int| 0 <= i < old_heap.len() && old_heap[i] == e && heap == old_heap.remove(i);
    let u = e.1 as int;
    assert(old_heap[i] == e);
    assert(e.1 < n);
    assert(best[u] != INF);
    assert(old_heap.contains((best[u], e.1)));
    let j = choose|j: int| 0 <= j < old_heap.len() && old_heap[j] == (best[u], e.1);
    assert(e.0 <= old_heap[j].0);
    assert forall|pn: Seq<u32>, pk: Seq<int>| #[trigger] path_between(segs, pn, pk, f, u) implies best[u] <= path_cost(segs, pk) by {
        let y = lemma_frontier(net, segs, n, f, best, settled, came, came_seg, ord, done, old_heap, pn, pk);
        assert(old_heap.contains((best[y], y as u32)));
        let jy = choose|jy: int| 0 <= jy < old_heap.len() && old_heap[jy] == (best[y], y as u32);
        assert(e.0 <= old_heap[jy].0);
    }
    assert(!done.contains(u));
    vstd::set_lib::lemma_int_range(0, n);
    assert(done.insert(u).subset_of(vstd::set_lib::set_int_range(0, n)));
    vstd::set_lib::lemma_len_subset(done.insert(u), vstd::set_lib::set_int_range(0, n));
    assert forall|k: int| 0 <= k < heap.len() implies (#[trigger] heap[k]).1 < n && heap[k].0 >= best[heap[k].1 as int] && heap[k].0 != INF by {
        if k < i {
            assert(heap[k] == old_heap[k]);
        } else {
            assert(heap[k] == old_heap[k + 1]);
        }
    }
    assert forall|v: int| 0 <= v < n && v != e.1 && !settled[v] && #[trigger] best[v] != INF implies heap.contains((best[v], v as u32)) by {
        assert((v as u32) as int == v);
        lemma_contains_after_remove(old_heap, i, (best[v], v as u32));
    }
}

/// Any walk from the start to an unsettled junction passes some reached,
/// unsettled junction at no more than the walk's cost so far.
proof fn lemma_frontier(
    net: &Network,
    segs: Seq<Segment>,
    n: int,
    f: int,
    best: Seq<u128>,
    settled: Seq<bool>,
    came: Seq<Option<u32>>,
    came_seg: Seq<int>,
    ord: Seq<int>,
    done: Set<int>,
    heap: Seq<(u128, u32)>,
    pn: Seq<u32>,
    pk: Seq<int>,
) -> (y: int)
    requires
        net.wf(),
        segs == net.segs(),
        n == net.positions().len(),
        frame_ok(segs, n, f, best, settled, came, came_seg, ord, done),
        heap_ok(n, best, settled, heap),
        optimal_ok(segs, n, f, best, settled),
        relaxed(net, n, best, settled),
        path_between(segs, pn, pk, f, pn.last() as int),
        0 <= pn.last() < n,
        !settled[pn.last() as int],
    ensures
        0 <= y < n,
        !settled[y],
        best[y] != INF,
        best[y] <= path_cost(segs, pk),
        heap.contains((best[y], y as u32)),
    decreases pk.len(),
{
    if pk.len() == 0 {
        lemma_path_cost_nonneg(segs, pk);
        assert(pn.last() == pn[0]);
        f
    } else {
        let last = pk.len() - 1;
        let x = pn[last] as int;
        let v = pn.last() as int;
        let k = pk[last];
        let qn = pn.drop_last();
        let qk = pk.drop_last();
        assert(0 <= k < segs.len() && joins(segs[k], x, v)) by {
            assert(pn[last + 1] == pn.last());
        }
        net.lemma_link_for(k, x, v);
        assert(is_path(segs, qn, qk)) by {
            assert forall|i: int| 0 <= i < qk.len() implies 0 <= #[trigger] qk[i] < segs.len() && joins(segs[qk[i]], qn[i] as int, qn[i + 1] as int) by {
                assert(qk[i] == pk[i]);
                assert(qn[i] == pn[i] && qn[i + 1] == pn[i + 1]);
            }
        }
        assert(qn.last() == pn[last]);
        assert(path_between(segs, qn, qk, f, x));
        assert(path_cost(segs, pk) == path_cost(segs, qk) + seg_millis(segs[k]));
        lemma_seg_millis_nonneg(segs[k]);
        if !settled[x] {
            lemma_frontier(net, segs, n, f, best, settled, came, came_seg, ord, done, heap, qn, qk)
        } else {
            assert(no_cheaper(segs, f, x, best[x] as int));
            assert(best[x] <= path_cost(segs, qk));
            let m = choose|m: int| 0 <= m < net.links(x).len() && (#[trigger] net.links(x)[m]).0 == NodeId(v as u32) && net.links(x)[m].1 as int == k;
            assert(settled[x] && net.links(x)[m] == net.links(x)[m]);
            assert(best[v] <= best[x] + seg_millis(segs[k]));
            assert(best[x] <= ord[x] * step_bound());
            assert(ord[x] * step_bound() <= n * step_bound()) by (nonlinear_arith)
                requires
                    0 <= ord[x] <= n,
            ;
            assert(n * step_bound() <= u32::MAX * step_bound()) by (nonlinear_arith)
                requires
                    n <= u32::MAX,
            ;
            lemma_seg_millis_bound(segs[k]);
            assert(best[v] != INF);
            v
        }
    }
}

/// Settling a junction keeps the bookkeeping.
proof fn lemma_after_settle(
    net: &Network,
    segs: Seq<Segment>,
    n: int,
    f: int,
    best: Seq<u128>,
    pre_settled: Seq<bool>,
    settled: Seq<bool>,
    came: Seq<Option<u32>>,
    came_seg: Seq<int>,
    pre_ord: Seq<int>,
    ord: Seq<int>,
    pre_done: Set<int>,
    done: Set<int>,
    heap: Seq<(u128, u32)>,
    u: int,
)
    requires
        net.wf(),
        segs == net.segs(),
        n == net.positions().len(),
        0 <= u < n,
        frame_ok(segs, n, f, best, pre_settled, came, came_seg, pre_ord, pre_done),
        optimal_ok(segs, n, f, best, pre_settled),
        relaxed(net, n, best, pre_settled),
        !pre_settled[u],
        best[u] != INF,
        no_cheaper(segs, f, u, best[u] as int),
        !pre_done.contains(u),
        pre_done.len() < n,
        settled == pre_settled.update(u, true),
        ord == pre_ord.update(u, pre_done.len() as int),
        done == pre_done.insert(u),
        forall|i: int| 0 <= i < heap.len() ==> (#[trigger] heap[i]).1 < n && heap[i].0 >= best[heap[i].1 as int] && heap[i].0 != INF,
        forall|v: int| 0 <= v < n && v != u && !pre_settled[v] && #[trigger] best[v] != INF ==> heap.contains((best[v], v as u32)),
    ensures
        frame_ok(segs, n, f, best, settled, came, came_seg, ord, done),
        heap_ok(n, best, settled, heap),
        optimal_ok(segs, n, f, best, settled),
        relaxed_except(net, n, best, settled, u),
        done.len() >= 1,
        done.len() == pre_done.len() + 1,
{
    assert(done.len() == pre_done.len() + 1);
    assert forall|v: int| #[trigger] done.contains(v) <==> 0 <= v < n && settled[v] by {
        if v != u {
            assert(done.contains(v) == pre_done.contains(v));
        }
    }
    if pre_done.len() == 0 {
        assert(u == f) by {
            if u != f {
                assert(came[u] is Some);
                let p = came[u].unwrap() as int;
                assert(came_ok(segs, n, best, pre_settled, came_seg, pre_ord, pre_done, u, p));
                assert(pre_done.contains(p));
            }
        }
    }
    assert forall|v: int| 0 <= v < n && #[trigger] settled[v] implies 0 <= ord[v] < done.len() && best[v] <= ord[v] * step_bound() by {
        if v != u {
            assert(pre_settled[v]);
        }
    }
    assert forall|v: int| 0 <= v < n && (#[trigger] came[v]) is Some implies came_ok(segs, n, best, settled, came_seg, ord, done, v, came[v].unwrap() as int) by {
        let p = came[v].unwrap() as int;
        assert(came_ok(segs, n, best, pre_settled, came_seg, pre_ord, pre_done, v, p));
        assert(p != u);
    }
    assert forall|v: int| 0 <= v < n && !settled[v] && #[trigger] best[v] != INF implies best[v] <= done.len() * step_bound() by {
        assert(pre_done.len() * step_bound() <= done.len() * step_bound()) by (nonlinear_arith)
            requires
                pre_done.len() <= done.len(),
        ;
    }
    assert forall|x: int| 0 <= x < n && #[trigger] settled[x] implies no_cheaper(segs, f, x, best[x] as int) by {
        if x != u {
            assert(pre_settled[x]);
        }
    }
    assert forall|w: int, m: int|
        #![trigger settled[w], net.links(w)[m]]
        0 <= w < n && w != u && settled[w] && 0 <= m < net.links(w).len() && !settled[net.links(
            w,
        )[m].0.0 as int] implies best[net.links(w)[m].0.0 as int] <= best[w] + seg_millis(
            net.segs()[net.links(w)[m].1 as int],
        ) by {
        assert(pre_settled[w]);
        assert(!pre_settled[net.links(w)[m].0.0 as int]);
    }
}

/// The best time of a settled junction leaves room for one more hop.
proof fn lemma_cost_bound(
    segs: Seq<Segment>,
    n: int,
    f: int,
    best: Seq<u128>,
    settled: Seq<bool>,
    came: Seq<Option<u32>>,
    came_seg: Seq<int>,
    ord: Seq<int>,
    done: Set<int>,
    u: int,
)
    requires
        frame_ok(segs, n, f, best, settled, came, came_seg, ord, done),
        0 <= u < n,
        settled[u],
    ensures
        best[u] + step_bound() <= done.len() * step_bound(),
        done.len() * step_bound() <= u32::MAX * step_bound(),
{
    assert(ord[u] + 1 <= done.len());
    assert((ord[u] + 1) * step_bound() <= done.len() * step_bound()) by (nonlinear_arith)
        requires
            ord[u] + 1 <= done.len(),
    ;
    assert(done.len() * step_bound() <= u32::MAX * step_bound()) by (nonlinear_arith)
        requires
            done.len() <= u32::MAX,
    ;
}

/// Offering a neighbour a better time keeps the bookkeeping.
proof fn lemma_relax_update(
    net: &Network,
    segs: Seq<Segment>,
    n: int,
    f: int,
    pre_best: Seq<u128>,
    best: Seq<u128>,
    settled: Seq<bool>,
    pre_came: Seq<Option<u32>>,
    came: Seq<Option<u32>>,
    pre_came_seg: Seq<int>,
    came_seg: Seq<int>,
    ord: Seq<int>,
    done: Set<int>,
    pre_heap: Seq<(u128, u32)>,
    heap: Seq<(u128, u32)>,
    u: int,
    node: u32,
    next: int,
    seg: int,
    links: Seq<(NodeId, usize)>,
    j: int,
)
    requires
        node as int == u,
        net.wf(),
        segs == net.segs(),
        n == net.positions().len(),
        links == net.links(u),
        0 <= j < links.len(),
        links[j].0.0 == next,
        links[j].1 == seg,
        0 <= u < n,
        settled[u],
        done.len() >= 1,
        !settled[next],
        frame_ok(segs, n, f, pre_best, settled, pre_came, pre_came_seg, ord, done),
        heap_ok(n, pre_best, settled, pre_heap),
        optimal_ok(segs, n, f, pre_best, settled),
        relaxed_except(net, n, pre_best, settled, u),
        forall|m: int| 0 <= m < j && !settled[(#[trigger] links[m]).0.0 as int] ==> pre_best[links[m].0.0 as int] <= pre_best[u] + seg_millis(segs[links[m].1 as int]),
        pre_best[next] > pre_best[u] + seg_millis(segs[seg]),
        pre_best[u] + seg_millis(segs[seg]) < done.len() * step_bound(),
        best == pre_best.update(next, (pre_best[u] + seg_millis(segs[seg])) as u128),
        came == pre_came.update(next, Some(node)),
        came_seg == pre_came_seg.update(next, seg),
        heap == pre_heap.push(((pre_best[u] + seg_millis(segs[seg])) as u128, next as u32)),
    ensures
        frame_ok(segs, n, f, best, settled, came, came_seg, ord, done),
        heap_ok(n, best, settled, heap),
        optimal_ok(segs, n, f, best, settled),
        relaxed_except(net, n, best, settled, u),
        forall|m: int| 0 <= m < j + 1 && !settled[(#[trigger] links[m]).0.0 as int] ==> best[links[m].0.0 as int] <= best[u] + seg_millis(segs[links[m].1 as int]),
{
    assert(net.adjacency@[u]@[j] == links[j]);
    assert(joins(segs[seg], u, next));
    assert(next != f);
    assert(next != u);
    lemma_seg_millis_nonneg(segs[seg]);
    let cand = (pre_best[u] + seg_millis(segs[seg])) as u128;
    assert forall|v: int| 0 <= v < n && (#[trigger] came[v]) is Some implies came_ok(segs, n, best, settled, came_seg, ord, done, v, came[v].unwrap() as int) by {
        if v != next {
            let p = pre_came[v].unwrap() as int;
            assert(came_ok(segs, n, pre_best, settled, pre_came_seg, ord, done, v, p));
            assert(p != next);
        }
    }
    assert forall|v: int| 0 <= v < n && v != f && best[v] != INF implies (#[trigger] came[v]) is Some by {
        if v != next {
            assert(pre_best[v] == best[v]);
        }
    }
    assert forall|v: int| 0 <= v < n && #[trigger] settled[v] implies 0 <= ord[v] < done.len() && best[v] <= ord[v] * step_bound() by {
        assert(v != next);
    }
    assert forall|i: int| 0 <= i < heap.len() implies (#[trigger] heap[i]).1 < n && heap[i].0 >= best[heap[i].1 as int] && heap[i].0 != INF by {
        if i < pre_heap.len() {
            assert(heap[i] == pre_heap[i]);
        }
    }
    assert forall|v: int| 0 <= v < n && !settled[v] && #[trigger] best[v] != INF implies heap.contains((best[v], v as u32)) by {
        if v == next {
            assert(heap[pre_heap.len() as int] == (best[v], v as u32));
        } else {
            assert(pre_heap.contains((pre_best[v], v as u32)));
            let i = choose|i: int| 0 <= i < pre_heap.len() && pre_heap[i] == (pre_best[v], v as u32);
            assert(heap[i] == pre_heap[i]);
        }
    }
    assert forall|x: int| 0 <= x < n && #[trigger] settled[x] implies no_cheaper(segs, f, x, best[x] as int) by {
        assert(x != next);
    }
    assert forall|w: int, m: int|
        #![trigger settled[w], net.links(w)[m]]
        0 <= w < n && w != u && settled[w] && 0 <= m < net.links(w).len() && !settled[net.links(
            w,
        )[m].0.0 as int] implies best[net.links(w)[m].0.0 as int] <= best[w] + seg_millis(
            net.segs()[net.links(w)[m].1 as int],
        ) by {
        assert(w != next);
    }
    assert forall|m: int| 0 <= m < j + 1 && !settled[(#[trigger] links[m]).0.0 as int] implies best[links[m].0.0 as int] <= best[u] + seg_millis(segs[links[m].1 as int]) by {
        if m < j {
            assert(pre_best[links[m].0.0 as int] <= pre_best[u] + seg_millis(segs[links[m].1 as int]));
        }
    }
}

/// Once every link of `x` has been offered, the whole settled set is relaxed.
proof fn lemma_relaxed_close(net: &Network, n: int, best: Seq<u128>, settled: Seq<bool>, x: int, links: Seq<(NodeId, usize)>)
    requires
        relaxed_except(net, n, best, settled, x),
        links == net.links(x),
        forall|m: int| 0 <= m < links.len() && !settled[(#[trigger] links[m]).0.0 as int] ==> best[links[m].0.0 as int] <= best[x] + seg_millis(net.segs()[links[m].1 as int]),
    ensures
        relaxed(net, n, best, settled),
{
    assert forall|u: int, m: int|
        #![trigger settled[u], net.links(u)[m]]
        0 <= u < n && settled[u] && 0 <= m < net.links(u).len() && !settled[net.links(
            u,
        )[m].0.0 as int] implies best[net.links(u)[m].0.0 as int] <= best[u] + seg_millis(
            net.segs()[net.links(u)[m].1 as int],
        ) by {
        if u == x {
            assert(links[m] == net.links(u)[m]);
        }
    }
}

proof fn lemma_seg_millis_nonneg(s: Segment)
    ensures
        seg_millis(s) >= 0,
{
    let len: int = if s.length.0 < 0 { 0 } else { s.length.0 as int };
    if s.speed.0 != 0 {
        assert(len * 3_600_000 >= 0) by (nonlinear_arith)
            requires
                len >= 0,
        ;
        assert(len * 3_600_000 / (s.speed.0 as int) >= 0) by (nonlinear_arith)
            requires
                len * 3_600_000 >= 0,
                s.speed.0 > 0,
        ;
    }
}

proof fn lemma_seg_millis_bound(s: Segment)
    ensures
        seg_millis(s) < step_bound(),
{
}

pub proof fn lemma_path_cost_nonneg(segs: Seq<Segment>, ks: Seq<int>)
    ensures
        path_cost(segs, ks) >= 0,
    decreases ks.len(),
{
    if ks.len() > 0 {
        lemma_path_cost_nonneg(segs, ks.drop_last());
        lemma_seg_millis_nonneg(segs[ks.last()]);
    }
}

proof fn lemma_path_cost_prepend(segs: Seq<Segment>, k: int, ks: Seq<int>)
    ensures
        path_cost(segs, seq![k] + ks) == seg_millis(segs[k]) + path_cost(segs, ks),
    decreases ks.len(),
{
    reveal_with_fuel(path_cost, 2);
    if ks.len() == 0 {
        assert((seq![k] + ks).drop_last() =~= Seq::<int>::empty());
        assert((seq![k] + ks).last() == k);
        assert(path_cost(segs, Seq::<int>::empty()) == 0);
    } else {
        lemma_path_cost_prepend(segs, k, ks.drop_last());
        assert((seq![k] + ks).drop_last() =~= seq![k] + ks.drop_last());
        assert((seq![k] + ks).last() == ks.last());
    }
}

/// A junction can always be reached from itself, by going nowhere.
pub proof fn lemma_reachable_self(segs: Seq<Segment>, a: u32)
    ensures
        reachable(segs, a as int, a as int),
{
    let nodes = seq![a];
    let ks = Seq::<int>::empty();
    assert(path_between(segs, nodes, ks, a as int, a as int));
}

/// Laying more road never cuts a way that already existed.
pub proof fn lemma_reachable_grows(segs: Seq<Segment>, more: Seq<Segment>, a: int, b: int)
    requires
        reachable(segs, a, b),
        segs.len() <= more.len(),
        more.subrange(0, segs.len() as int) == segs,
    ensures
        reachable(more, a, b),
{
    let (nodes, ks) = choose|nodes: Seq<u32>, ks: Seq<int>| #[trigger] path_between(segs, nodes, ks, a, b);
    assert forall|i: int| 0 <= i < ks.len() implies 0 <= #[trigger] ks[i] < more.len() && joins(
        more[ks[i]],
        nodes[i] as int,
        nodes[i + 1] as int,
    ) by {
        assert(more[ks[i]] == more.subrange(0, segs.len() as int)[ks[i]]);
    }
    assert(path_between(more, nodes, ks, a, b));
}

/// A way to `b`, and a segment from `b` to `c`, is a way to `c`.
pub proof fn lemma_reachable_extend(segs: Seq<Segment>, a: int, b: u32, c: u32, k: int)
    requires
        reachable(segs, a, b as int),
        0 <= k < segs.len(),
        joins(segs[k], b as int, c as int),
    ensures
        reachable(segs, a, c as int),
{
    let (nodes, ks) = choose|nodes: Seq<u32>, ks: Seq<int>| #[trigger] path_between(segs, nodes, ks, a, b as int);
    let nn = nodes.push(c);
    let nk = ks.push(k);
    assert forall|i: int| 0 <= i < nk.len() implies 0 <= #[trigger] nk[i] < segs.len() && joins(
        segs[nk[i]],
        nn[i] as int,
        nn[i + 1] as int,
    ) by {
        if i < ks.len() {
            assert(nk[i] == ks[i]);
            assert(nn[i] == nodes[i] && nn[i + 1] == nodes[i + 1]);
        } else {
            assert(nn[i] == nodes.last());
        }
    }
    assert(path_between(segs, nn, nk, a, c as int));
}

/// Walking one more hop back from the start of a walk.
proof fn lemma_prepend_path(segs: Seq<Segment>, nodes: Seq<u32>, ks: Seq<int>, prev: u32, k: int)
    requires
        is_path(segs, nodes, ks),
        0 <= k < segs.len(),
        joins(segs[k], prev as int, nodes[0] as int),
    ensures
        is_path(segs, seq![prev] + nodes, seq![k] + ks),
        path_cost(segs, seq![k] + ks) == seg_millis(segs[k]) + path_cost(segs, ks),
        (seq![prev] + nodes).last() == nodes.last(),
        (seq![prev] + nodes)[0] == prev,
        (seq![prev] + nodes).drop_first() == nodes,
{
    let nn = seq![prev] + nodes;
    let nk = seq![k] + ks;
    assert forall|i: int| 0 <= i < nk.len() implies 0 <= #[trigger] nk[i] < segs.len() && joins(segs[nk[i]], nn[i] as int, nn[i + 1] as int) by {
        if i > 0 {
            assert(nk[i] == ks[i - 1]);
            assert(nn[i] == nodes[i - 1] && nn[i + 1] == nodes[i]);
        }
    }
    lemma_path_cost_prepend(segs, k, ks);
    assert(nn.drop_first() =~= nodes);
}

pub(crate) proof fn lemma_polyline_nonneg(points: Seq<Point>)
    ensures
        polyline(points) >= 0,
    decreases points.len(),
{
    if points.len() > 1 {
        lemma_polyline_nonneg(points.drop_last());
        lemma_distance_nonneg(points[points.len() - 2], points.last());
    }
}

/// A settled junction has been reached.
proof fn lemma_settled_finite(
    segs: Seq<Segment>,
    n: int,
    f: int,
    best: Seq<u128>,
    settled: Seq<bool>,
    came: Seq<Option<u32>>,
    came_seg: Seq<int>,
    ord: Seq<int>,
    done: Set<int>,
    v: int,
)
    requires
        frame_ok(segs, n, f, best, settled, came, came_seg, ord, done),
        0 <= v < n,
        settled[v],
    ensures
        best[v] != INF,
        best[v] <= u32::MAX * step_bound(),
{
    assert(best[v] <= ord[v] * step_bound());
    assert(ord[v] * step_bound() <= u32::MAX * step_bound()) by (nonlinear_arith)
        requires
            0 <= ord[v] <= u32::MAX,
    ;
}

/// Every junction on a walk from a known junction is known.
pub(crate) proof fn lemma_path_in_range(net: &Network, nodes: Seq<u32>, ks: Seq<int>)
    requires
        net.wf(),
        is_path(net.segs(), nodes, ks),
        nodes[0] < net.positions().len(),
    ensures
        forall|i: int| 0 <= i < nodes.len() ==> #[trigger] nodes[i] < net.positions().len(),
{
    assert forall|i: int| 0 <= i < nodes.len() implies #[trigger] nodes[i] < net.positions().len() by {
        if i > 0 {
            let k = ks[i - 1];
            assert(0 <= k < net.segs().len());
            let s = net.segments@[k];
            assert(joins(s, nodes[i - 1] as int, nodes[i] as int));
        }
    }
}


/// How far apart navigable water is sampled, in metres.
pub const FAIRWAY_SPACING: i64 = 40;

/// The clear water a barge needs across it, in metres.
pub const NAVIGABLE_BEAM: i64 = 24;

/// What a barge makes on open water: 24 km/h.
pub fn navigable_speed() -> (s: Speed)
    ensures
        s == Speed(24_000u64),
{
    Speed::from_kph(24)
}

/// What an aeroplane makes between aerodromes: 600 km/h.
pub fn airway_speed() -> (s: Speed)
    ensures
        s == Speed(600_000u64),
{
    Speed::from_kph(600)
}

/// How many fairway cells a map `extent` metres across has along each side.
pub open spec fn fairway_cells(extent: int) -> int {
    extent / FAIRWAY_SPACING as int
}

/// The middle of fairway cell `c`, counted along each row in turn.
pub open spec fn fairway_centre(across: int, c: int) -> Point {
    Point {
        x: Metres(((c % across) * FAIRWAY_SPACING + FAIRWAY_SPACING / 2) as i64),
        y: Metres(((c / across) * FAIRWAY_SPACING + FAIRWAY_SPACING / 2) as i64),
    }
}

/// Where the `k`th reading of fairway cell `c` is taken: its middle, then half
/// a beam west, east, south and north of it.
pub open spec fn fairway_reading(across: int, c: int, k: int) -> Point {
    let m = fairway_centre(across, c);
    let half = NAVIGABLE_BEAM / 2;
    if k == 1 {
        Point { x: Metres((m.x.0 - half) as i64), y: m.y }
    } else if k == 2 {
        Point { x: Metres((m.x.0 + half) as i64), y: m.y }
    } else if k == 3 {
        Point { x: m.x, y: Metres((m.y.0 - half) as i64) }
    } else if k == 4 {
        Point { x: m.x, y: Metres((m.y.0 + half) as i64) }
    } else {
        m
    }
}

/// Where the `k`th of the five readings of fairway cell `c` is taken, for a
/// map `across` cells a side. A caller reads the terrain there: whether it is
/// water.
pub fn fairway_point(across: u32, c: u32, k: u32) -> (p: Point)
    requires
        0 < across <= 0x1_0000,
        c < across * across,
        k < 5,
    ensures
        p == fairway_reading(across as int, c as int, k as int),
{
    let ix = (c % across) as i64;
    let iy = (c / across) as i64;
    assert(c / across < across) by (nonlinear_arith)
        requires
            c < across * across,
            across > 0,
    ;
    let mx = ix * FAIRWAY_SPACING + FAIRWAY_SPACING / 2;
    let my = iy * FAIRWAY_SPACING + FAIRWAY_SPACING / 2;
    let half = NAVIGABLE_BEAM / 2;
    if k == 1 {
        Point { x: Metres(mx - half), y: Metres(my) }
    } else if k == 2 {
        Point { x: Metres(mx + half), y: Metres(my) }
    } else if k == 3 {
        Point { x: Metres(mx), y: Metres(my - half) }
    } else if k == 4 {
        Point { x: Metres(mx), y: Metres(my + half) }
    } else {
        Point { x: Metres(mx), y: Metres(my) }
    }
}

/// Whether fairway cell `c` is navigable, from its five readings: water in
/// the middle, and a barge's beam of clear water across it in one direction
/// or the other. A river running north-south is narrow east-west, and that
/// is what a river is; asking for water on all four sides would find only
/// lakes.
pub open spec fn fairway_wet(water: Seq<bool>, c: int) -> bool {
    &&& water[5 * c]
    &&& ((water[5 * c + 1] && water[5 * c + 2]) || (water[5 * c + 3] && water[5 * c + 4]))
}

/// The junctions of the fairway among the first `c` cells: the middle of
/// every navigable one, in order.
pub open spec fn fairway_nodes(water: Seq<bool>, across: int, c: int) -> Seq<Point>
    decreases c,
{
    if c <= 0 {
        Seq::empty()
    } else if fairway_wet(water, c - 1) {
        fairway_nodes(water, across, c - 1).push(fairway_centre(across, c - 1))
    } else {
        fairway_nodes(water, across, c - 1)
    }
}

/// The junction a navigable cell becomes: how many navigable cells come
/// before it.
pub open spec fn fairway_id(water: Seq<bool>, across: int, c: int) -> NodeId {
    NodeId(fairway_nodes(water, across, c).len() as u32)
}

/// The span joining two navigable cells.
pub open spec fn fairway_span(water: Seq<bool>, across: int, a: int, b: int) -> Segment {
    Segment {
        from: fairway_id(water, across, a),
        to: fairway_id(water, across, b),
        length: Metres(distance(fairway_centre(across, a), fairway_centre(across, b)) as i64),
        speed: Speed(24_000u64),
    }
}

/// The spans laid from the first `c` cells: from each navigable cell to the
/// navigable cell east of it, then to the one north of it. Only forward, or
/// every span would be laid twice; four neighbours rather than eight, because
/// a diagonal hop between two water cells can cut a corner across the bank.
pub open spec fn fairway_spans(water: Seq<bool>, across: int, c: int) -> Seq<Segment>
    decreases c,
{
    if c <= 0 {
        Seq::empty()
    } else {
        let h = c - 1;
        let before = fairway_spans(water, across, h);
        if !fairway_wet(water, h) {
            before
        } else {
            let east = if h % across + 1 < across && fairway_wet(water, h + 1) {
                before.push(fairway_span(water, across, h, h + 1))
            } else {
                before
            };
            if h / across + 1 < across && fairway_wet(water, h + across) {
                east.push(fairway_span(water, across, h, h + across))
            } else {
                east
            }
        }
    }
}

proof fn lemma_fairway_count(water: Seq<bool>, across: int, a: int, b: int)
    requires
        0 <= a <= b,
    ensures
        fairway_nodes(water, across, a).len() <= fairway_nodes(water, across, b).len(),
        fairway_nodes(water, across, b).len() <= fairway_nodes(water, across, a).len() + (b - a),
        a < b && fairway_wet(water, a) ==> fairway_nodes(water, across, a).len() < fairway_nodes(water, across, b).len(),
    decreases b - a,
{
    if a < b {
        lemma_fairway_count(water, across, a, b - 1);
        if a == b - 1 {
        }
    }
}

proof fn lemma_fairway_node(water: Seq<bool>, across: int, a: int, n: int)
    requires
        0 <= a < n,
        fairway_wet(water, a),
    ensures
        fairway_nodes(water, across, a).len() < fairway_nodes(water, across, n).len(),
        fairway_nodes(water, across, n)[fairway_nodes(water, across, a).len() as int] == fairway_centre(across, a),
    decreases n - a,
{
    if n == a + 1 {
    } else {
        lemma_fairway_node(water, across, a, n - 1);
        lemma_fairway_count(water, across, a + 1, n - 1);
    }
}

/// The navigable water of a map `extent` metres across, as a network a barge
/// can route over, built from what the terrain is at each fairway reading.
///
/// `water` holds, for every fairway cell along each row in turn, whether each
/// of its five readings ([`fairway_point`]) is water. Every navigable cell is
/// a junction at its middle, and every pair of navigable cells side by side
/// is joined by a span at barge speed.
pub fn navigable(extent: Metres, water: &[bool]) -> (n: Network)
    requires
        extent.0 >= 0,
        fairway_cells(extent.0 as int) * fairway_cells(extent.0 as int) < u32::MAX,
        water@.len() == 5 * fairway_cells(extent.0 as int) * fairway_cells(extent.0 as int),
    ensures
        n.wf(),
        ({
            let across = fairway_cells(extent.0 as int);
            &&& n.positions() == fairway_nodes(water@, across, across * across)
            &&& n.segs() == fairway_spans(water@, across, across * across)
        }),
{
    let mut net = Network::new();
    let across_i: i64 = extent.0 / FAIRWAY_SPACING;
    let ghost across = across_i as int;
    assert(fairway_cells(extent.0 as int) == across);
    if across_i == 0 {
        assert(across * across == 0);
        assert(fairway_nodes(water@, 0, 0) == Seq::<Point>::empty());
        assert(fairway_spans(water@, 0, 0) == Seq::<Segment>::empty());
        return net;
    }
    assert(across_i <= 0xFFFF) by (nonlinear_arith)
        requires
            across_i * across_i < u32::MAX,
            across_i > 0,
    ;
    let side: usize = across_i as usize;
    let cells: usize = side * side;
    let total: usize = water.len();
    assert(total == 5 * cells) by (nonlinear_arith)
        requires
            total == 5 * across * across,
            cells == side * side,
            across == side,
    ;
    let speed = navigable_speed();
    // Junctions first, one per navigable cell, remembering which is which.
    let mut node_at: Vec<u32> = Vec::new();
    let mut c: usize = 0;
    while c < cells
        invariant
            across == side as int,
            0 < side <= 0xFFFF,
            cells == side * side,
            cells < u32::MAX,
            water@.len() == 5 * cells,
            total == water@.len(),
            c <= cells,
            net.wf(),
            net.positions() == fairway_nodes(water@, across, c as int),
            net.segs() == Seq::<Segment>::empty(),
            node_at@.len() == c,
            forall|j: int|
                0 <= j < c ==> #[trigger] node_at@[j] == if fairway_wet(water@, j) {
                    fairway_nodes(water@, across, j).len() as u32
                } else {
                    u32::MAX
                },
        decreases cells - c,
    {
        assert(5 * c + 4 < total) by (nonlinear_arith)
            requires
                c < cells,
                total == 5 * cells,
        ;
        let base = 5 * c;
        let wet = water[base] && ((water[base + 1] && water[base + 2]) || (water[base + 3] && water[base + 4]));
        assert(wet == fairway_wet(water@, c as int));
        if wet {
            proof {
                lemma_fairway_count(water@, across, 0, c as int);
            }
            let at = fairway_point(side as u32, c as u32, 0);
            let id = net.add_node(at);
            node_at.push(id.0);
        } else {
            node_at.push(u32::MAX);
        }
        c = c + 1;
    }
    // Then the spans, forward only.
    let mut c: usize = 0;
    while c < cells
        invariant
            across == side as int,
            0 < side <= 0xFFFF,
            cells == side * side,
            cells < u32::MAX,
            water@.len() == 5 * cells,
            c <= cells,
            net.wf(),
            speed == Speed(24_000u64),
            net.positions() == fairway_nodes(water@, across, cells as int),
            net.segs() == fairway_spans(water@, across, c as int),
            node_at@.len() == cells,
            forall|j: int|
                0 <= j < cells ==> #[trigger] node_at@[j] == if fairway_wet(water@, j) {
                    fairway_nodes(water@, across, j).len() as u32
                } else {
                    u32::MAX
                },
        decreases cells - c,
    {
        let here = node_at[c];
        proof {
            lemma_fairway_count(water@, across, 0, c as int);
            if fairway_wet(water@, c as int) {
                lemma_fairway_node(water@, across, c as int, cells as int);
            }
        }
        if here != u32::MAX {
            assert(fairway_wet(water@, c as int));
            let ghost before = net.segs();
            assert(c % side + 1 < side ==> c + 1 < cells) by (nonlinear_arith)
                requires
                    c < cells,
                    cells == side * side,
                    side > 0,
            ;
            assert(c / side + 1 < side ==> c + side < cells) by (nonlinear_arith)
                requires
                    c < cells,
                    cells == side * side,
                    side > 0,
            ;
            if c % side + 1 < side {
                let there = node_at[c + 1];
                proof {
                    lemma_fairway_count(water@, across, 0, c + 1);
                }
                if there != u32::MAX {
                    proof {
                        lemma_fairway_count(water@, across, c as int, c + 1);
                        lemma_fairway_node(water@, across, (c + 1) as int, cells as int);
                    }
                    net.connect(NodeId(here), NodeId(there), speed);
                }
            }
            let ghost after_east = net.segs();
            assert(after_east == if c % side + 1 < side && fairway_wet(water@, c + 1) {
                before.push(fairway_span(water@, across, c as int, c + 1))
            } else {
                before
            });
            if c / side + 1 < side {
                let there = node_at[c + side];
                proof {
                    lemma_fairway_count(water@, across, 0, (c + side) as int);
                }
                if there != u32::MAX {
                    proof {
                        lemma_fairway_count(water@, across, c as int, (c + side) as int);
                        lemma_fairway_node(water@, across, (c + side) as int, cells as int);
                    }
                    net.connect(NodeId(here), NodeId(there), speed);
                }
            }
        }
        assert(net.segs() == fairway_spans(water@, across, c + 1));
        c = c + 1;
    }
    net
}

/// The time a route reports is the time of the quickest walk between its
/// ends, whichever quickest walk it rode: so a door-to-door time through the
/// network's nearest junctions is the walk in, the route's time and the walk
/// out.
pub proof fn a_route_takes_the_quickest_time(segs: Seq<Segment>, a: int, b: int, nodes: Seq<NodeId>, ks: Seq<int>)
    requires
        nodes.len() >= 1,
        nodes[0].0 == a,
        nodes.last().0 == b,
        is_path(segs, ids(nodes), ks),
        no_cheaper(segs, a, b, path_cost(segs, ks)),
    ensures
        path_cost(segs, ks) == shortest_cost(segs, a, b),
{
    assert(ids(nodes)[0] == a);
    assert(ids(nodes).last() == b);
    assert(path_between(segs, ids(nodes), ks, a, b));
    lemma_shortest_cost_is(segs, a, b, path_cost(segs, ks));
}

/// Neighbouring fairway cells, east or north, have middles a spacing apart.
proof fn lemma_fairway_neighbours_apart(across: int, h: int, d: int)
    requires
        1 <= across <= 0xFFFF,
        0 <= h < across * across,
        (d == 1 && h % across + 1 < across) || (d == across && h / across + 1 < across),
    ensures
        distance(fairway_centre(across, h), fairway_centre(across, h + d)) == FAIRWAY_SPACING,
{
    vstd::arithmetic::div_mod::lemma_fundamental_div_mod(h, across);
    let q = h / across;
    let r = h % across;
    assert(0 <= r < across);
    assert(0 <= q < across) by (nonlinear_arith)
        requires
            0 <= h < across * across,
            h == across * q + r,
            0 <= r < across,
            across >= 1,
    ;
    if d == 1 {
        assert(h + 1 == q * across + (r + 1)) by (nonlinear_arith)
            requires
                h == across * q + r,
        ;
        vstd::arithmetic::div_mod::lemma_fundamental_div_mod_converse(h + 1, across, q, r + 1);
    } else {
        assert(h + across == (q + 1) * across + r) by (nonlinear_arith)
            requires
                h == across * q + r,
        ;
        vstd::arithmetic::div_mod::lemma_fundamental_div_mod_converse(h + across, across, q + 1, r);
    }
    let a = fairway_centre(across, h);
    let b = fairway_centre(across, h + d);
    assert(q * FAIRWAY_SPACING <= 0xFFFF * 40) by (nonlinear_arith)
        requires
            0 <= q < 0xFFFF,
            FAIRWAY_SPACING == 40,
    ;
    assert(r * FAIRWAY_SPACING <= 0xFFFF * 40) by (nonlinear_arith)
        requires
            0 <= r < 0xFFFF,
            FAIRWAY_SPACING == 40,
    ;
    assert((q + 1) * FAIRWAY_SPACING == q * FAIRWAY_SPACING + 40) by (nonlinear_arith)
        requires
            FAIRWAY_SPACING == 40,
    ;
    assert((r + 1) * FAIRWAY_SPACING == r * FAIRWAY_SPACING + 40) by (nonlinear_arith)
        requires
            FAIRWAY_SPACING == 40,
    ;
    let dx = b.x.0 - a.x.0;
    let dy = b.y.0 - a.y.0;
    if d == 1 {
        assert(dx == 40 && dy == 0);
    } else {
        assert(dx == 0 && dy == 40);
    }
    assert(dx * dx + dy * dy == 1600);
    assert(is_isqrt(40, 1600));
    lemma_isqrt_is(40, 1600);
}

/// Every span of the fairway is a spacing long and runs at barge speed.
pub proof fn fairway_spans_are_a_spacing_long(water: Seq<bool>, across: int, c: int)
    requires
        1 <= across <= 0xFFFF,
        0 <= c <= across * across,
    ensures
        forall|k: int|
            0 <= k < fairway_spans(water, across, c).len() ==> (#[trigger] fairway_spans(water, across, c)[k]).length.0
                == FAIRWAY_SPACING && fairway_spans(water, across, c)[k].speed == Speed(24_000u64),
    decreases c,
{
    if c > 0 {
        let h = c - 1;
        fairway_spans_are_a_spacing_long(water, across, h);
        if h % across + 1 < across {
            lemma_fairway_neighbours_apart(across, h, 1);
        }
        if h / across + 1 < across {
            lemma_fairway_neighbours_apart(across, h, across);
        }
        let before = fairway_spans(water, across, h);
        let all = fairway_spans(water, across, c);
        assert forall|k: int| 0 <= k < all.len() implies (#[trigger] all[k]).length.0 == FAIRWAY_SPACING
            && all[k].speed == Speed(24_000u64) by {
            if k < before.len() {
                assert(before[k].length.0 == FAIRWAY_SPACING);
            }
        }
    }
}

} // verus!
