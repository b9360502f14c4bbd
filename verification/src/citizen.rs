//! Citizens: who somebody is, what they were taught, and how far they will
//! go to work.
//!
//! A citizen has a home, and a job only if there is one they can actually
//! reach: on foot that is [`MAX_WALK`], along the roads where roads help and
//! in a straight line where they do not.

use crate::building::{building_def, building_index, lemma_index_of_member, Building, BuildingId, Buildings};
use crate::network::{
    cap_millis, ids, is_path, lemma_nearest_is, lemma_nearest_none, lemma_polyline_nonneg, nearest, no_cheaper,
    path_between, path_cost, polyline, reachable, Network, NodeId,
};
use crate::units::{distance, lemma_distance_nonneg, Metres, Point, Speed};
use std::collections::BTreeMap;
use vstd::prelude::*;

verus! {

/// How far someone will walk to work, each way, in metres.
pub const MAX_WALK: i64 = 2_000;

/// How far a junction can be from a building and still serve it, in metres.
pub const ROAD_ACCESS: i64 = 300;

/// Days in the republic's year.
pub const DAYS_PER_YEAR: u32 = 360;

/// Days of attendance that make somebody schooled: five years.
pub const SCHOOL_DAYS: u32 = 1_800;

/// Days at university, on top of school, that make somebody a graduate:
/// three years.
pub const UNIVERSITY_DAYS: u32 = 1_080;

/// The first year of working age.
pub const WORKING_AGE_FROM: u32 = 16;

/// The first year past working age.
pub const WORKING_AGE_UNTIL: u32 = 60;

/// The first year of school.
pub const SCHOOL_AGE_FROM: u32 = 6;

/// The first year past school.
pub const SCHOOL_AGE_UNTIL: u32 = 16;

/// An unhurried adult pace: five kilometres an hour.
pub fn walking_speed() -> (s: Speed)
    ensures
        s.0 == 5_000,
{
    Speed::from_kph(5)
}

/// What somebody was taught. Ordered: a graduate can work a quarry and an
/// unschooled labourer cannot run a refinery.
#[derive(Debug, Clone, Copy, PartialEq, Eq, Structural, PartialOrd, Ord, Hash)]
pub enum Education {
    /// Nobody taught them anything.
    Unschooled,
    Schooled,
    Graduate,
}

impl Education {
    /// Every level, least first.
    pub fn all() -> (r: [Education; 3])
        ensures
            r@ == seq![Education::Unschooled, Education::Schooled, Education::Graduate],
    {
        let r = [Education::Unschooled, Education::Schooled, Education::Graduate];
        assert(r@ =~= seq![Education::Unschooled, Education::Schooled, Education::Graduate]);
        r
    }

    pub fn name(self) -> (r: &'static str)
        ensures
            r@ == match self {
                Education::Unschooled => "Unschooled"@,
                Education::Schooled => "Schooled"@,
                Education::Graduate => "Graduate"@,
            },
    {
        match self {
            Education::Unschooled => "Unschooled",
            Education::Schooled => "Schooled",
            Education::Graduate => "Graduate",
        }
    }
}

/// Where somebody is in their life, derived from age and enrolment.
#[derive(Debug, Clone, Copy, PartialEq, Eq, Structural, PartialOrd, Ord, Hash)]
pub enum LifeStage {
    /// Too young for school.
    Infant,
    /// Of school age.
    Pupil,
    /// Of working age and at university instead.
    Student,
    Worker,
    Retired,
}

impl LifeStage {
    /// Every stage, youngest first.
    pub fn all() -> (r: [LifeStage; 5])
        ensures
            r@ == seq![LifeStage::Infant, LifeStage::Pupil, LifeStage::Student, LifeStage::Worker, LifeStage::Retired],
    {
        let r = [LifeStage::Infant, LifeStage::Pupil, LifeStage::Student, LifeStage::Worker, LifeStage::Retired];
        assert(r@ =~= seq![LifeStage::Infant, LifeStage::Pupil, LifeStage::Student, LifeStage::Worker, LifeStage::Retired]);
        r
    }

    pub fn name(self) -> (r: &'static str)
        ensures
            r@ == match self {
                LifeStage::Infant => "Infants"@,
                LifeStage::Pupil => "Pupils"@,
                LifeStage::Student => "Students"@,
                LifeStage::Worker => "Workers"@,
                LifeStage::Retired => "Retired"@,
            },
    {
        match self {
            LifeStage::Infant => "Infants",
            LifeStage::Pupil => "Pupils",
            LifeStage::Student => "Students",
            LifeStage::Worker => "Workers",
            LifeStage::Retired => "Retired",
        }
    }
}

/// A stable identity for a citizen.
#[derive(Debug, Clone, Copy, PartialEq, Eq, Structural, PartialOrd, Ord, Hash)]
pub struct CitizenId(pub u32);

/// Where a citizen lives.
#[derive(Debug, Clone, Copy, PartialEq, Eq, Structural)]
pub struct Home(pub BuildingId);

/// Where a citizen works, if anywhere.
#[derive(Debug, Clone, Copy, PartialEq, Eq, Structural)]
pub struct Workplace(pub Option<BuildingId>);

/// Years lived.
#[derive(Debug, Clone, Copy, PartialEq, Eq, Structural)]
pub struct Age(pub u32);

/// What somebody has been taught, and whether they are still being taught it.
#[derive(Debug, Clone, Copy, PartialEq, Eq, Structural)]
pub struct Learning {
    /// Days of attendance, at school and then at university.
    pub days: u32,
    /// Enrolled at a university right now, and therefore not available for
    /// work.
    pub studying: bool,
}

/// What a number of days of attendance add up to.
pub open spec fn attainment_of(days: u32) -> Education {
    if days >= SCHOOL_DAYS + UNIVERSITY_DAYS {
        Education::Graduate
    } else if days >= SCHOOL_DAYS {
        Education::Schooled
    } else {
        Education::Unschooled
    }
}

impl Learning {
    /// Somebody who has never seen a classroom.
    pub fn none() -> (l: Learning)
        ensures
            l.days == 0,
            !l.studying,
    {
        Learning { days: 0, studying: false }
    }

    /// Somebody who finished school.
    pub fn schooled() -> (l: Learning)
        ensures
            l.days == SCHOOL_DAYS,
            !l.studying,
    {
        Learning { days: SCHOOL_DAYS, studying: false }
    }

    /// What the days add up to.
    pub fn attainment(&self) -> (e: Education)
        ensures
            e == attainment_of(self.days),
    {
        if self.days >= SCHOOL_DAYS + UNIVERSITY_DAYS {
            Education::Graduate
        } else if self.days >= SCHOOL_DAYS {
            Education::Schooled
        } else {
            Education::Unschooled
        }
    }
}

/// One citizen, flattened: the ordered view of the population, and what the
/// labour pass reads and writes.
#[derive(Debug, Clone, Copy, PartialEq, Eq, Structural)]
pub struct CitizenRecord {
    pub id: CitizenId,
    pub home: Home,
    pub workplace: Workplace,
    pub age: Age,
    pub learning: Learning,
}

/// Whether someone of this age and enrolment is available to hold a job. A
/// student is a working-age adult who is not working.
pub open spec fn can_work_spec(age: u32, studying: bool) -> bool {
    WORKING_AGE_FROM <= age < WORKING_AGE_UNTIL && !studying
}

/// Where someone of this age and enrolment is in their life.
pub open spec fn stage_of(age: u32, studying: bool) -> LifeStage {
    if studying {
        LifeStage::Student
    } else if age < SCHOOL_AGE_FROM {
        LifeStage::Infant
    } else if age < SCHOOL_AGE_UNTIL {
        LifeStage::Pupil
    } else if age < WORKING_AGE_UNTIL {
        LifeStage::Worker
    } else {
        LifeStage::Retired
    }
}

/// Whether someone of this age and enrolment can hold a job.
pub fn can_work(age: Age, learning: Learning) -> (r: bool)
    ensures
        r == can_work_spec(age.0, learning.studying),
{
    WORKING_AGE_FROM <= age.0 && age.0 < WORKING_AGE_UNTIL && !learning.studying
}

/// Where someone of this age and enrolment is in their life.
pub fn stage(age: Age, learning: Learning) -> (s: LifeStage)
    ensures
        s == stage_of(age.0, learning.studying),
{
    if learning.studying {
        LifeStage::Student
    } else if age.0 < SCHOOL_AGE_FROM {
        LifeStage::Infant
    } else if age.0 < SCHOOL_AGE_UNTIL {
        LifeStage::Pupil
    } else if age.0 < WORKING_AGE_UNTIL {
        LifeStage::Worker
    } else {
        LifeStage::Retired
    }
}

/// The day of the year someone was born on, spread by their id so the whole
/// republic does not age on one day.
pub fn birthday(id: CitizenId) -> (d: u32)
    ensures
        d == id.0 % DAYS_PER_YEAR,
        d < DAYS_PER_YEAR,
{
    id.0 % DAYS_PER_YEAR
}

/// The distance of a trip along the roads: to the nearest junction, the
/// route's own length, and from the last junction to the door.
pub open spec fn by_road_distance(positions: Seq<Point>, a: int, b: int, home: Point, work: Point, route_length: int) -> int {
    distance(positions[a], home) + route_length + distance(positions[b], work)
}

/// `d` is a distance [`commute_distance`] may answer: the straight line,
/// unless both ends are near junctions joined by road, and then the shorter
/// of the straight line and the trip over a quickest route between those
/// junctions. Never longer than the straight line.
pub open spec fn is_commute(roads: &Network, home: Point, work: Point, d: int) -> bool {
    &&& 0 <= d <= distance(home, work)
    &&& match (
        nearest(roads.positions(), home, ROAD_ACCESS as int),
        nearest(roads.positions(), work, ROAD_ACCESS as int),
    ) {
        (Some(a), Some(b)) => if reachable(roads.segs(), a, b) {
            exists|nodes: Seq<NodeId>, ks: Seq<int>|
                #[trigger] is_path(roads.segs(), ids(nodes), ks) && nodes.len() >= 1 && nodes[0].0 == a
                    && nodes.last().0 == b && no_cheaper(roads.segs(), a, b, path_cost(roads.segs(), ks)) && d == {
                    let road = by_road_distance(roads.positions(), a, b, home, work, polyline(roads.route_points(nodes)));
                    if road < distance(home, work) {
                        road
                    } else {
                        distance(home, work)
                    }
                }
        } else {
            d == distance(home, work)
        },
        _ => d == distance(home, work),
    }
}

/// How far someone would go to work: along the roads when both ends are near
/// one and that is shorter, in a straight line otherwise. Never longer than
/// walking directly.
pub fn commute_distance(home: Point, work: Point, roads: &Network) -> (d: Metres)
    requires
        roads.wf(),
    ensures
        is_commute(roads, home, work, d.0 as int),
{
    let straight = home.distance_to(work);
    proof {
        lemma_distance_nonneg(home, work);
    }
    let a = roads.nearest_node(home, Metres(ROAD_ACCESS));
    let b = roads.nearest_node(work, Metres(ROAD_ACCESS));
    proof {
        match a {
            Some(x) => lemma_nearest_is(roads.positions(), home, ROAD_ACCESS as int, x.0 as int),
            None => lemma_nearest_none(roads.positions(), home, ROAD_ACCESS as int),
        }
        match b {
            Some(x) => lemma_nearest_is(roads.positions(), work, ROAD_ACCESS as int, x.0 as int),
            None => lemma_nearest_none(roads.positions(), work, ROAD_ACCESS as int),
        }
    }
    let (a, b) = match (a, b) {
        (Some(a), Some(b)) => (a, b),
        _ => return straight,
    };
    let route = match roads.route(a, b) {
        Some(r) => r,
        None => return straight,
    };
    let pa = roads.position_of(a).unwrap();
    let pb = roads.position_of(b).unwrap();
    let into = pa.distance_to(home);
    let out = pb.distance_to(work);
    proof {
        lemma_distance_nonneg(pa, home);
        lemma_distance_nonneg(pb, work);
        lemma_polyline_nonneg(roads.route_points(route.nodes@));
    }
    let along = route.distance;
    if (into.0 as i128) + (along.0 as i128) + (out.0 as i128) < straight.0 as i128 {
        proof {
            let segs = roads.segs();
            let nodes = route.nodes@;
            let ks = choose|ks: Seq<int>|
                #[trigger] is_path(segs, ids(nodes), ks) && cap_millis(path_cost(segs, ks)) == route.time.millis
                    && no_cheaper(segs, a.0 as int, b.0 as int, path_cost(segs, ks));
            assert(ids(nodes)[0] == a.0 && ids(nodes).last() == b.0);
            assert(path_between(segs, ids(nodes), ks, a.0 as int, b.0 as int));
            assert(along.0 == polyline(roads.route_points(nodes)));
            assert(is_path(segs, ids(nodes), ks) && nodes.len() >= 1 && nodes[0].0 == a.0 as int
                && nodes.last().0 == b.0 as int && no_cheaper(segs, a.0 as int, b.0 as int, path_cost(segs, ks))
                && (into.0 + along.0 + out.0) == by_road_distance(
                roads.positions(),
                a.0 as int,
                b.0 as int,
                home,
                work,
                polyline(roads.route_points(nodes)),
            ));
        }
        Metres(into.0 + along.0 + out.0)
    } else {
        straight
    }
}

/// Whether someone living at `home` could walk to a job at `work`: whether
/// the commute comes to no more than [`MAX_WALK`].
pub fn is_reachable(home: Point, work: Point, roads: &Network) -> (r: bool)
    requires
        roads.wf(),
    ensures
        exists|d: int| #[trigger] is_commute(roads, home, work, d) && r == (d <= MAX_WALK),
{
    let d = commute_distance(home, work, roads);
    assert(is_commute(roads, home, work, d.0 as int));
    d.0 <= MAX_WALK
}

/// What a level of education ranks as: a graduate can work a quarry and an
/// unschooled labourer cannot run a refinery.
pub open spec fn taught_rank(e: Education) -> int {
    match e {
        Education::Unschooled => 0,
        Education::Schooled => 1,
        Education::Graduate => 2,
    }
}

fn taught_at_least(have: Education, need: Education) -> (r: bool)
    ensures
        r == (taught_rank(have) >= taught_rank(need)),
{
    let a: u8 = match have {
        Education::Unschooled => 0,
        Education::Schooled => 1,
        Education::Graduate => 2,
    };
    let b: u8 = match need {
        Education::Unschooled => 0,
        Education::Schooled => 1,
        Education::Graduate => 2,
    };
    a >= b
}

/// Where somebody lives, if their home still stands finished.
pub open spec fn home_at(list: Seq<Building>, p: CitizenRecord) -> Option<Point> {
    let i = building_index(list, p.home.0);
    if i < list.len() && list[i].work_done >= building_def(list[i].kind).labour {
        Some(list[i].centre)
    } else {
        None
    }
}

/// Whether a building is a workplace: finished, with posts to fill.
pub open spec fn employs(b: Building) -> bool {
    b.work_done >= building_def(b.kind).labour && building_def(b.kind).workers > 0
}

/// Whether somebody could hold a post at `b` if they could get there: of
/// working age and not studying, with a home that stands, and taught what
/// the job needs.
pub open spec fn suited(list: Seq<Building>, p: CitizenRecord, b: Building) -> bool {
    &&& can_work_spec(p.age.0, p.learning.studying)
    &&& home_at(list, p) is Some
    &&& taught_rank(attainment_of(p.learning.days)) >= taught_rank(building_def(b.kind).schooling)
}

/// Some answer the commute gives between two points is within walking reach.
pub open spec fn within_walk(roads: &Network, home: Point, work: Point) -> bool {
    exists|d: int| #[trigger] is_commute(roads, home, work, d) && d <= MAX_WALK
}

/// Some answer the commute gives between two points is beyond walking reach.
pub open spec fn beyond_walk(roads: &Network, home: Point, work: Point) -> bool {
    exists|d: int| #[trigger] is_commute(roads, home, work, d) && d > MAX_WALK
}

/// How a candidate ranks for a post: nearer home first, then by id.
pub open spec fn ranks_before(list: Seq<Building>, p: CitizenRecord, q: CitizenRecord, b: Building) -> bool {
    let dp = distance(home_at(list, p)->0, b.centre);
    let dq = distance(home_at(list, q)->0, b.centre);
    dp < dq || (dp == dq && p.id.0 <= q.id.0)
}

/// How many people hold a post at `id`.
pub open spec fn staff_count(people: Seq<CitizenRecord>, id: BuildingId) -> nat
    decreases people.len(),
{
    if people.len() == 0 {
        0
    } else {
        staff_count(people.drop_last(), id) + if people.last().workplace == Workplace(Some(id)) {
            1nat
        } else {
            0nat
        }
    }
}

/// The workplaces among the buildings, in the order they were commissioned.
pub open spec fn workplaces(list: Seq<Building>) -> Seq<Building> {
    list.filter(|b: Building| employs(b))
}

/// What one labour pass decided: how many turned up at each workplace, in the
/// order the workplaces were commissioned.
#[derive(Debug, Clone, PartialEq, Eq)]
pub struct Labour {
    pub staffing: Vec<(BuildingId, u32)>,
}

/// The position of the workplace a post is at, among the buildings.
pub open spec fn post_index(list: Seq<Building>, p: CitizenRecord) -> int {
    building_index(list, p.workplace.0->0)
}

/// Everything about somebody but where they work is the same in both.
pub open spec fn same_person(a: CitizenRecord, b: CitizenRecord) -> bool {
    a.id == b.id && a.home == b.home && a.age == b.age && a.learning == b.learning
}

/// Somebody is free of every workplace up to the `k`th building: unemployed,
/// or taken by a building later in the list.
pub open spec fn not_before(list: Seq<Building>, p: CitizenRecord, k: int) -> bool {
    p.workplace.0 is None || post_index(list, p) > k
}

/// Where somebody works, if anywhere, is a workplace they are suited to and
/// can walk to from home.
pub open spec fn placed_well(list: Seq<Building>, roads: &Network, p: CitizenRecord) -> bool {
    match p.workplace.0 {
        None => true,
        Some(id) => {
            let k = building_index(list, id);
            &&& 0 <= k < list.len()
            &&& employs(list[k])
            &&& suited(list, p, list[k])
            &&& within_walk(roads, home_at(list, p)->0, list[k].centre)
        },
    }
}

/// The `k`th building went short of a crew only for want of anyone who could
/// walk there: everyone suited to it and free of earlier workplaces lives
/// beyond reach.
pub open spec fn short_only_of_reach(list: Seq<Building>, roads: &Network, people: Seq<CitizenRecord>, k: int) -> bool {
    staff_count(people, list[k].id) < building_def(list[k].kind).workers ==> forall|j: int|
        0 <= j < people.len() && not_before(list, #[trigger] people[j], k) && suited(list, people[j], list[k])
            ==> beyond_walk(roads, home_at(list, people[j])->0, list[k].centre)
}

/// Whoever the `k`th building took lives nearer it (then has the lower id)
/// than anyone suited it left free who could have walked there.
pub open spec fn took_the_nearest(list: Seq<Building>, roads: &Network, people: Seq<CitizenRecord>, k: int) -> bool {
    forall|i: int, j: int|
        0 <= i < people.len() && 0 <= j < people.len() && (#[trigger] people[i]).workplace == Workplace(Some(list[k].id))
            && not_before(list, #[trigger] people[j], k) && suited(list, people[j], list[k]) ==> beyond_walk(
            roads,
            home_at(list, people[j])->0,
            list[k].centre,
        ) || ranks_before(list, people[i], people[j], list[k])
}

/// What the pass did to the `k`th building, if it employs anyone: no more
/// than one crew, short only for want of reach, the nearest taken first.
pub open spec fn staffed_fairly(list: Seq<Building>, roads: &Network, people: Seq<CitizenRecord>, k: int) -> bool {
    employs(list[k]) ==> {
        &&& staff_count(people, list[k].id) <= building_def(list[k].kind).workers
        &&& short_only_of_reach(list, roads, people, k)
        &&& took_the_nearest(list, roads, people, k)
    }
}

/// `b` is `a` after the `k`th building took some of those who had no work.
pub open spec fn hired_at(list: Seq<Building>, a: Seq<CitizenRecord>, b: Seq<CitizenRecord>, k: int) -> bool {
    &&& a.len() == b.len()
    &&& forall|j: int|
        0 <= j < a.len() ==> same_person(#[trigger] a[j], b[j]) && (b[j].workplace == a[j].workplace || (
        a[j].workplace.0 is None && b[j].workplace.0 is Some && post_index(list, b[j]) == k))
}

proof fn lemma_staff_count_update(s: Seq<CitizenRecord>, i: int, v: CitizenRecord, id: BuildingId)
    requires
        0 <= i < s.len(),
    ensures
        staff_count(s.update(i, v), id) + (if s[i].workplace == Workplace(Some(id)) { 1int } else { 0int })
            == staff_count(s, id) + (if v.workplace == Workplace(Some(id)) { 1int } else { 0int }),
    decreases s.len(),
{
    if i == s.len() - 1 {
        assert(s.update(i, v).drop_last() =~= s.drop_last());
    } else {
        lemma_staff_count_update(s.drop_last(), i, v, id);
        assert(s.update(i, v).drop_last() =~= s.drop_last().update(i, v));
    }
}

proof fn lemma_staff_count_same(a: Seq<CitizenRecord>, b: Seq<CitizenRecord>, id: BuildingId)
    requires
        a.len() == b.len(),
        forall|j: int|
            0 <= j < a.len() ==> ((#[trigger] a[j]).workplace == Workplace(Some(id))) == (b[j].workplace == Workplace(
                Some(id),
            )),
    ensures
        staff_count(a, id) == staff_count(b, id),
    decreases a.len(),
{
    if a.len() > 0 {
        assert forall|j: int| 0 <= j < a.drop_last().len() implies ((#[trigger] a.drop_last()[j]).workplace
            == Workplace(Some(id))) == (b.drop_last()[j].workplace == Workplace(Some(id))) by {
            assert(a.drop_last()[j] == a[j]);
            assert(b.drop_last()[j] == b[j]);
        }
        lemma_staff_count_same(a.drop_last(), b.drop_last(), id);
    }
}

proof fn lemma_staff_count_none(s: Seq<CitizenRecord>, id: BuildingId)
    requires
        forall|j: int| 0 <= j < s.len() ==> (#[trigger] s[j]).workplace != Workplace(Some(id)),
    ensures
        staff_count(s, id) == 0,
    decreases s.len(),
{
    if s.len() > 0 {
        assert forall|j: int| 0 <= j < s.drop_last().len() implies (#[trigger] s.drop_last()[j]).workplace
            != Workplace(Some(id)) by {
            assert(s.drop_last()[j] == s[j]);
        }
        lemma_staff_count_none(s.drop_last(), id);
    }
}

/// Hiring at a later building leaves what an earlier one was told intact.
proof fn lemma_later_hires_keep(list: Seq<Building>, roads: &Network, a: Seq<CitizenRecord>, b: Seq<CitizenRecord>, k: int, k2: int)
    requires
        0 <= k2 < k < list.len(),
        forall|i: int, j: int| 0 <= i < j < list.len() ==> (#[trigger] list[i]).id != (#[trigger] list[j]).id,
        hired_at(list, a, b, k),
        staffed_fairly(list, roads, a, k2),
    ensures
        staffed_fairly(list, roads, b, k2),
        staff_count(b, list[k2].id) == staff_count(a, list[k2].id),
{
    lemma_index_of_member(list, k2);
    let id = list[k2].id;
    assert forall|j: int| 0 <= j < a.len() implies ((#[trigger] a[j]).workplace == Workplace(Some(id))) == (
    b[j].workplace == Workplace(Some(id))) by {
        if b[j].workplace != a[j].workplace {
            if b[j].workplace == Workplace(Some(id)) {
                assert(post_index(list, b[j]) == k2);
            }
        }
    }
    lemma_staff_count_same(a, b, id);
    if employs(list[k2]) {
        assert forall|j: int|
            0 <= j < b.len() && not_before(list, #[trigger] b[j], k2) && suited(list, b[j], list[k2])
                && staff_count(b, list[k2].id) < building_def(list[k2].kind).workers implies beyond_walk(
            roads,
            home_at(list, b[j])->0,
            list[k2].centre,
        ) by {
            assert(same_person(a[j], b[j]));
            assert(not_before(list, a[j], k2));
        }
        assert forall|i: int, j: int|
            0 <= i < b.len() && 0 <= j < b.len() && (#[trigger] b[i]).workplace == Workplace(Some(list[k2].id))
                && not_before(list, #[trigger] b[j], k2) && suited(list, b[j], list[k2]) implies beyond_walk(
            roads,
            home_at(list, b[j])->0,
            list[k2].centre,
        ) || ranks_before(list, b[i], b[j], list[k2]) by {
            assert(same_person(a[j], b[j]));
            assert(same_person(a[i], b[i]));
            assert(not_before(list, a[j], k2));
            assert(a[i].workplace == Workplace(Some(list[k2].id)));
        }
    }
}

/// Where somebody lives, if their home still stands finished.
fn home_point(buildings: &Buildings, p: CitizenRecord) -> (r: Option<Point>)
    ensures
        r == home_at(buildings.buildings(), p),
{
    match buildings.get(p.home.0) {
        Some(b) => if b.is_built() {
            Some(b.centre)
        } else {
            None
        },
        None => None,
    }
}

/// The `k`th building takes up to one crew from those without work, nearest
/// home first, and says how many it took.
fn hire_for(people: &mut Vec<CitizenRecord>, buildings: &Buildings, roads: &Network, k: usize) -> (hired: u32)
    requires
        buildings.wf(),
        roads.wf(),
        k < buildings.buildings().len(),
        employs(buildings.buildings()[k as int]),
        forall|j: int| 0 <= j < old(people)@.len() ==> placed_well(buildings.buildings(), roads, #[trigger] old(people)@[j]),
        forall|j: int|
            0 <= j < old(people)@.len() && (#[trigger] old(people)@[j]).workplace.0 is Some ==> post_index(
                buildings.buildings(),
                old(people)@[j],
            ) < k,
    ensures
        hired_at(buildings.buildings(), old(people)@, final(people)@, k as int),
        hired == staff_count(final(people)@, buildings.buildings()[k as int].id),
        staffed_fairly(buildings.buildings(), roads, final(people)@, k as int),
        forall|j: int| 0 <= j < final(people)@.len() ==> placed_well(buildings.buildings(), roads, #[trigger] final(people)@[j]),
        forall|j: int|
            0 <= j < final(people)@.len() && (#[trigger] final(people)@[j]).workplace.0 is Some ==> post_index(
                buildings.buildings(),
                final(people)@[j],
            ) <= k,
{
    let ghost list = buildings.buildings();
    let ghost a = people@;
    let all = buildings.all();
    let b = &all[k];
    let ghost bk = list[k as int];
    let need = b.def().schooling;
    let workers = b.def().workers;
    let n = people.len();
    proof {
        lemma_index_of_member(list, k as int);
    }
    let mut elig: Vec<bool> = Vec::new();
    let mut dist: Vec<i64> = Vec::new();
    let mut j: usize = 0;
    while j < n
        invariant
            all@ == list,
            list == buildings.buildings(),
            *b == bk,
            bk == list[k as int],
            need == building_def(bk.kind).schooling,
            roads.wf(),
            people@ == a,
            n == a.len(),
            j <= n,
            elig@.len() == j,
            dist@.len() == j,
            forall|i: int|
                0 <= i < j && #[trigger] elig@[i] ==> a[i].workplace.0 is None && suited(list, a[i], bk) && within_walk(
                    roads,
                    home_at(list, a[i])->0,
                    bk.centre,
                ) && dist@[i] == distance(home_at(list, a[i])->0, bk.centre),
            forall|i: int|
                0 <= i < j && (#[trigger] a[i]).workplace.0 is None && suited(list, a[i], bk) && !elig@[i] ==> beyond_walk(
                    roads,
                    home_at(list, a[i])->0,
                    bk.centre,
                ),
        decreases n - j,
    {
        let p = people[j];
        let mut ok = false;
        let mut d: i64 = 0;
        if p.workplace.0.is_none() && can_work(p.age, p.learning) && taught_at_least(p.learning.attainment(), need) {
            match home_point(buildings, p) {
                Some(h) => {
                    let r = is_reachable(h, b.centre, roads);
                    proof {
                        let w = choose|w: int| #[trigger] is_commute(roads, h, bk.centre, w) && r == (w <= MAX_WALK);
                        assert(is_commute(roads, h, bk.centre, w));
                    }
                    if r {
                        ok = true;
                        d = h.distance_to(b.centre).0;
                    }
                },
                None => {},
            }
        }
        elig.push(ok);
        dist.push(d);
        j = j + 1;
    }
    let mut hired: u32 = 0;
    let mut done = false;
    proof {
        assert forall|i: int| 0 <= i < a.len() implies (#[trigger] a[i]).workplace != Workplace(Some(bk.id)) by {
            if a[i].workplace == Workplace(Some(bk.id)) {
                assert(post_index(list, a[i]) == k);
            }
        }
        lemma_staff_count_none(a, bk.id);
    }
    while hired < workers && !done
        invariant
            all@ == list,
            list == buildings.buildings(),
            *b == bk,
            bk == list[k as int],
            workers == building_def(bk.kind).workers,
            building_index(list, bk.id) == k,
            n == a.len(),
            people@.len() == n,
            elig@.len() == n,
            dist@.len() == n,
            hired <= workers,
            hired_at(list, a, people@, k as int),
            staff_count(people@, bk.id) == hired,
            forall|i: int|
                0 <= i < n && (#[trigger] people@[i]).workplace != a[i].workplace ==> people@[i].workplace == Workplace(
                    Some(bk.id),
                ) && elig@[i],
            forall|i: int|
                0 <= i < n && #[trigger] elig@[i] ==> a[i].workplace.0 is None && suited(list, a[i], bk) && within_walk(
                    roads,
                    home_at(list, a[i])->0,
                    bk.centre,
                ) && dist@[i] == distance(home_at(list, a[i])->0, bk.centre),
            forall|i: int, q: int|
                0 <= i < n && 0 <= q < n && (#[trigger] people@[i]).workplace == Workplace(Some(bk.id)) && #[trigger] elig@[q]
                    && people@[q].workplace.0 is None ==> ranks_before(list, people@[i], people@[q], bk),
            done ==> forall|q: int| 0 <= q < n && #[trigger] elig@[q] ==> people@[q].workplace.0 is Some,
        decreases workers - hired, if done { 0int } else { 1int },
    {
        let mut found = false;
        let mut best: usize = 0;
        let mut i: usize = 0;
        while i < n
            invariant
                n == people@.len(),
                elig@.len() == n,
                dist@.len() == n,
                i <= n,
                found ==> best < i && elig@[best as int] && people@[best as int].workplace.0 is None,
                found ==> forall|q: int|
                    0 <= q < i && #[trigger] elig@[q] && people@[q].workplace.0 is None ==> dist@[best as int] < dist@[q]
                        || (dist@[best as int] == dist@[q] && people@[best as int].id.0 <= people@[q].id.0),
                !found ==> forall|q: int| 0 <= q < i && #[trigger] elig@[q] ==> people@[q].workplace.0 is Some,
            decreases n - i,
        {
            if elig[i] && people[i].workplace.0.is_none() {
                if !found || dist[i] < dist[best] || (dist[i] == dist[best] && people[i].id.0 < people[best].id.0) {
                    found = true;
                    best = i;
                }
            }
            i = i + 1;
        }
        if !found {
            done = true;
        } else {
            let ghost before = people@;
            let mut p = people[best];
            p.workplace = Workplace(Some(b.id));
            people.set(best, p);
            proof {
                lemma_staff_count_update(before, best as int, p, bk.id);
                assert(same_person(a[best as int], people@[best as int]));
                assert forall|x: int, q: int|
                    0 <= x < n && 0 <= q < n && (#[trigger] people@[x]).workplace == Workplace(Some(bk.id))
                        && #[trigger] elig@[q] && people@[q].workplace.0 is None implies ranks_before(
                    list,
                    people@[x],
                    people@[q],
                    bk,
                ) by {
                    assert(same_person(a[q], people@[q]));
                    assert(same_person(a[x], people@[x]));
                    if x == best as int {
                        assert(q != best as int);
                        assert(before[q] == people@[q]);
                        assert(same_person(a[q], before[q]));
                        assert(home_at(list, people@[q]) == home_at(list, a[q]));
                        assert(home_at(list, people@[x]) == home_at(list, a[x]));
                    } else {
                        assert(before[x] == people@[x]);
                        assert(before[q] == people@[q]);
                    }
                }
                assert forall|x: int| 0 <= x < a.len() implies same_person(#[trigger] a[x], people@[x]) && (
                people@[x].workplace == a[x].workplace || (a[x].workplace.0 is None && people@[x].workplace.0 is Some
                    && post_index(list, people@[x]) == k)) by {
                    if x != best as int {
                        assert(before[x] == people@[x]);
                    }
                }
            }
            hired = hired + 1;
        }
    }
    proof {
        let f = people@;
        assert forall|x: int| 0 <= x < n && (#[trigger] f[x]).workplace.0 is Some implies post_index(list, f[x]) <= k by {
            assert(f[x].workplace == a[x].workplace || post_index(list, f[x]) == k);
        }
        assert forall|x: int| 0 <= x < n implies placed_well(list, roads, #[trigger] f[x]) by {
            assert(same_person(a[x], f[x]));
            assert(home_at(list, f[x]) == home_at(list, a[x]));
            if f[x].workplace != a[x].workplace {
                assert(elig@[x]);
            } else {
                assert(placed_well(list, roads, a[x]));
            }
        }
        assert forall|x: int|
            0 <= x < n && not_before(list, #[trigger] f[x], k as int) && suited(list, f[x], bk) && staff_count(f, bk.id)
                < workers implies beyond_walk(roads, home_at(list, f[x])->0, bk.centre) by {
            assert(same_person(a[x], f[x]));
            assert(home_at(list, f[x]) == home_at(list, a[x]));
            assert(f[x].workplace == a[x].workplace);
            assert(f[x].workplace.0 is None);
            assert(!elig@[x]);
        }
        assert forall|x: int, q: int|
            0 <= x < n && 0 <= q < n && (#[trigger] f[x]).workplace == Workplace(Some(bk.id)) && not_before(
                list,
                #[trigger] f[q],
                k as int,
            ) && suited(list, f[q], bk) implies beyond_walk(roads, home_at(list, f[q])->0, bk.centre) || ranks_before(
            list,
            f[x],
            f[q],
            bk,
        ) by {
            assert(same_person(a[q], f[q]));
            assert(home_at(list, f[q]) == home_at(list, a[q]));
            assert(f[q].workplace == a[q].workplace);
            assert(f[q].workplace.0 is None);
        }
    }
    hired
}

/// The labour pass over a flat list of citizens; see [`assign_labour`].
fn assign_records(people: &mut Vec<CitizenRecord>, buildings: &Buildings, roads: &Network) -> (l: Labour)
    requires
        buildings.wf(),
        roads.wf(),
    ensures
        final(people)@.len() == old(people)@.len(),
        forall|j: int| 0 <= j < old(people)@.len() ==> same_person(#[trigger] old(people)@[j], final(people)@[j]),
        forall|j: int| 0 <= j < final(people)@.len() ==> placed_well(buildings.buildings(), roads, #[trigger] final(people)@[j]),
        forall|k: int| 0 <= k < buildings.buildings().len() ==> #[trigger] staffed_fairly(
            buildings.buildings(),
            roads,
            final(people)@,
            k,
        ),
        l.staffing@.len() == workplaces(buildings.buildings()).len(),
        forall|m: int| 0 <= m < l.staffing@.len() ==> (#[trigger] l.staffing@[m]).0 == workplaces(buildings.buildings())[m].id
            && l.staffing@[m].1 == staff_count(final(people)@, workplaces(buildings.buildings())[m].id),
{
    let ghost list = buildings.buildings();
    let ghost start = people@;
    let n = people.len();
    let mut c: usize = 0;
    while c < n
        invariant
            n == people@.len(),
            c <= n,
            start.len() == n,
            forall|j: int| 0 <= j < n ==> same_person(#[trigger] start[j], people@[j]),
            forall|j: int| 0 <= j < c ==> (#[trigger] people@[j]).workplace == Workplace(None),
        decreases n - c,
    {
        let mut p = people[c];
        p.workplace = Workplace(None);
        people.set(c, p);
        c = c + 1;
    }
    let all = buildings.all();
    let mut staffing: Vec<(BuildingId, u32)> = Vec::new();
    let mut k: usize = 0;
    while k < all.len()
        invariant
            list == buildings.buildings(),
            all@ == list,
            buildings.wf(),
            roads.wf(),
            n == people@.len(),
            start.len() == n,
            k <= list.len(),
            forall|j: int| 0 <= j < n ==> same_person(#[trigger] start[j], people@[j]),
            forall|j: int| 0 <= j < n ==> placed_well(list, roads, #[trigger] people@[j]),
            forall|j: int| 0 <= j < n && (#[trigger] people@[j]).workplace.0 is Some ==> post_index(list, people@[j]) < k,
            forall|k2: int| 0 <= k2 < k ==> #[trigger] staffed_fairly(list, roads, people@, k2),
            staffing@.len() == workplaces(list.take(k as int)).len(),
            forall|m: int| 0 <= m < staffing@.len() ==> (#[trigger] staffing@[m]).0 == workplaces(list.take(k as int))[m].id
                && staffing@[m].1 == staff_count(people@, workplaces(list.take(k as int))[m].id),
        decreases list.len() - k,
    {
        let b = &all[k];
        proof {
            assert(list.take(k + 1).drop_last() =~= list.take(k as int));
            assert(list.take(k + 1) == list.take(k as int).push(list[k as int]));
            list.take(k as int).lemma_filter_push(list[k as int], |b: Building| employs(b));
        }
        if b.is_built() && b.def().workers > 0 {
            let ghost before = people@;
            let hired = hire_for(people, buildings, roads, k);
            proof {
                assert forall|k2: int| 0 <= k2 < k implies #[trigger] staffed_fairly(list, roads, people@, k2) by {
                    lemma_later_hires_keep(list, roads, before, people@, k as int, k2);
                }
                let ws = workplaces(list.take(k as int));
                assert forall|m: int| 0 <= m < ws.len() implies staff_count(people@, (#[trigger] ws[m]).id)
                    == staff_count(before, ws[m].id) by {
                    assert(ws.contains(ws[m]));
                    list.take(k as int).lemma_filter_contains_rev(|b: Building| employs(b), ws[m]);
                    assert(list.take(k as int).contains(ws[m]));
                    let j = choose|j: int| 0 <= j < k && list.take(k as int)[j] == ws[m];
                    assert(list[j] == ws[m]);
                    lemma_later_hires_keep(list, roads, before, people@, k as int, j);
                }
            }
            staffing.push((b.id, hired));
        } else {
            proof {
                assert(!employs(list[k as int]));
            }
        }
        k = k + 1;
        proof {
            assert forall|j: int| 0 <= j < n && (#[trigger] people@[j]).workplace.0 is Some implies post_index(list, people@[j]) < k by {}
        }
    }
    proof {
        assert(list.take(list.len() as int) =~= list);
    }
    Labour { staffing }
}

/// How many of a list of citizens something is true of.
pub open spec fn count_where(people: Seq<CitizenRecord>, holds: spec_fn(CitizenRecord) -> bool) -> nat
    decreases people.len(),
{
    if people.len() == 0 {
        0
    } else {
        count_where(people.drop_last(), holds) + if holds(people.last()) {
            1nat
        } else {
            0nat
        }
    }
}

/// Those in a list of citizens who live in a building, in list order.
pub open spec fn living_in(people: Seq<CitizenRecord>, building: BuildingId) -> Seq<CitizenRecord>
    decreases people.len(),
{
    if people.len() == 0 {
        Seq::empty()
    } else if people.last().home == Home(building) {
        living_in(people.drop_last(), building).push(people.last())
    } else {
        living_in(people.drop_last(), building)
    }
}

proof fn lemma_count_where_is_filter(people: Seq<CitizenRecord>, holds: spec_fn(CitizenRecord) -> bool)
    ensures
        count_where(people, holds) == people.filter(holds).len(),
    decreases people.len(),
{
    reveal(Seq::filter);
    if people.len() > 0 {
        lemma_count_where_is_filter(people.drop_last(), holds);
    }
}

proof fn lemma_staff_count_is_filter(people: Seq<CitizenRecord>, id: BuildingId)
    ensures
        staff_count(people, id) == people.filter(|c: CitizenRecord| c.workplace == Workplace(Some(id))).len(),
    decreases people.len(),
{
    reveal(Seq::filter);
    if people.len() > 0 {
        lemma_staff_count_is_filter(people.drop_last(), id);
    }
}

proof fn lemma_living_in_is_filter(people: Seq<CitizenRecord>, building: BuildingId)
    ensures
        living_in(people, building) == people.filter(|c: CitizenRecord| c.home == Home(building)),
    decreases people.len(),
{
    reveal(Seq::filter);
    if people.len() > 0 {
        lemma_living_in_is_filter(people.drop_last(), building);
    }
}

proof fn lemma_count_step(people: Seq<CitizenRecord>, holds: spec_fn(CitizenRecord) -> bool, i: int)
    requires
        0 <= i < people.len(),
    ensures
        count_where(people.take(i + 1), holds) == count_where(people.take(i), holds) + if holds(people[i]) {
            1int
        } else {
            0int
        },
        count_where(people.take(i), holds) <= i,
    decreases i,
{
    assert(people.take(i + 1).drop_last() =~= people.take(i));
    if i > 0 {
        lemma_count_step(people, holds, i - 1);
    } else {
        assert(people.take(0).len() == 0);
    }
}

impl CitizenRecord {
    /// Whether this person can hold a job.
    pub fn can_work(&self) -> (r: bool)
        ensures
            r == can_work_spec(self.age.0, self.learning.studying),
    {
        can_work(self.age, self.learning)
    }

    /// What this person was taught.
    pub fn education(&self) -> (e: Education)
        ensures
            e == attainment_of(self.learning.days),
    {
        self.learning.attainment()
    }

    /// Where this person is in their life.
    pub fn stage(&self) -> (s: LifeStage)
        ensures
            s == stage_of(self.age.0, self.learning.studying),
    {
        stage(self.age, self.learning)
    }

    /// The day of the year this person was born on.
    pub fn birthday(&self) -> (d: u32)
        ensures
            d == self.id.0 % DAYS_PER_YEAR,
    {
        birthday(self.id)
    }
}

/// The first year of an age to be starting a family.
pub const FERTILE_AGE_FROM: u32 = 20;

/// The first year past it.
pub const FERTILE_AGE_UNTIL: u32 = 40;

/// Who lives in one home, as the contentment pass reads it.
#[derive(Debug, Clone, Copy, PartialEq, Eq, Structural)]
pub struct HomeCensus {
    pub residents: u32,
    /// Of working age and not at university.
    pub working_age: u32,
    /// Of those, how many hold a job.
    pub employed: u32,
    /// Of school age, whether or not a school exists to send them to.
    pub pupils: u32,
    /// Of an age to be starting a family.
    pub fertile: u32,
}

/// Whether somebody lives at the building numbered `home`.
pub open spec fn lives_at(home: u32) -> spec_fn(CitizenRecord) -> bool {
    |c: CitizenRecord| c.home.0.0 == home
}

/// The census of the building numbered `home` over a list of citizens.
pub open spec fn census_of(people: Seq<CitizenRecord>, home: u32) -> HomeCensus {
    HomeCensus {
        residents: count_where(people, |c: CitizenRecord| c.home.0.0 == home) as u32,
        working_age: count_where(
            people,
            |c: CitizenRecord| c.home.0.0 == home && can_work_spec(c.age.0, c.learning.studying),
        ) as u32,
        employed: count_where(
            people,
            |c: CitizenRecord| c.home.0.0 == home && can_work_spec(c.age.0, c.learning.studying) && c.workplace.0 is Some,
        ) as u32,
        pupils: count_where(
            people,
            |c: CitizenRecord| c.home.0.0 == home && SCHOOL_AGE_FROM <= c.age.0 < SCHOOL_AGE_UNTIL,
        ) as u32,
        fertile: count_where(
            people,
            |c: CitizenRecord| c.home.0.0 == home && FERTILE_AGE_FROM <= c.age.0 < FERTILE_AGE_UNTIL,
        ) as u32,
    }
}

proof fn lemma_count_within(people: Seq<CitizenRecord>, p: spec_fn(CitizenRecord) -> bool, q: spec_fn(CitizenRecord) -> bool)
    requires
        forall|c: CitizenRecord| #[trigger] p(c) ==> q(c),
    ensures
        count_where(people, p) <= count_where(people, q),
    decreases people.len(),
{
    if people.len() > 0 {
        lemma_count_within(people.drop_last(), p, q);
    }
}

proof fn lemma_census_step(people: Seq<CitizenRecord>, i: int, home: u32)
    requires
        0 <= i < people.len(),
        people.len() < u32::MAX,
    ensures
        census_of(people.take(i), home).residents <= i,
        census_of(people.take(i), home).working_age <= i,
        census_of(people.take(i), home).employed <= i,
        census_of(people.take(i), home).pupils <= i,
        census_of(people.take(i), home).fertile <= i,
        census_of(people.take(i), home).working_age <= census_of(people.take(i), home).residents,
        census_of(people.take(i), home).employed <= census_of(people.take(i), home).residents,
        census_of(people.take(i), home).pupils <= census_of(people.take(i), home).residents,
        census_of(people.take(i), home).fertile <= census_of(people.take(i), home).residents,
        census_of(people.take(i + 1), home) == if people[i].home.0.0 == home {
            let b = census_of(people.take(i), home);
            let c = people[i];
            HomeCensus {
                residents: (b.residents + 1) as u32,
                working_age: if can_work_spec(c.age.0, c.learning.studying) {
                    (b.working_age + 1) as u32
                } else {
                    b.working_age
                },
                employed: if can_work_spec(c.age.0, c.learning.studying) && c.workplace.0 is Some {
                    (b.employed + 1) as u32
                } else {
                    b.employed
                },
                pupils: if SCHOOL_AGE_FROM <= c.age.0 < SCHOOL_AGE_UNTIL {
                    (b.pupils + 1) as u32
                } else {
                    b.pupils
                },
                fertile: if FERTILE_AGE_FROM <= c.age.0 < FERTILE_AGE_UNTIL {
                    (b.fertile + 1) as u32
                } else {
                    b.fertile
                },
            }
        } else {
            census_of(people.take(i), home)
        },
{
    let r = |c: CitizenRecord| c.home.0.0 == home;
    let w = |c: CitizenRecord| c.home.0.0 == home && can_work_spec(c.age.0, c.learning.studying);
    let e = |c: CitizenRecord| c.home.0.0 == home && can_work_spec(c.age.0, c.learning.studying) && c.workplace.0 is Some;
    let p = |c: CitizenRecord| c.home.0.0 == home && SCHOOL_AGE_FROM <= c.age.0 < SCHOOL_AGE_UNTIL;
    let f = |c: CitizenRecord| c.home.0.0 == home && FERTILE_AGE_FROM <= c.age.0 < FERTILE_AGE_UNTIL;
    lemma_count_step(people, r, i);
    lemma_count_step(people, w, i);
    lemma_count_step(people, e, i);
    lemma_count_step(people, p, i);
    lemma_count_step(people, f, i);
    let t = people.take(i);
    lemma_count_within(t, w, r);
    lemma_count_within(t, e, r);
    lemma_count_within(t, p, r);
    lemma_count_within(t, f, r);
}

/// Everyone who lives in the republic, kept in id order. Ids are handed out
/// in order and never reused, so a citizen who dies leaves a gap and the
/// order of everyone else stands.
#[derive(Debug, Clone, PartialEq, Eq)]
pub struct Population {
    records: Vec<CitizenRecord>,
    next_id: u32,
}

impl Population {
    pub closed spec fn people(&self) -> Seq<CitizenRecord> {
        self.records@
    }

    pub closed spec fn next_id_spec(&self) -> u32 {
        self.next_id
    }

    /// Ids rise along the list, every one below the next to be issued, and
    /// there are fewer citizens than ids issued.
    pub open spec fn wf(&self) -> bool {
        &&& 1 <= self.next_id_spec()
        &&& self.people().len() < self.next_id_spec()
        &&& forall|i: int, j: int|
            0 <= i < j < self.people().len() ==> (#[trigger] self.people()[i]).id.0 < (#[trigger] self.people()[j]).id.0
        &&& forall|i: int| 0 <= i < self.people().len() ==> (#[trigger] self.people()[i]).id.0 < self.next_id_spec()
    }

    pub fn new() -> (p: Population)
        ensures
            p.wf(),
            p.people() == Seq::<CitizenRecord>::empty(),
            p.next_id_spec() == 1,
    {
        Population { records: Vec::new(), next_id: 1 }
    }

    /// A newcomer of this age living at `home`, with the next id: schooled if
    /// of working age, without a job.
    pub fn spawn_citizen(&mut self, home: BuildingId, age: u32) -> (id: CitizenId)
        requires
            old(self).wf(),
            old(self).next_id_spec() < u32::MAX,
        ensures
            final(self).wf(),
            id.0 == old(self).next_id_spec(),
            final(self).next_id_spec() == old(self).next_id_spec() + 1,
            final(self).people() == old(self).people().push(
                CitizenRecord {
                    id,
                    home: Home(home),
                    workplace: Workplace(None),
                    age: Age(age),
                    learning: if age >= WORKING_AGE_FROM {
                        Learning { days: SCHOOL_DAYS, studying: false }
                    } else {
                        Learning { days: 0, studying: false }
                    },
                },
            ),
    {
        let learning = if age >= WORKING_AGE_FROM {
            Learning::schooled()
        } else {
            Learning::none()
        };
        let id = CitizenId(self.next_id);
        self.records.push(CitizenRecord { id, home: Home(home), workplace: Workplace(None), age: Age(age), learning });
        self.next_id = self.next_id + 1;
        id
    }

    /// Remove a citizen, and say whether there was one with that id.
    pub fn remove(&mut self, id: CitizenId) -> (removed: bool)
        requires
            old(self).wf(),
        ensures
            final(self).wf(),
            final(self).next_id_spec() == old(self).next_id_spec(),
            removed == exists|k: int| 0 <= k < old(self).people().len() && (#[trigger] old(self).people()[k]).id == id,
            removed ==> exists|k: int|
                0 <= k < old(self).people().len() && (#[trigger] old(self).people()[k]).id == id && final(self).people()
                    == old(self).people().remove(k),
            !removed ==> final(self).people() == old(self).people(),
    {
        let mut k: usize = 0;
        while k < self.records.len()
            invariant
                k <= self.records@.len(),
                self.records@ == old(self).records@,
                self.next_id == old(self).next_id,
                old(self).wf(),
                forall|j: int| 0 <= j < k ==> (#[trigger] self.records@[j]).id != id,
            decreases self.records@.len() - k,
        {
            if self.records[k].id == id {
                let ghost before = self.records@;
                self.records.remove(k);
                proof {
                    assert forall|i: int, j: int|
                        0 <= i < j < self.records@.len() implies (#[trigger] self.records@[i]).id.0 < (
                        #[trigger] self.records@[j]).id.0 by {
                        let oi = if i < k { i } else { i + 1 };
                        let oj = if j < k { j } else { j + 1 };
                        assert(self.records@[i] == before[oi]);
                        assert(self.records@[j] == before[oj]);
                    }
                    assert forall|i: int| 0 <= i < self.records@.len() implies (#[trigger] self.records@[i]).id.0
                        < self.next_id by {
                        let oi = if i < k { i } else { i + 1 };
                        assert(self.records@[i] == before[oi]);
                    }
                }
                return true;
            }
            k = k + 1;
        }
        false
    }

    /// Everyone, in id order.
    pub fn records(&self) -> (r: Vec<CitizenRecord>)
        ensures
            r@ == self.people(),
    {
        let mut out: Vec<CitizenRecord> = Vec::new();
        let mut i: usize = 0;
        while i < self.records.len()
            invariant
                i <= self.records@.len(),
                out@ == self.records@.take(i as int),
            decreases self.records@.len() - i,
        {
            out.push(self.records[i]);
            i = i + 1;
            proof {
                assert(out@ =~= self.records@.take(i as int));
            }
        }
        proof {
            assert(self.records@.take(i as int) =~= self.records@);
        }
        out
    }

    /// How many people there are.
    pub fn count(&self) -> (n: usize)
        ensures
            n == self.people().len(),
    {
        self.records.len()
    }

    /// How many hold a job.
    pub fn employed(&self) -> (n: usize)
        ensures
            n == count_where(self.people(), |c: CitizenRecord| c.workplace.0 is Some),
            n == self.people().filter(|c: CitizenRecord| c.workplace.0 is Some).len(),
    {
        proof {
            lemma_count_where_is_filter(self.records@, |c: CitizenRecord| c.workplace.0 is Some);
        }
        let ghost holds = |c: CitizenRecord| c.workplace.0 is Some;
        let mut n: usize = 0;
        let mut i: usize = 0;
        while i < self.records.len()
            invariant
                i <= self.records@.len(),
                holds == (|c: CitizenRecord| c.workplace.0 is Some),
                n == count_where(self.records@.take(i as int), holds),
            decreases self.records@.len() - i,
        {
            proof {
                lemma_count_step(self.records@, holds, i as int);
            }
            if self.records[i].workplace.0.is_some() {
                n = n + 1;
            }
            i = i + 1;
        }
        proof {
            assert(self.records@.take(i as int) =~= self.records@);
        }
        n
    }

    /// How many people work at a building.
    pub fn staff_of(&self, building: BuildingId) -> (n: u32)
        requires
            self.wf(),
        ensures
            n == staff_count(self.people(), building),
            n == self.people().filter(|c: CitizenRecord| c.workplace == Workplace(Some(building))).len(),
    {
        proof {
            lemma_staff_count_is_filter(self.records@, building);
        }
        let mut n: u32 = 0;
        let mut i: usize = 0;
        while i < self.records.len()
            invariant
                i <= self.records@.len(),
                self.records@.len() < self.next_id,
                n == staff_count(self.records@.take(i as int), building),
                n <= i,
            decreases self.records@.len() - i,
        {
            proof {
                assert(self.records@.take(i + 1).drop_last() =~= self.records@.take(i as int));
            }
            if self.records[i].workplace.0 == Some(building) {
                n = n + 1;
            }
            i = i + 1;
        }
        proof {
            assert(self.records@.take(i as int) =~= self.records@);
        }
        n
    }

    /// Those who live in a building, in id order.
    pub fn residents_of(&self, building: BuildingId) -> (r: Vec<CitizenRecord>)
        ensures
            r@ == living_in(self.people(), building),
            r@ == self.people().filter(|c: CitizenRecord| c.home == Home(building)),
    {
        proof {
            lemma_living_in_is_filter(self.records@, building);
        }
        let mut out: Vec<CitizenRecord> = Vec::new();
        let mut i: usize = 0;
        while i < self.records.len()
            invariant
                i <= self.records@.len(),
                out@ == living_in(self.records@.take(i as int), building),
            decreases self.records@.len() - i,
        {
            proof {
                assert(self.records@.take(i + 1).drop_last() =~= self.records@.take(i as int));
            }
            if self.records[i].home.0 == building {
                out.push(self.records[i]);
            }
            i = i + 1;
        }
        proof {
            assert(self.records@.take(i as int) =~= self.records@);
        }
        out
    }

    /// How many people live in each building, by the building's number.
    pub fn residents_by_home(&self) -> (r: BTreeMap<u32, u32>)
        requires
            self.wf(),
        ensures
            forall|h: u32|
                #[trigger] r@.contains_key(h) == (census_of(self.people(), h).residents > 0) && (r@.contains_key(h)
                    ==> r@[h] == census_of(self.people(), h).residents),
    {
        let mut out: BTreeMap<u32, u32> = BTreeMap::new();
        let mut i: usize = 0;
        while i < self.records.len()
            invariant
                i <= self.records@.len(),
                self.records@.len() < self.next_id,
                self.next_id <= u32::MAX,
                forall|h: u32|
                    #[trigger] out@.contains_key(h) == (census_of(self.records@.take(i as int), h).residents > 0) && (
                    out@.contains_key(h) ==> out@[h] == census_of(self.records@.take(i as int), h).residents),
            decreases self.records@.len() - i,
        {
            let h = self.records[i].home.0.0;
            proof {
                lemma_census_step(self.records@, i as int, h);
            }
            let n: u32 = match out.get(&h) {
                Some(v) => *v,
                None => 0,
            };
            out.insert(h, n + 1);
            proof {
                assert forall|g: u32|
                    #[trigger] out@.contains_key(g) == (census_of(self.records@.take(i + 1), g).residents > 0) && (
                    out@.contains_key(g) ==> out@[g] == census_of(self.records@.take(i + 1), g).residents) by {
                    lemma_census_step(self.records@, i as int, g);
                }
            }
            i = i + 1;
        }
        proof {
            assert(self.records@.take(i as int) =~= self.records@);
        }
        out
    }

    /// Who lives in each building, counted in one walk: residents, those of
    /// working age, those of them in work, pupils and those of an age to
    /// start a family. Only buildings somebody lives in are listed.
    pub fn census_by_home(&self) -> (r: BTreeMap<u32, HomeCensus>)
        requires
            self.wf(),
        ensures
            forall|h: u32|
                #[trigger] r@.contains_key(h) == (census_of(self.people(), h).residents > 0) && (r@.contains_key(h)
                    ==> r@[h] == census_of(self.people(), h)),
    {
        let mut out: BTreeMap<u32, HomeCensus> = BTreeMap::new();
        let mut i: usize = 0;
        while i < self.records.len()
            invariant
                i <= self.records@.len(),
                self.records@.len() < self.next_id,
                self.next_id <= u32::MAX,
                forall|h: u32|
                    #[trigger] out@.contains_key(h) == (census_of(self.records@.take(i as int), h).residents > 0) && (
                    out@.contains_key(h) ==> out@[h] == census_of(self.records@.take(i as int), h)),
            decreases self.records@.len() - i,
        {
            let c = self.records[i];
            let h = c.home.0.0;
            proof {
                lemma_census_step(self.records@, i as int, h);
            }
            let b: HomeCensus = match out.get(&h) {
                Some(v) => *v,
                None => HomeCensus { residents: 0, working_age: 0, employed: 0, pupils: 0, fertile: 0 },
            };
            let works = c.can_work();
            let next = HomeCensus {
                residents: b.residents + 1,
                working_age: if works { b.working_age + 1 } else { b.working_age },
                employed: if works && c.workplace.0.is_some() { b.employed + 1 } else { b.employed },
                pupils: if SCHOOL_AGE_FROM <= c.age.0 && c.age.0 < SCHOOL_AGE_UNTIL { b.pupils + 1 } else { b.pupils },
                fertile: if FERTILE_AGE_FROM <= c.age.0 && c.age.0 < FERTILE_AGE_UNTIL { b.fertile + 1 } else { b.fertile },
            };
            out.insert(h, next);
            proof {
                assert forall|g: u32|
                    #[trigger] out@.contains_key(g) == (census_of(self.records@.take(i + 1), g).residents > 0) && (
                    out@.contains_key(g) ==> out@[g] == census_of(self.records@.take(i + 1), g)) by {
                    lemma_census_step(self.records@, i as int, g);
                }
            }
            i = i + 1;
        }
        proof {
            assert(self.records@.take(i as int) =~= self.records@);
        }
        out
    }

    /// How many people are in each life stage, in the order of
    /// [`LifeStage::all`].
    pub fn by_stage(&self) -> (r: [u32; 5])
        requires
            self.wf(),
        ensures
            forall|k: int|
                0 <= k < 5 ==> #[trigger] r@[k] == count_where(
                    self.people(),
                    |c: CitizenRecord| stage_of(c.age.0, c.learning.studying) == seq![
                        LifeStage::Infant,
                        LifeStage::Pupil,
                        LifeStage::Student,
                        LifeStage::Worker,
                        LifeStage::Retired,
                    ][k],
                ),
    {
        let ghost order = seq![LifeStage::Infant, LifeStage::Pupil, LifeStage::Student, LifeStage::Worker, LifeStage::Retired];
        let ghost is = |k: int| (|c: CitizenRecord| stage_of(c.age.0, c.learning.studying) == order[k]);
        let mut t: [u32; 5] = [0, 0, 0, 0, 0];
        let mut i: usize = 0;
        while i < self.records.len()
            invariant
                i <= self.records@.len(),
                self.records@.len() < self.next_id,
                order == seq![LifeStage::Infant, LifeStage::Pupil, LifeStage::Student, LifeStage::Worker, LifeStage::Retired],
                is == (|k: int| (|c: CitizenRecord| stage_of(c.age.0, c.learning.studying) == order[k])),
                forall|k: int| 0 <= k < 5 ==> #[trigger] t@[k] == count_where(self.records@.take(i as int), is(k)),
            decreases self.records@.len() - i,
        {
            proof {
                assert forall|k: int| 0 <= k < 5 implies count_where(self.records@.take(i + 1), #[trigger] is(k))
                    == count_where(self.records@.take(i as int), is(k)) + if is(k)(self.records@[i as int]) {
                    1int
                } else {
                    0int
                } && count_where(self.records@.take(i as int), is(k)) <= i by {
                    lemma_count_step(self.records@, is(k), i as int);
                }
            }
            let s = self.records[i].stage();
            let k: usize = match s {
                LifeStage::Infant => 0,
                LifeStage::Pupil => 1,
                LifeStage::Student => 2,
                LifeStage::Worker => 3,
                LifeStage::Retired => 4,
            };
            let ghost before = t@;
            t.set(k, t[k] + 1);
            proof {
                assert forall|m: int| 0 <= m < 5 implies #[trigger] t@[m] == count_where(self.records@.take(i + 1), is(m)) by {
                    assert(is(m)(self.records@[i as int]) == (m == k));
                    if m != k {
                        assert(t@[m] == before[m]);
                    }
                }
            }
            i = i + 1;
        }
        proof {
            assert(self.records@.take(i as int) =~= self.records@);
        }
        t
    }

    /// How many people hold each level of education, in the order of
    /// [`Education::all`].
    pub fn by_education(&self) -> (r: [u32; 3])
        requires
            self.wf(),
        ensures
            forall|k: int|
                0 <= k < 3 ==> #[trigger] r@[k] == count_where(
                    self.people(),
                    |c: CitizenRecord| attainment_of(c.learning.days) == seq![
                        Education::Unschooled,
                        Education::Schooled,
                        Education::Graduate,
                    ][k],
                ),
    {
        let ghost order = seq![Education::Unschooled, Education::Schooled, Education::Graduate];
        let ghost is = |k: int| (|c: CitizenRecord| attainment_of(c.learning.days) == order[k]);
        let mut t: [u32; 3] = [0, 0, 0];
        let mut i: usize = 0;
        while i < self.records.len()
            invariant
                i <= self.records@.len(),
                self.records@.len() < self.next_id,
                order == seq![Education::Unschooled, Education::Schooled, Education::Graduate],
                is == (|k: int| (|c: CitizenRecord| attainment_of(c.learning.days) == order[k])),
                forall|k: int| 0 <= k < 3 ==> #[trigger] t@[k] == count_where(self.records@.take(i as int), is(k)),
            decreases self.records@.len() - i,
        {
            proof {
                assert forall|k: int| 0 <= k < 3 implies count_where(self.records@.take(i + 1), #[trigger] is(k))
                    == count_where(self.records@.take(i as int), is(k)) + if is(k)(self.records@[i as int]) {
                    1int
                } else {
                    0int
                } && count_where(self.records@.take(i as int), is(k)) <= i by {
                    lemma_count_step(self.records@, is(k), i as int);
                }
            }
            let e = self.records[i].education();
            let k: usize = match e {
                Education::Unschooled => 0,
                Education::Schooled => 1,
                Education::Graduate => 2,
            };
            let ghost before = t@;
            t.set(k, t[k] + 1);
            proof {
                assert forall|m: int| 0 <= m < 3 implies #[trigger] t@[m] == count_where(self.records@.take(i + 1), is(m)) by {
                    assert(is(m)(self.records@[i as int]) == (m == k));
                    if m != k {
                        assert(t@[m] == before[m]);
                    }
                }
            }
            i = i + 1;
        }
        proof {
            assert(self.records@.take(i as int) =~= self.records@);
        }
        t
    }
}

/// Find everyone a job they can walk to.
///
/// Everybody's old post is cleared first. Then each building that employs
/// anyone, in the order the buildings stand in, takes up to one crew from
/// those still without work who are of working age, not studying, have a
/// home that stands, were taught what the job needs and can walk from home to
/// the door: nearest home first, then lowest id. What comes back is how many
/// each workplace took, in the same order.
pub fn assign_labour(population: &mut Population, buildings: &Buildings, roads: &Network) -> (l: Labour)
    requires
        old(population).wf(),
        buildings.wf(),
        roads.wf(),
    ensures
        final(population).wf(),
        final(population).next_id_spec() == old(population).next_id_spec(),
        final(population).people().len() == old(population).people().len(),
        forall|j: int|
            0 <= j < old(population).people().len() ==> same_person(
                #[trigger] old(population).people()[j],
                final(population).people()[j],
            ),
        forall|j: int|
            0 <= j < final(population).people().len() ==> placed_well(
                buildings.buildings(),
                roads,
                #[trigger] final(population).people()[j],
            ),
        forall|k: int| 0 <= k < buildings.buildings().len() ==> #[trigger] staffed_fairly(
            buildings.buildings(),
            roads,
            final(population).people(),
            k,
        ),
        l.staffing@.len() == workplaces(buildings.buildings()).len(),
        forall|m: int| 0 <= m < l.staffing@.len() ==> (#[trigger] l.staffing@[m]).0 == workplaces(buildings.buildings())[m].id
            && l.staffing@[m].1 == staff_count(final(population).people(), workplaces(buildings.buildings())[m].id),
{
    let ghost before = population.records@;
    let l = assign_records(&mut population.records, buildings, roads);
    proof {
        assert forall|i: int, j: int|
            0 <= i < j < population.records@.len() implies (#[trigger] population.records@[i]).id.0 < (
            #[trigger] population.records@[j]).id.0 by {
            assert(same_person(before[i], population.records@[i]));
            assert(same_person(before[j], population.records@[j]));
        }
        assert forall|i: int| 0 <= i < population.records@.len() implies (#[trigger] population.records@[i]).id.0
            < population.next_id by {
            assert(same_person(before[i], population.records@[i]));
        }
    }
    l
}

} // verus!
