//! People arriving, and people leaving.
//!
//! A republic that is worth living in attracts people, and they turn up **at a
//! frontier post**. A [`Group`] stands at a post; it has to be fetched by a
//! coach, over the roads the republic has built, and set down at housing with
//! room in it.
//!
//! [`PATIENCE`] is why this cannot pile up: a crowd nobody fetches gives up.
//!
//! Emigration deliberately has no journey. Somebody who has decided to go does
//! not need the republic's transport; they are simply gone, and the count is
//! reported.

use crate::fleet::VehicleId;
use crate::units::Point;
use vstd::prelude::*;

verus! {

/// A stable handle to a group of arrivals.
#[derive(Debug, Clone, Copy, PartialEq, Eq, Structural, Hash, PartialOrd, Ord)]
pub struct GroupId(pub u32);

/// How long a group will stand at a post waiting to be collected, in days.
pub const PATIENCE: u64 = 90;

/// People standing at a frontier post, waiting to be carried in.
#[derive(Debug, Clone, Copy, PartialEq, Eq, Structural)]
pub struct Group {
    pub id: GroupId,
    /// The post they walked up to.
    pub at: Point,
    pub heads: u32,
    /// The coach carrying them, if one has picked them up.
    pub riding: Option<VehicleId>,
    /// The day they arrived — what [`PATIENCE`] is measured against.
    pub since: u64,
}

/// Days waited by `today`: none before they arrived.
pub open spec fn waited_spec(g: Group, today: u64) -> int {
    if today >= g.since {
        today - g.since
    } else {
        0
    }
}

/// Whether a group standing at the border has waited out its patience.
pub open spec fn given_up_spec(g: Group, today: u64) -> bool {
    g.riding is None && waited_spec(g, today) >= PATIENCE
}

impl Group {
    /// Standing at the border with no lift coming: what asks a bus depot for a
    /// coach.
    pub fn is_waiting(&self) -> (r: bool)
        ensures
            r == (self.riding is None),
    {
        self.riding.is_none()
    }

    /// How long they have been standing there, in days.
    pub fn waited(&self, today: u64) -> (d: u64)
        ensures
            d == waited_spec(*self, today),
    {
        today.saturating_sub(self.since)
    }

    /// Whether they have given up.
    pub fn has_given_up(&self, today: u64) -> (r: bool)
        ensures
            r == given_up_spec(*self, today),
    {
        self.riding.is_none() && self.waited(today) >= PATIENCE
    }
}

/// Everyone in a run of groups.
pub open spec fn heads_total(list: Seq<Group>) -> int
    decreases list.len(),
{
    if list.len() == 0 {
        0
    } else {
        heads_total(list.drop_last()) + list.last().heads
    }
}

/// Index of the first group with an id, or the count when none has it.
pub open spec fn group_index(list: Seq<Group>, id: GroupId) -> int
    decreases list.len(),
{
    if list.len() == 0 {
        0
    } else if list[0].id == id {
        0
    } else {
        1 + group_index(list.drop_first(), id)
    }
}

/// Index of the first group aboard a coach, or the count when none is.
pub open spec fn riding_index(list: Seq<Group>, vehicle: VehicleId) -> int
    decreases list.len(),
{
    if list.len() == 0 {
        0
    } else if list[0].riding == Some(vehicle) {
        0
    } else {
        1 + riding_index(list.drop_first(), vehicle)
    }
}

/// The groups nobody has been sent for, in the order they arrived.
pub open spec fn unfetched_of(list: Seq<Group>) -> Seq<Group>
    decreases list.len(),
{
    if list.len() == 0 {
        Seq::empty()
    } else if list.last().riding is None {
        unfetched_of(list.drop_last()).push(list.last())
    } else {
        unfetched_of(list.drop_last())
    }
}

/// Everybody trying to get in, and the tally of everybody who has gone.
///
/// The tallies are cumulative and they are simulation state rather than a
/// statistic: a number that is not stored cannot be shown.
#[derive(Debug, Clone, PartialEq)]
pub struct Migration {
    list: Vec<Group>,
    next_id: u32,
    /// Everyone who has ever been carried in and settled.
    settled: u32,
    /// Everyone who has ever left.
    left: u32,
    /// Everyone who stood at a post until [`PATIENCE`] ran out.
    gave_up: u32,
}

impl Migration {
    /// The groups at the border, oldest first.
    pub closed spec fn groups(&self) -> Seq<Group> {
        self.list@
    }

    /// The id the next arrival will get.
    pub closed spec fn next_id_spec(&self) -> u32 {
        self.next_id
    }

    pub closed spec fn settled_spec(&self) -> u32 {
        self.settled
    }

    pub closed spec fn left_spec(&self) -> u32 {
        self.left
    }

    pub closed spec fn gave_up_spec(&self) -> u32 {
        self.gave_up
    }

    /// Ids are handed out in order, so every group's id is below the next one
    /// and no two groups share one.
    pub closed spec fn wf(&self) -> bool {
        &&& forall|i: int| 0 <= i < self.list@.len() ==> (#[trigger] self.list@[i]).id.0 < self.next_id
        &&& forall|i: int, j: int|
            0 <= i < j < self.list@.len() ==> (#[trigger] self.list@[i]).id != (#[trigger] self.list@[j]).id
    }

    pub fn new() -> (m: Migration)
        ensures
            m.wf(),
            m.groups() == Seq::<Group>::empty(),
            m.next_id_spec() == 1,
            m.settled_spec() == 0,
            m.left_spec() == 0,
            m.gave_up_spec() == 0,
    {
        Migration { list: Vec::new(), next_id: 1, settled: 0, left: 0, gave_up: 0 }
    }

    pub fn all(&self) -> (r: &[Group])
        ensures
            r@ == self.groups(),
    {
        self.list.as_slice()
    }

    fn find(&self, id: GroupId) -> (r: Option<usize>)
        ensures
            match r {
                Some(i) => i == group_index(self.groups(), id) && i < self.groups().len() && self.groups()[i as int].id == id,
                None => group_index(self.groups(), id) == self.groups().len(),
            },
            r is None ==> forall|j: int| 0 <= j < self.groups().len() ==> (#[trigger] self.groups()[j]).id != id,
    {
        let mut i: usize = 0;
        while i < self.list.len()
            invariant
                i <= self.list@.len(),
                forall|j: int| 0 <= j < i ==> #[trigger] self.list@[j].id != id,
            decreases self.list@.len() - i,
        {
            if self.list[i].id == id {
                proof {
                    lemma_group_index_is(self.list@, id, i as int);
                }
                return Some(i);
            }
            i = i + 1;
        }
        proof {
            lemma_group_index_is(self.list@, id, i as int);
        }
        None
    }

    /// The first group with this id.
    pub fn get(&self, id: GroupId) -> (r: Option<&Group>)
        ensures
            match r {
                Some(g) => group_index(self.groups(), id) < self.groups().len() && *g
                    == self.groups()[group_index(self.groups(), id)],
                None => group_index(self.groups(), id) == self.groups().len(),
            },
            match r {
                Some(g) => g.id == id && self.groups().contains(*g),
                None => forall|j: int| 0 <= j < self.groups().len() ==> (#[trigger] self.groups()[j]).id != id,
            },
    {
        match self.find(id) {
            Some(i) => Some(&self.list[i]),
            None => None,
        }
    }

    /// The first group with this id, to be changed.
    pub fn get_mut(&mut self, id: GroupId) -> (r: Option<&mut Group>)
        ensures
            match r {
                Some(g) => {
                    &&& group_index(old(self).groups(), id) < old(self).groups().len()
                    &&& *g == old(self).groups()[group_index(old(self).groups(), id)]
                    &&& final(self).groups() == old(self).groups().update(
                        group_index(old(self).groups(), id),
                        *final(g),
                    )
                },
                None => group_index(old(self).groups(), id) == old(self).groups().len()
                    && final(self).groups() == old(self).groups(),
            },
            final(self).next_id_spec() == old(self).next_id_spec(),
            final(self).settled_spec() == old(self).settled_spec(),
            final(self).left_spec() == old(self).left_spec(),
            final(self).gave_up_spec() == old(self).gave_up_spec(),
            old(self).wf() && r is None ==> final(self).wf(),
            old(self).wf() ==> (r matches Some(g) && final(g).id == id ==> final(self).wf()),
    {
        match self.find(id) {
            Some(i) => Some(&mut self.list[i]),
            None => None,
        }
    }

    /// How many people are standing at the border right now, fetched or not.
    pub fn waiting_heads(&self) -> (n: u32)
        requires
            heads_total(self.groups()) <= u32::MAX,
        ensures
            n == heads_total(self.groups()),
    {
        let mut total: u32 = 0;
        let mut i: usize = 0;
        while i < self.list.len()
            invariant
                i <= self.list@.len(),
                heads_total(self.list@) <= u32::MAX,
                total == heads_total(self.list@.take(i as int)),
            decreases self.list@.len() - i,
        {
            proof {
                assert(self.list@.take(i + 1).drop_last() =~= self.list@.take(i as int));
                lemma_heads_prefix(self.list@, i + 1);
            }
            total = total + self.list[i].heads;
            i = i + 1;
        }
        assert(self.list@.take(i as int) =~= self.list@);
        total
    }

    /// Groups nobody has been sent for, oldest first.
    pub fn unfetched(&self) -> (r: Vec<Group>)
        ensures
            r@ == unfetched_of(self.groups()),
            r@ == self.groups().filter(|g: Group| g.riding is None),
    {
        proof {
            lemma_unfetched_is_filter(self.list@);
        }
        let mut out: Vec<Group> = Vec::new();
        let mut i: usize = 0;
        while i < self.list.len()
            invariant
                i <= self.list@.len(),
                out@ == unfetched_of(self.list@.take(i as int)),
            decreases self.list@.len() - i,
        {
            proof {
                assert(self.list@.take(i + 1).drop_last() =~= self.list@.take(i as int));
            }
            if self.list[i].riding.is_none() {
                out.push(self.list[i]);
            }
            i = i + 1;
        }
        assert(self.list@.take(i as int) =~= self.list@);
        out
    }

    /// The group aboard a coach, if it is carrying one.
    pub fn riding(&self, vehicle: VehicleId) -> (r: Option<&Group>)
        ensures
            match r {
                Some(g) => riding_index(self.groups(), vehicle) < self.groups().len() && *g
                    == self.groups()[riding_index(self.groups(), vehicle)],
                None => riding_index(self.groups(), vehicle) == self.groups().len(),
            },
            match r {
                Some(g) => g.riding == Some(vehicle) && self.groups().contains(*g),
                None => forall|j: int| 0 <= j < self.groups().len() ==> (#[trigger] self.groups()[j]).riding != Some(vehicle),
            },
    {
        let mut i: usize = 0;
        while i < self.list.len()
            invariant
                i <= self.list@.len(),
                forall|j: int| 0 <= j < i ==> #[trigger] self.list@[j].riding != Some(vehicle),
            decreases self.list@.len() - i,
        {
            if self.list[i].riding == Some(vehicle) {
                proof {
                    lemma_riding_index_is(self.list@, vehicle, i as int);
                }
                return Some(&self.list[i]);
            }
            i = i + 1;
        }
        proof {
            lemma_riding_index_is(self.list@, vehicle, i as int);
        }
        None
    }

    pub fn settled(&self) -> (n: u32)
        ensures
            n == self.settled_spec(),
    {
        self.settled
    }

    pub fn left(&self) -> (n: u32)
        ensures
            n == self.left_spec(),
    {
        self.left
    }

    pub fn gave_up(&self) -> (n: u32)
        ensures
            n == self.gave_up_spec(),
    {
        self.gave_up
    }

    /// A group walks up to a post on `day`.
    pub fn arrive(&mut self, at: Point, heads: u32, day: u64) -> (id: GroupId)
        requires
            old(self).wf(),
            old(self).next_id_spec() < u32::MAX,
        ensures
            final(self).wf(),
            id.0 == old(self).next_id_spec(),
            final(self).next_id_spec() == old(self).next_id_spec() + 1,
            final(self).groups() == old(self).groups().push(
                Group { id, at, heads, riding: None, since: day },
            ),
            final(self).settled_spec() == old(self).settled_spec(),
            final(self).left_spec() == old(self).left_spec(),
            final(self).gave_up_spec() == old(self).gave_up_spec(),
    {
        let id = GroupId(self.next_id);
        self.next_id = self.next_id + 1;
        self.list.push(Group { id, at, heads, riding: None, since: day });
        proof {
            assert forall|i: int, j: int|
                0 <= i < j < self.list@.len() implies (#[trigger] self.list@[i]).id != (#[trigger] self.list@[j]).id by {
                if j == self.list@.len() - 1 {
                    assert(old(self).list@[i].id.0 < old(self).next_id);
                } else {
                    assert(old(self).list@[i] == self.list@[i] && old(self).list@[j] == self.list@[j]);
                }
            }
        }
        id
    }

    /// They are in. The heads become citizens; the group stops existing.
    pub fn settle(&mut self, id: GroupId) -> (r: Option<Group>)
        requires
            old(self).wf(),
            group_index(old(self).groups(), id) < old(self).groups().len() ==> old(self).settled_spec()
                + old(self).groups()[group_index(old(self).groups(), id)].heads <= u32::MAX,
        ensures
            final(self).wf(),
            final(self).next_id_spec() == old(self).next_id_spec(),
            final(self).left_spec() == old(self).left_spec(),
            final(self).gave_up_spec() == old(self).gave_up_spec(),
            match r {
                Some(g) => {
                    let i = group_index(old(self).groups(), id);
                    &&& i < old(self).groups().len()
                    &&& g == old(self).groups()[i]
                    &&& final(self).groups() == old(self).groups().remove(i)
                    &&& final(self).settled_spec() == old(self).settled_spec() + g.heads
                },
                None => {
                    &&& group_index(old(self).groups(), id) == old(self).groups().len()
                    &&& final(self).groups() == old(self).groups()
                    &&& final(self).settled_spec() == old(self).settled_spec()
                },
            },
    {
        let index = match self.find(id) {
            Some(i) => i,
            None => return None,
        };
        let group = self.list.remove(index);
        self.settled = self.settled + group.heads;
        proof {
            lemma_wf_remove(old(self).list@, self.list@, old(self).next_id, index as int);
        }
        Some(group)
    }

    /// Nobody came for them.
    pub fn give_up(&mut self, id: GroupId) -> (r: Option<Group>)
        requires
            old(self).wf(),
            group_index(old(self).groups(), id) < old(self).groups().len() ==> old(self).gave_up_spec()
                + old(self).groups()[group_index(old(self).groups(), id)].heads <= u32::MAX,
        ensures
            final(self).wf(),
            final(self).next_id_spec() == old(self).next_id_spec(),
            final(self).left_spec() == old(self).left_spec(),
            final(self).settled_spec() == old(self).settled_spec(),
            match r {
                Some(g) => {
                    let i = group_index(old(self).groups(), id);
                    &&& i < old(self).groups().len()
                    &&& g == old(self).groups()[i]
                    &&& final(self).groups() == old(self).groups().remove(i)
                    &&& final(self).gave_up_spec() == old(self).gave_up_spec() + g.heads
                },
                None => {
                    &&& group_index(old(self).groups(), id) == old(self).groups().len()
                    &&& final(self).groups() == old(self).groups()
                    &&& final(self).gave_up_spec() == old(self).gave_up_spec()
                },
            },
    {
        let index = match self.find(id) {
            Some(i) => i,
            None => return None,
        };
        let group = self.list.remove(index);
        self.gave_up = self.gave_up + group.heads;
        proof {
            lemma_wf_remove(old(self).list@, self.list@, old(self).next_id, index as int);
        }
        Some(group)
    }

    /// People who have decided to go. They need nobody's transport.
    pub fn record_departures(&mut self, heads: u32)
        requires
            old(self).left_spec() + heads <= u32::MAX,
        ensures
            final(self).left_spec() == old(self).left_spec() + heads,
            final(self).groups() == old(self).groups(),
            final(self).next_id_spec() == old(self).next_id_spec(),
            final(self).settled_spec() == old(self).settled_spec(),
            final(self).gave_up_spec() == old(self).gave_up_spec(),
            old(self).wf() ==> final(self).wf(),
    {
        self.left = self.left + heads;
    }

    /// Settlers a coach carried to a block that could not take them: counted
    /// with the ones who gave up at the border, because from the republic's
    /// side they are the same thing.
    pub fn record_turned_away(&mut self, heads: u32)
        requires
            old(self).gave_up_spec() + heads <= u32::MAX,
        ensures
            final(self).gave_up_spec() == old(self).gave_up_spec() + heads,
            final(self).groups() == old(self).groups(),
            final(self).next_id_spec() == old(self).next_id_spec(),
            final(self).settled_spec() == old(self).settled_spec(),
            final(self).left_spec() == old(self).left_spec(),
            old(self).wf() ==> final(self).wf(),
    {
        self.gave_up = self.gave_up + heads;
    }
}

proof fn lemma_unfetched_is_filter(list: Seq<Group>)
    ensures
        unfetched_of(list) == list.filter(|g: Group| g.riding is None),
    decreases list.len(),
{
    reveal(Seq::filter);
    if list.len() > 0 {
        lemma_unfetched_is_filter(list.drop_last());
    }
}

proof fn lemma_group_index_is(list: Seq<Group>, id: GroupId, i: int)
    requires
        0 <= i <= list.len(),
        forall|j: int| 0 <= j < i ==> #[trigger] list[j].id != id,
        i == list.len() || list[i].id == id,
    ensures
        group_index(list, id) == i,
    decreases i,
{
    if i > 0 {
        let rest = list.drop_first();
        assert(list[0].id != id);
        assert forall|j: int| 0 <= j < i - 1 implies #[trigger] rest[j].id != id by {
            assert(rest[j] == list[j + 1]);
        }
        if i < list.len() {
            assert(rest[i - 1] == list[i]);
        }
        lemma_group_index_is(rest, id, i - 1);
    }
}

proof fn lemma_riding_index_is(list: Seq<Group>, vehicle: VehicleId, i: int)
    requires
        0 <= i <= list.len(),
        forall|j: int| 0 <= j < i ==> #[trigger] list[j].riding != Some(vehicle),
        i == list.len() || list[i].riding == Some(vehicle),
    ensures
        riding_index(list, vehicle) == i,
    decreases i,
{
    if i > 0 {
        let rest = list.drop_first();
        assert(list[0].riding != Some(vehicle));
        assert forall|j: int| 0 <= j < i - 1 implies #[trigger] rest[j].riding != Some(vehicle) by {
            assert(rest[j] == list[j + 1]);
        }
        if i < list.len() {
            assert(rest[i - 1] == list[i]);
        }
        lemma_riding_index_is(rest, vehicle, i - 1);
    }
}

/// A prefix holds no more people than the whole.
proof fn lemma_heads_prefix(list: Seq<Group>, k: int)
    requires
        0 <= k <= list.len(),
    ensures
        0 <= heads_total(list.take(k)) <= heads_total(list),
    decreases list.len(),
{
    if list.len() > 0 {
        if k == list.len() {
            assert(list.take(k) =~= list);
            lemma_heads_prefix(list.drop_last(), k - 1);
            assert(list.drop_last().take(k - 1) =~= list.drop_last());
        } else {
            lemma_heads_prefix(list.drop_last(), k);
            assert(list.drop_last().take(k) =~= list.take(k));
            assert(heads_total(list) == heads_total(list.drop_last()) + list.last().heads);
        }
    } else {
        assert(list.take(k) =~= list);
    }
}

/// Taking a group out keeps the ids in order.
proof fn lemma_wf_remove(old_list: Seq<Group>, list: Seq<Group>, next_id: u32, index: int)
    requires
        0 <= index < old_list.len(),
        list == old_list.remove(index),
        forall|i: int| 0 <= i < old_list.len() ==> (#[trigger] old_list[i]).id.0 < next_id,
        forall|i: int, j: int|
            0 <= i < j < old_list.len() ==> (#[trigger] old_list[i]).id != (#[trigger] old_list[j]).id,
    ensures
        forall|i: int| 0 <= i < list.len() ==> (#[trigger] list[i]).id.0 < next_id,
        forall|i: int, j: int| 0 <= i < j < list.len() ==> (#[trigger] list[i]).id != (#[trigger] list[j]).id,
{
    assert forall|i: int| 0 <= i < list.len() implies (#[trigger] list[i]).id.0 < next_id by {
        if i < index {
            assert(list[i] == old_list[i]);
        } else {
            assert(list[i] == old_list[i + 1]);
        }
    }
    assert forall|i: int, j: int| 0 <= i < j < list.len() implies (#[trigger] list[i]).id != (#[trigger] list[j]).id by {
        let oi = if i < index { i } else { i + 1 };
        let oj = if j < index { j } else { j + 1 };
        assert(list[i] == old_list[oi]);
        assert(list[j] == old_list[oj]);
    }
}

} // verus!
