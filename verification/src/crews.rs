//! Building crews: the people a Construction Office sends out, and where they
//! are standing right now.
//!
//! Builders are employed at an office, carried to a site by a bus, stand there
//! until the work is done, and have to be fetched back. A [`Party`] is one such
//! gang.
//!
//! # Heads are conserved
//!
//! What an office has left to send is its staff less everyone already out
//! ([`Crews::posted`]). Sending a party adds exactly its heads to that count,
//! bringing it home takes exactly its heads off, and moving it between a bus, a
//! site and the roadside leaves the count alone: those are the contracts of
//! [`Crews::send`], [`Crews::dissolve`], [`Crews::release`] and the law
//! [`moving_a_party_keeps_the_count`].
//!
//! Foreign builders hired abroad are kept on the office's books by bloc, because
//! the republic pays them in that bloc's money.

use crate::building::BuildingId;
use crate::fleet::{Destination, VehicleId};
use crate::trade::Market;
use crate::units::Point;
use vstd::prelude::*;

verus! {

/// A stable handle to a crew.
#[derive(Debug, Clone, Copy, PartialEq, Eq, Structural, Hash, PartialOrd, Ord)]
pub struct PartyId(pub u32);

/// A gang of builders out from their office.
#[derive(Debug, Clone, Copy, PartialEq, Eq, Structural)]
pub struct Party {
    pub id: PartyId,
    /// The office that employs them.
    pub office: BuildingId,
    pub heads: u32,
    /// Where they are standing. While they are aboard a bus this is where the
    /// bus was when they got on.
    pub at: Point,
    /// The site they are working, if they are working one.
    pub working: Option<Destination>,
    /// The bus they are aboard, if they are aboard one.
    pub riding: Option<VehicleId>,
    /// The bloc these builders were hired from, while they are foreign labour
    /// on its way in. Until they reach the office they are not part of its
    /// establishment, so [`Crews::posted`] does not count them.
    pub hired_from: Option<Market>,
}

/// Standing somewhere with no site to work and no lift coming.
pub open spec fn stranded_spec(p: Party) -> bool {
    p.working is None && p.riding is None
}

impl Party {
    /// Standing somewhere with no site to work and no lift coming: the state
    /// that asks the office to send a bus.
    pub fn is_stranded(&self) -> (r: bool)
        ensures
            r == stranded_spec(*self),
    {
        self.working.is_none() && self.riding.is_none()
    }
}

/// One line of an office's books: how many builders it holds from one bloc.
#[derive(Debug, Clone, Copy, PartialEq, Eq, Structural)]
pub struct Hire {
    pub office: BuildingId,
    pub market: Market,
    pub heads: u32,
}

/// Where a bloc falls within one office's lines.
pub open spec fn market_rank(market: Market) -> int {
    match market {
        Market::East => 0,
        Market::West => 1,
    }
}

/// The order the books are kept in: by office, then by bloc.
pub open spec fn book_key(office: BuildingId, market: Market) -> int {
    office.0 * 2 + market_rank(market)
}

pub open spec fn hire_key(h: Hire) -> int {
    book_key(h.office, h.market)
}

/// The same line with a different head count.
pub open spec fn with_heads(h: Hire, heads: u32) -> Hire {
    Hire { heads, ..h }
}

/// The books are kept in key order, one line per office and bloc, and a line
/// that falls to nobody is struck off.
pub open spec fn books_ok(books: Seq<Hire>) -> bool {
    &&& forall|i: int, j: int|
        #![trigger books[i], books[j]]
        0 <= i < j < books.len() ==> hire_key(books[i]) < hire_key(books[j])
    &&& forall|i: int| 0 <= i < books.len() ==> (#[trigger] books[i]).heads > 0
}

/// How many builders from `market` an office holds, by its line in the books.
pub open spec fn on_books(books: Seq<Hire>, office: BuildingId, market: Market) -> nat {
    if exists|i: int| 0 <= i < books.len() && #[trigger] hire_key(books[i]) == book_key(office, market) {
        let i = choose|i: int| 0 <= i < books.len() && #[trigger] hire_key(books[i]) == book_key(office, market);
        books[i].heads as nat
    } else {
        0
    }
}

/// Every foreign builder from `market`, across all offices.
pub open spec fn bloc_heads(books: Seq<Hire>, market: Market) -> int
    decreases books.len(),
{
    if books.len() == 0 {
        0
    } else {
        bloc_heads(books.drop_last(), market) + if books.last().market == market {
            books.last().heads as int
        } else {
            0
        }
    }
}

/// The offices holding anybody from `market`, in book order, with how many.
pub open spec fn employers_of(books: Seq<Hire>, market: Market) -> Seq<(BuildingId, u32)>
    decreases books.len(),
{
    if books.len() == 0 {
        Seq::empty()
    } else if books.last().market == market && books.last().heads > 0 {
        employers_of(books.drop_last(), market).push((books.last().office, books.last().heads))
    } else {
        employers_of(books.drop_last(), market)
    }
}

/// Index of the first party that satisfies `p`, or the count when none does.
pub open spec fn first_index(list: Seq<Party>, p: spec_fn(Party) -> bool) -> int
    decreases list.len(),
{
    if list.len() == 0 {
        0
    } else if p(list[0]) {
        0
    } else {
        1 + first_index(list.drop_first(), p)
    }
}

/// Heads of every party that satisfies `p`.
pub open spec fn heads_where(list: Seq<Party>, p: spec_fn(Party) -> bool) -> int
    decreases list.len(),
{
    if list.len() == 0 {
        0
    } else {
        heads_where(list.drop_last(), p) + if p(list.last()) {
            list.last().heads as int
        } else {
            0
        }
    }
}

pub open spec fn with_id(id: PartyId) -> spec_fn(Party) -> bool {
    |q: Party| q.id == id
}

pub open spec fn working_on(site: Destination) -> spec_fn(Party) -> bool {
    |q: Party| q.working == Some(site)
}

pub open spec fn aboard(vehicle: VehicleId) -> spec_fn(Party) -> bool {
    |q: Party| q.riding == Some(vehicle)
}

pub open spec fn is_stranded_pred() -> spec_fn(Party) -> bool {
    |q: Party| stranded_spec(q)
}

pub open spec fn of_office_pred(office: BuildingId) -> spec_fn(Party) -> bool {
    |q: Party| q.office == office
}

/// An office's own people away from it.
pub open spec fn domestic_of(office: BuildingId) -> spec_fn(Party) -> bool {
    |q: Party| q.office == office && q.hired_from is None
}

/// Builders an office hired abroad who have not reached it yet.
pub open spec fn foreign_of(office: BuildingId) -> spec_fn(Party) -> bool {
    |q: Party| q.office == office && q.hired_from is Some
}

/// What `release` makes of a party.
pub open spec fn released(q: Party, site: Destination, at: Point) -> Party {
    if q.working == Some(site) {
        Party { working: None, at, ..q }
    } else {
        q
    }
}

/// Every crew the republic has out, and the foreign builders on the books.
#[derive(Debug, Clone, PartialEq)]
pub struct Crews {
    list: Vec<Party>,
    next_id: u32,
    books: Vec<Hire>,
}

fn key_of(office: BuildingId, market: Market) -> (k: u64)
    ensures
        k == book_key(office, market),
{
    let m: u64 = match market {
        Market::East => 0,
        Market::West => 1,
    };
    office.0 as u64 * 2 + m
}

impl Crews {
    /// The crews out, in the order they were sent.
    pub closed spec fn parties(&self) -> Seq<Party> {
        self.list@
    }

    /// The id the next crew will get.
    pub closed spec fn next_id_spec(&self) -> u32 {
        self.next_id
    }

    /// The foreign-labour books, one line per office and bloc, in key order.
    pub closed spec fn books(&self) -> Seq<Hire> {
        self.books@
    }

    /// Foreign builders on an office's books from one bloc.
    pub open spec fn hired_of(&self, office: BuildingId, market: Market) -> nat {
        on_books(self.books(), office, market)
    }

    /// What an office has out of its own people.
    pub open spec fn posted_of(&self, office: BuildingId) -> int {
        heads_where(self.parties(), domestic_of(office))
    }

    /// Ids are handed out in order, so every crew's id is below the next one
    /// and no two crews share one.
    pub closed spec fn wf(&self) -> bool {
        &&& forall|i: int| 0 <= i < self.list@.len() ==> (#[trigger] self.list@[i]).id.0 < self.next_id
        &&& forall|i: int, j: int|
            0 <= i < j < self.list@.len() ==> (#[trigger] self.list@[i]).id != (#[trigger] self.list@[j]).id
    }

    pub open spec fn books_wf(&self) -> bool {
        books_ok(self.books())
    }

    pub fn new() -> (c: Crews)
        ensures
            c.wf(),
            c.books_wf(),
            c.parties() == Seq::<Party>::empty(),
            c.books() == Seq::<Hire>::empty(),
            c.next_id_spec() == 1,
    {
        Crews { list: Vec::new(), next_id: 1, books: Vec::new() }
    }

    pub fn all(&self) -> (r: &[Party])
        ensures
            r@ == self.parties(),
    {
        self.list.as_slice()
    }

    pub fn len(&self) -> (n: usize)
        ensures
            n == self.parties().len(),
    {
        self.list.len()
    }

    pub fn is_empty(&self) -> (r: bool)
        ensures
            r == (self.parties().len() == 0),
    {
        self.list.len() == 0
    }

    fn find(&self, id: PartyId) -> (r: Option<usize>)
        ensures
            match r {
                Some(i) => i == first_index(self.parties(), with_id(id)) && i < self.parties().len() && self.parties()[i as int].id == id,
                None => first_index(self.parties(), with_id(id)) == self.parties().len(),
            },
            r is None ==> forall|j: int| 0 <= j < self.parties().len() ==> (#[trigger] self.parties()[j]).id != id,
    {
        let mut i: usize = 0;
        while i < self.list.len()
            invariant
                i <= self.list@.len(),
                forall|j: int| 0 <= j < i ==> !(with_id(id))(#[trigger] self.list@[j]),
            decreases self.list@.len() - i,
        {
            if self.list[i].id == id {
                proof {
                    lemma_first_index_is(self.list@, with_id(id), i as int);
                }
                return Some(i);
            }
            i = i + 1;
        }
        proof {
            lemma_first_index_is(self.list@, with_id(id), i as int);
        }
        None
    }

    /// The crew with this id.
    pub fn get(&self, id: PartyId) -> (r: Option<&Party>)
        ensures
            match r {
                Some(p) => first_index(self.parties(), with_id(id)) < self.parties().len() && *p
                    == self.parties()[first_index(self.parties(), with_id(id))],
                None => first_index(self.parties(), with_id(id)) == self.parties().len(),
            },
            match r {
                Some(p) => p.id == id && self.parties().contains(*p),
                None => forall|j: int| 0 <= j < self.parties().len() ==> (#[trigger] self.parties()[j]).id != id,
            },
    {
        match self.find(id) {
            Some(i) => Some(&self.list[i]),
            None => None,
        }
    }

    /// The crew with this id, to be changed.
    pub fn get_mut(&mut self, id: PartyId) -> (r: Option<&mut Party>)
        ensures
            match r {
                Some(p) => {
                    let i = first_index(old(self).parties(), with_id(id));
                    &&& i < old(self).parties().len()
                    &&& *p == old(self).parties()[i]
                    &&& final(self).parties() == old(self).parties().update(i, *final(p))
                },
                None => first_index(old(self).parties(), with_id(id)) == old(self).parties().len()
                    && final(self).parties() == old(self).parties(),
            },
            final(self).next_id_spec() == old(self).next_id_spec(),
            final(self).books() == old(self).books(),
            old(self).wf() && r is None ==> final(self).wf(),
            old(self).wf() ==> (r matches Some(p) && final(p).id == id ==> final(self).wf()),
    {
        match self.find(id) {
            Some(i) => Some(&mut self.list[i]),
            None => None,
        }
    }

    /// How many of an office's own people are away from it: riding, working,
    /// or standing at a finished site waiting to be collected.
    pub fn posted(&self, office: BuildingId) -> (n: u32)
        requires
            self.posted_of(office) <= u32::MAX,
        ensures
            n == self.posted_of(office),
    {
        let mut total: u32 = 0;
        let mut i: usize = 0;
        while i < self.list.len()
            invariant
                i <= self.list@.len(),
                heads_where(self.list@, domestic_of(office)) <= u32::MAX,
                total == heads_where(self.list@.take(i as int), domestic_of(office)),
            decreases self.list@.len() - i,
        {
            proof {
                assert(self.list@.take(i + 1).drop_last() =~= self.list@.take(i as int));
                lemma_heads_prefix(self.list@, domestic_of(office), i + 1);
            }
            let p = self.list[i];
            if p.office == office && p.hired_from.is_none() {
                total = total + p.heads;
            }
            i = i + 1;
        }
        assert(self.list@.take(i as int) =~= self.list@);
        total
    }

    /// Foreign builders on this office's books, from one bloc.
    pub fn hired(&self, office: BuildingId, market: Market) -> (n: u32)
        requires
            self.books_wf(),
        ensures
            n == self.hired_of(office, market),
    {
        let k = key_of(office, market);
        let mut i: usize = 0;
        while i < self.books.len()
            invariant
                i <= self.books@.len(),
                self.books_wf(),
                k == book_key(office, market),
                forall|j: int| 0 <= j < i ==> hire_key(#[trigger] self.books@[j]) != k,
            decreases self.books@.len() - i,
        {
            let line = self.books[i];
            if key_of(line.office, line.market) == k {
                proof {
                    lemma_on_books_value(self.books@, office, market);
                    assert(hire_key(self.books@[i as int]) == book_key(office, market));
                }
                return line.heads;
            }
            i = i + 1;
        }
        proof {
            lemma_on_books_value(self.books@, office, market);
        }
        0
    }

    /// Everybody this office is paying who is not a citizen: on its books, or
    /// still standing at the post it hired them to.
    pub fn on_payroll(&self, office: BuildingId) -> (n: u32)
        requires
            self.books_wf(),
            self.hired_of(office, Market::East) + self.hired_of(office, Market::West) + heads_where(
                self.parties(),
                foreign_of(office),
            ) <= u32::MAX,
        ensures
            n == self.hired_of(office, Market::East) + self.hired_of(office, Market::West)
                + heads_where(self.parties(), foreign_of(office)),
    {
        proof {
            lemma_heads_prefix(self.list@, foreign_of(office), 0);
        }
        let booked = self.hired_total(office);
        let mut total: u32 = 0;
        let mut i: usize = 0;
        while i < self.list.len()
            invariant
                i <= self.list@.len(),
                booked + heads_where(self.list@, foreign_of(office)) <= u32::MAX,
                total == heads_where(self.list@.take(i as int), foreign_of(office)),
            decreases self.list@.len() - i,
        {
            proof {
                assert(self.list@.take(i + 1).drop_last() =~= self.list@.take(i as int));
                lemma_heads_prefix(self.list@, foreign_of(office), i + 1);
            }
            let p = self.list[i];
            if p.office == office && p.hired_from.is_some() {
                total = total + p.heads;
            }
            i = i + 1;
        }
        assert(self.list@.take(i as int) =~= self.list@);
        booked + total
    }

    /// Every foreign builder this office employs, whichever bloc sent them.
    pub fn hired_total(&self, office: BuildingId) -> (n: u32)
        requires
            self.books_wf(),
            self.hired_of(office, Market::East) + self.hired_of(office, Market::West) <= u32::MAX,
        ensures
            n == self.hired_of(office, Market::East) + self.hired_of(office, Market::West),
    {
        let markets = Market::all();
        let mut total: u32 = 0;
        let mut i: usize = 0;
        while i < 2
            invariant
                i <= 2,
                markets@ == seq![Market::East, Market::West],
                self.books_wf(),
                self.hired_of(office, Market::East) + self.hired_of(office, Market::West) <= u32::MAX,
                i == 0 ==> total == 0,
                i == 1 ==> total == self.hired_of(office, Market::East),
                i == 2 ==> total == self.hired_of(office, Market::East) + self.hired_of(
                    office,
                    Market::West,
                ),
            decreases 2 - i,
        {
            let n = self.hired(office, markets[i]);
            total = total + n;
            i = i + 1;
        }
        total
    }

    /// The whole republic's foreign wage bill in one bloc's money, in heads.
    pub fn hired_from_bloc(&self, market: Market) -> (n: u32)
        requires
            bloc_heads(self.books(), market) <= u32::MAX,
        ensures
            n == bloc_heads(self.books(), market),
    {
        let mut total: u32 = 0;
        let mut i: usize = 0;
        while i < self.books.len()
            invariant
                i <= self.books@.len(),
                bloc_heads(self.books@, market) <= u32::MAX,
                total == bloc_heads(self.books@.take(i as int), market),
            decreases self.books@.len() - i,
        {
            proof {
                assert(self.books@.take(i + 1).drop_last() =~= self.books@.take(i as int));
                lemma_bloc_prefix(self.books@, market, i + 1);
            }
            let line = self.books[i];
            if line.market == market {
                total = total + line.heads;
            }
            i = i + 1;
        }
        assert(self.books@.take(i as int) =~= self.books@);
        total
    }

    /// Every office that employs anybody from this bloc, in commissioning order.
    pub fn employers(&self, market: Market) -> (r: Vec<(BuildingId, u32)>)
        ensures
            r@ == employers_of(self.books(), market),
            r@ == self.books().filter(|h: Hire| h.market == market && h.heads > 0).map_values(|h: Hire| (h.office, h.heads)),
    {
        proof {
            lemma_employers_are_filtered_lines(self.books@, market);
        }
        let mut out: Vec<(BuildingId, u32)> = Vec::new();
        let mut i: usize = 0;
        while i < self.books.len()
            invariant
                i <= self.books@.len(),
                out@ == employers_of(self.books@.take(i as int), market),
            decreases self.books@.len() - i,
        {
            proof {
                assert(self.books@.take(i + 1).drop_last() =~= self.books@.take(i as int));
            }
            let line = self.books[i];
            if line.market == market && line.heads > 0 {
                out.push((line.office, line.heads));
            }
            i = i + 1;
        }
        assert(self.books@.take(i as int) =~= self.books@);
        out
    }

    /// The first line at or after `k`, and whether it is `k` itself.
    fn seek(&self, k: u64) -> (r: (usize, bool))
        requires
            self.books_wf(),
        ensures
            r.0 <= self.books().len(),
            forall|j: int| 0 <= j < r.0 ==> hire_key(#[trigger] self.books()[j]) < k,
            r.1 <==> (r.0 < self.books().len() && hire_key(self.books()[r.0 as int]) == k),
            r.0 < self.books().len() ==> hire_key(self.books()[r.0 as int]) >= k,
    {
        let mut i: usize = 0;
        while i < self.books.len()
            invariant
                i <= self.books@.len(),
                forall|j: int| 0 <= j < i ==> hire_key(#[trigger] self.books@[j]) < k,
            decreases self.books@.len() - i,
        {
            let line = self.books[i];
            let lk = key_of(line.office, line.market);
            if lk >= k {
                return (i, lk == k);
            }
            i = i + 1;
        }
        (i, false)
    }

    /// Put foreign builders on an office's books.
    pub fn take_on(&mut self, office: BuildingId, market: Market, heads: u32)
        requires
            old(self).books_wf(),
            old(self).hired_of(office, market) + heads <= u32::MAX,
        ensures
            final(self).books_wf(),
            forall|o: BuildingId, m: Market|
                #[trigger] final(self).hired_of(o, m) == old(self).hired_of(o, m) + if o == office && m
                    == market {
                    heads as nat
                } else {
                    0
                },
            final(self).parties() == old(self).parties(),
            final(self).next_id_spec() == old(self).next_id_spec(),
    {
        let k = key_of(office, market);
        let (i, found) = self.seek(k);
        let ghost before = self.books@;
        proof {
            lemma_on_books_value(before, office, market);
        }
        if found {
            let line = self.books[i];
            let h = line.heads + heads;
            self.books.set(i, Hire { heads: h, ..line });
            proof {
                lemma_books_set(before, i as int, h);
            }
        } else if heads > 0 {
            self.books.insert(i, Hire { office, market, heads });
            proof {
                lemma_books_insert(before, i as int, Hire { office, market, heads });
            }
        }
        proof {
            assert forall|o: BuildingId, m: Market|
                #[trigger] on_books(self.books@, o, m) == on_books(before, o, m) + if o == office
                    && m == market {
                    heads as nat
                } else {
                    0
                } by {
                lemma_key_injective(o, m, office, market);
            }
        }
    }

    /// Let foreign workers go. Returns how many actually left.
    pub fn let_go(&mut self, office: BuildingId, market: Market, heads: u32) -> (gone: u32)
        requires
            old(self).books_wf(),
        ensures
            final(self).books_wf(),
            gone == if heads as nat <= old(self).hired_of(office, market) {
                heads as nat
            } else {
                old(self).hired_of(office, market)
            },
            forall|o: BuildingId, m: Market|
                #[trigger] final(self).hired_of(o, m) == old(self).hired_of(o, m) - if o == office && m
                    == market {
                    gone as nat
                } else {
                    0
                },
            final(self).parties() == old(self).parties(),
            final(self).next_id_spec() == old(self).next_id_spec(),
    {
        let k = key_of(office, market);
        let (i, found) = self.seek(k);
        let ghost before = self.books@;
        proof {
            lemma_on_books_value(before, office, market);
        }
        if !found {
            proof {
                assert forall|j: int| 0 <= j < before.len() implies hire_key(#[trigger] before[j]) != k by {
                    if j >= i {
                        assert(hire_key(before[i as int]) > k);
                        if j > i {
                            assert(hire_key(before[i as int]) < hire_key(before[j]));
                        }
                    }
                }
                lemma_on_books_value(before, office, market);
            }
            return 0;
        }
        let line = self.books[i];
        let gone = if heads < line.heads {
            heads
        } else {
            line.heads
        };
        let left = line.heads - gone;
        if left == 0 {
            self.books.remove(i);
            proof {
                lemma_books_remove(before, i as int);
            }
        } else {
            self.books.set(i, Hire { heads: left, ..line });
            proof {
                lemma_books_set(before, i as int, left);
            }
        }
        proof {
            assert forall|o: BuildingId, m: Market|
                #[trigger] on_books(self.books@, o, m) == on_books(before, o, m) - if o == office
                    && m == market {
                    gone as nat
                } else {
                    0
                } by {
                lemma_key_injective(o, m, office, market);
            }
        }
        gone
    }

    /// The crew working a site, if one is.
    pub fn working_at(&self, site: Destination) -> (r: Option<&Party>)
        ensures
            match r {
                Some(p) => first_index(self.parties(), working_on(site)) < self.parties().len() && *p
                    == self.parties()[first_index(self.parties(), working_on(site))],
                None => first_index(self.parties(), working_on(site)) == self.parties().len(),
            },
            match r {
                Some(p) => p.working == Some(site) && self.parties().contains(*p),
                None => forall|j: int| 0 <= j < self.parties().len() ==> (#[trigger] self.parties()[j]).working != Some(site),
            },
    {
        let mut i: usize = 0;
        while i < self.list.len()
            invariant
                i <= self.list@.len(),
                forall|j: int| 0 <= j < i ==> !(working_on(site))(#[trigger] self.list@[j]),
            decreases self.list@.len() - i,
        {
            if self.list[i].working == Some(site) {
                proof {
                    lemma_first_index_is(self.list@, working_on(site), i as int);
                }
                return Some(&self.list[i]);
            }
            i = i + 1;
        }
        proof {
            lemma_first_index_is(self.list@, working_on(site), i as int);
        }
        None
    }

    /// How many builders are standing on a site.
    pub fn at_site(&self, site: Destination) -> (n: u32)
        ensures
            n == if first_index(self.parties(), working_on(site)) < self.parties().len() {
                self.parties()[first_index(self.parties(), working_on(site))].heads
            } else {
                0
            },
    {
        match self.working_at(site) {
            Some(p) => p.heads,
            None => 0,
        }
    }

    /// The crew aboard a bus, if it is carrying one.
    pub fn riding(&self, vehicle: VehicleId) -> (r: Option<&Party>)
        ensures
            match r {
                Some(p) => first_index(self.parties(), aboard(vehicle)) < self.parties().len() && *p
                    == self.parties()[first_index(self.parties(), aboard(vehicle))],
                None => first_index(self.parties(), aboard(vehicle)) == self.parties().len(),
            },
            match r {
                Some(p) => p.riding == Some(vehicle) && self.parties().contains(*p),
                None => forall|j: int| 0 <= j < self.parties().len() ==> (#[trigger] self.parties()[j]).riding != Some(vehicle),
            },
    {
        let mut i: usize = 0;
        while i < self.list.len()
            invariant
                i <= self.list@.len(),
                forall|j: int| 0 <= j < i ==> !(aboard(vehicle))(#[trigger] self.list@[j]),
            decreases self.list@.len() - i,
        {
            if self.list[i].riding == Some(vehicle) {
                proof {
                    lemma_first_index_is(self.list@, aboard(vehicle), i as int);
                }
                return Some(&self.list[i]);
            }
            i = i + 1;
        }
        proof {
            lemma_first_index_is(self.list@, aboard(vehicle), i as int);
        }
        None
    }

    /// Crews with nothing to work and no lift coming, oldest first.
    pub fn stranded(&self) -> (r: Vec<Party>)
        ensures
            r@ == self.parties().filter(is_stranded_pred()),
    {
        let mut out: Vec<Party> = Vec::new();
        let mut i: usize = 0;
        while i < self.list.len()
            invariant
                i <= self.list@.len(),
                out@ == self.list@.take(i as int).filter(is_stranded_pred()),
            decreases self.list@.len() - i,
        {
            proof {
                assert(self.list@.take(i + 1).drop_last() =~= self.list@.take(i as int));
                reveal(Seq::filter);
            }
            if self.list[i].is_stranded() {
                out.push(self.list[i]);
            }
            i = i + 1;
        }
        assert(self.list@.take(i as int) =~= self.list@);
        out
    }

    /// Every crew an office has out, in the order they were sent.
    pub fn of_office(&self, office: BuildingId) -> (r: Vec<Party>)
        ensures
            r@ == self.parties().filter(of_office_pred(office)),
            r@ == self.parties().filter(|q: Party| q.office == office),
    {
        proof {
            assert(of_office_pred(office) =~= (|q: Party| q.office == office));
        }
        let mut out: Vec<Party> = Vec::new();
        let mut i: usize = 0;
        while i < self.list.len()
            invariant
                i <= self.list@.len(),
                out@ == self.list@.take(i as int).filter(of_office_pred(office)),
            decreases self.list@.len() - i,
        {
            proof {
                assert(self.list@.take(i + 1).drop_last() =~= self.list@.take(i as int));
                reveal(Seq::filter);
            }
            if self.list[i].office == office {
                out.push(self.list[i]);
            }
            i = i + 1;
        }
        assert(self.list@.take(i as int) =~= self.list@);
        out
    }

    /// Send builders out from an office, aboard a bus. They are on the bus
    /// from the moment they leave.
    pub fn send(&mut self, office: BuildingId, heads: u32, at: Point, riding: VehicleId) -> (id:
        PartyId)
        requires
            old(self).wf(),
            old(self).next_id_spec() < u32::MAX,
        ensures
            final(self).wf(),
            id.0 == old(self).next_id_spec(),
            final(self).next_id_spec() == old(self).next_id_spec() + 1,
            final(self).parties() == old(self).parties().push(
                Party { id, office, heads, at, working: None, riding: Some(riding), hired_from: None },
            ),
            final(self).books() == old(self).books(),
            forall|o: BuildingId|
                #[trigger] final(self).posted_of(o) == old(self).posted_of(o) + if o == office {
                    heads as int
                } else {
                    0
                },
    {
        let id = self.add(office, heads, at, Some(riding), None);
        proof {
            assert forall|o: BuildingId|
                #[trigger] heads_where(self.list@, domestic_of(o)) == heads_where(
                    old(self).list@,
                    domestic_of(o),
                ) + if o == office {
                    heads as int
                } else {
                    0
                } by {
                assert(self.list@.drop_last() =~= old(self).list@);
            }
        }
        id
    }

    /// Foreign labour, set down at the frontier post it arrived through. They
    /// start stranded: a gang with nowhere to be and no lift is exactly what
    /// asks an office for a bus.
    pub fn arrive(&mut self, office: BuildingId, market: Market, heads: u32, at: Point) -> (id:
        PartyId)
        requires
            old(self).wf(),
            old(self).next_id_spec() < u32::MAX,
        ensures
            final(self).wf(),
            id.0 == old(self).next_id_spec(),
            final(self).next_id_spec() == old(self).next_id_spec() + 1,
            final(self).parties() == old(self).parties().push(
                Party { id, office, heads, at, working: None, riding: None, hired_from: Some(market) },
            ),
            final(self).books() == old(self).books(),
            forall|o: BuildingId| #[trigger] final(self).posted_of(o) == old(self).posted_of(o),
    {
        let id = self.add(office, heads, at, None, Some(market));
        proof {
            assert forall|o: BuildingId|
                #[trigger] heads_where(self.list@, domestic_of(o)) == heads_where(
                    old(self).list@,
                    domestic_of(o),
                ) by {
                assert(self.list@.drop_last() =~= old(self).list@);
            }
        }
        id
    }

    fn add(
        &mut self,
        office: BuildingId,
        heads: u32,
        at: Point,
        riding: Option<VehicleId>,
        hired_from: Option<Market>,
    ) -> (id: PartyId)
        requires
            old(self).wf(),
            old(self).next_id_spec() < u32::MAX,
        ensures
            final(self).wf(),
            id.0 == old(self).next_id_spec(),
            final(self).next_id_spec() == old(self).next_id_spec() + 1,
            final(self).parties() == old(self).parties().push(
                Party { id, office, heads, at, working: None, riding, hired_from },
            ),
            final(self).books() == old(self).books(),
    {
        let id = PartyId(self.next_id);
        self.next_id = self.next_id + 1;
        self.list.push(Party { id, office, heads, at, working: None, riding, hired_from });
        proof {
            assert forall|i: int, j: int|
                0 <= i < j < self.list@.len() implies (#[trigger] self.list@[i]).id != (
                #[trigger] self.list@[j]).id by {
                if j == self.list@.len() - 1 {
                    assert(old(self).list@[i].id.0 < old(self).next_id);
                } else {
                    assert(old(self).list@[i] == self.list@[i] && old(self).list@[j]
                        == self.list@[j]);
                }
            }
        }
        id
    }

    /// They are home. The heads go back into the office's establishment.
    pub fn dissolve(&mut self, id: PartyId) -> (r: Option<Party>)
        requires
            old(self).wf(),
        ensures
            final(self).wf(),
            final(self).next_id_spec() == old(self).next_id_spec(),
            final(self).books() == old(self).books(),
            match r {
                Some(p) => {
                    let i = first_index(old(self).parties(), with_id(id));
                    &&& i < old(self).parties().len()
                    &&& p == old(self).parties()[i]
                    &&& final(self).parties() == old(self).parties().remove(i)
                    &&& forall|o: BuildingId|
                        #[trigger] final(self).posted_of(o) == old(self).posted_of(o) - if (domestic_of(
                            o,
                        ))(p) {
                            p.heads as int
                        } else {
                            0
                        }
                },
                None => {
                    &&& first_index(old(self).parties(), with_id(id)) == old(self).parties().len()
                    &&& final(self).parties() == old(self).parties()
                },
            },
    {
        let index = match self.find(id) {
            Some(i) => i,
            None => return None,
        };
        let party = self.list.remove(index);
        proof {
            lemma_wf_remove(old(self).list@, self.list@, old(self).next_id, index as int);
            assert forall|o: BuildingId|
                #[trigger] heads_where(self.list@, domestic_of(o)) == heads_where(
                    old(self).list@,
                    domestic_of(o),
                ) - if (domestic_of(o))(party) {
                    party.heads as int
                } else {
                    0
                } by {
                lemma_heads_remove(old(self).list@, domestic_of(o), index as int);
            }
        }
        Some(party)
    }

    /// Down tools: whatever they were working, they are now waiting for a lift
    /// where they stand.
    pub fn release(&mut self, site: Destination, at: Point)
        ensures
            final(self).parties().len() == old(self).parties().len(),
            forall|i: int|
                0 <= i < old(self).parties().len() ==> #[trigger] final(self).parties()[i] == released(
                    old(self).parties()[i],
                    site,
                    at,
                ),
            final(self).next_id_spec() == old(self).next_id_spec(),
            final(self).books() == old(self).books(),
            old(self).wf() ==> final(self).wf(),
            forall|o: BuildingId| #[trigger] final(self).posted_of(o) == old(self).posted_of(o),
    {
        let mut i: usize = 0;
        while i < self.list.len()
            invariant
                i <= self.list@.len(),
                self.list@.len() == old(self).list@.len(),
                self.next_id == old(self).next_id,
                self.books@ == old(self).books@,
                forall|j: int|
                    0 <= j < i ==> #[trigger] self.list@[j] == released(old(self).list@[j], site, at),
                forall|j: int| i <= j < self.list@.len() ==> #[trigger] self.list@[j] == old(self).list@[j],
            decreases self.list@.len() - i,
        {
            let p = self.list[i];
            if p.working == Some(site) {
                self.list.set(i, Party { working: None, at, ..p });
            }
            i = i + 1;
        }
        proof {
            assert forall|o: BuildingId|
                #[trigger] heads_where(self.list@, domestic_of(o)) == heads_where(
                    old(self).list@,
                    domestic_of(o),
                ) by {
                lemma_heads_same(old(self).list@, self.list@, domestic_of(o));
            }
        }
    }
}

/// Moving a crew (putting it on a bus, landing it at a site, setting it down at
/// the roadside) changes no office's count of people out, as long as the crew
/// keeps its office, its size and where it was hired.
pub proof fn moving_a_party_keeps_the_count(list: Seq<Party>, i: int, moved: Party, office: BuildingId)
    requires
        0 <= i < list.len(),
        moved.office == list[i].office,
        moved.heads == list[i].heads,
        moved.hired_from == list[i].hired_from,
    ensures
        heads_where(list.update(i, moved), domestic_of(office)) == heads_where(list, domestic_of(office)),
        heads_where(list.update(i, moved), foreign_of(office)) == heads_where(list, foreign_of(office)),
{
    lemma_heads_same(list, list.update(i, moved), domestic_of(office));
    lemma_heads_same(list, list.update(i, moved), foreign_of(office));
}

proof fn lemma_employers_are_filtered_lines(books: Seq<Hire>, market: Market)
    ensures
        employers_of(books, market) == books.filter(|h: Hire| h.market == market && h.heads > 0).map_values(
            |h: Hire| (h.office, h.heads),
        ),
    decreases books.len(),
{
    reveal(Seq::filter);
    if books.len() > 0 {
        lemma_employers_are_filtered_lines(books.drop_last(), market);
        let f = books.drop_last().filter(|h: Hire| h.market == market && h.heads > 0);
        assert(f.push(books.last()).map_values(|h: Hire| (h.office, h.heads)) =~= f.map_values(
            |h: Hire| (h.office, h.heads),
        ).push((books.last().office, books.last().heads)));
    }
}

proof fn lemma_key_injective(o1: BuildingId, m1: Market, o2: BuildingId, m2: Market)
    ensures
        book_key(o1, m1) == book_key(o2, m2) <==> (o1 == o2 && m1 == m2),
{
    match m1 {
        Market::East => match m2 {
            Market::East => {},
            Market::West => {},
        },
        Market::West => match m2 {
            Market::East => {},
            Market::West => {},
        },
    }
}

/// A line's heads are what the books say for its office and bloc, and an
/// office and bloc with no line have none.
proof fn lemma_on_books_value(books: Seq<Hire>, office: BuildingId, market: Market)
    requires
        books_ok(books),
    ensures
        forall|i: int|
            0 <= i < books.len() && #[trigger] hire_key(books[i]) == book_key(office, market) ==> on_books(
                books,
                office,
                market,
            ) == books[i].heads,
        (forall|i: int| 0 <= i < books.len() ==> #[trigger] hire_key(books[i]) != book_key(office, market))
            ==> on_books(books, office, market) == 0,
{
    assert forall|i: int|
        0 <= i < books.len() && #[trigger] hire_key(books[i]) == book_key(office, market) implies on_books(
        books,
        office,
        market,
    ) == books[i].heads by {
        let j = choose|j: int| 0 <= j < books.len() && #[trigger] hire_key(books[j]) == book_key(office, market);
        if j < i {
            assert(hire_key(books[j]) < hire_key(books[i]));
        } else if j > i {
            assert(hire_key(books[i]) < hire_key(books[j]));
        }
    }
}

/// Changing the heads on one line changes what the books say for that line's
/// key and nothing else.
proof fn lemma_books_set(books: Seq<Hire>, i: int, heads: u32)
    requires
        books_ok(books),
        0 <= i < books.len(),
        heads > 0,
    ensures
        books_ok(books.update(i, with_heads(books[i], heads))),
        forall|o: BuildingId, m: Market|
            #[trigger] on_books(books.update(i, with_heads(books[i], heads)), o, m) == if book_key(o, m)
                == hire_key(books[i]) {
                heads as nat
            } else {
                on_books(books, o, m)
            },
{
    let after = books.update(i, with_heads(books[i], heads));
    assert forall|a: int, b: int| #![trigger after[a], after[b]] 0 <= a < b < after.len() implies hire_key(after[a]) < hire_key(after[b]) by {
        assert(hire_key(after[a]) == hire_key(books[a]));
        assert(hire_key(after[b]) == hire_key(books[b]));
        assert(hire_key(books[a]) < hire_key(books[b]));
    }
    assert forall|a: int| 0 <= a < after.len() implies (#[trigger] after[a]).heads > 0 by {
        if a != i {
            assert(after[a] == books[a]);
        }
    }
    assert forall|o: BuildingId, m: Market|
        #[trigger] on_books(after, o, m) == if book_key(o, m) == hire_key(books[i]) {
            heads as nat
        } else {
            on_books(books, o, m)
        } by {
        lemma_on_books_value(after, o, m);
        lemma_on_books_value(books, o, m);
        if book_key(o, m) == hire_key(books[i]) {
            assert(hire_key(after[i]) == book_key(o, m));
        } else if exists|j: int| 0 <= j < books.len() && #[trigger] hire_key(books[j]) == book_key(o, m) {
            let j = choose|j: int| 0 <= j < books.len() && #[trigger] hire_key(books[j]) == book_key(o, m);
            assert(after[j] == books[j]);
            assert(hire_key(after[j]) == book_key(o, m));
        } else {
            assert forall|j: int| 0 <= j < after.len() implies #[trigger] hire_key(after[j]) != book_key(o, m) by {
                assert(hire_key(after[j]) == hire_key(books[j]));
            }
        }
    }
}

/// A new line slotted in where its key belongs.
proof fn lemma_books_insert(books: Seq<Hire>, i: int, line: Hire)
    requires
        books_ok(books),
        0 <= i <= books.len(),
        line.heads > 0,
        forall|j: int| 0 <= j < i ==> hire_key(#[trigger] books[j]) < hire_key(line),
        i < books.len() ==> hire_key(books[i]) > hire_key(line),
    ensures
        books_ok(books.insert(i, line)),
        forall|o: BuildingId, m: Market|
            #[trigger] on_books(books.insert(i, line), o, m) == if book_key(o, m) == hire_key(line) {
                line.heads as nat
            } else {
                on_books(books, o, m)
            },
{
    let after = books.insert(i, line);
    assert forall|j: int| i < j < books.len() implies hire_key(line) < hire_key(#[trigger] books[j]) by {
        assert(hire_key(books[i]) < hire_key(books[j]));
    }
    assert forall|a: int, b: int| #![trigger after[a], after[b]] 0 <= a < b < after.len() implies hire_key(after[a]) < hire_key(after[b]) by {
        if a < i {
            assert(after[a] == books[a]);
        } else if a > i {
            assert(after[a] == books[a - 1]);
        }
        if b < i {
            assert(after[b] == books[b]);
            assert(hire_key(books[a]) < hire_key(books[b]));
        } else if b > i {
            assert(after[b] == books[b - 1]);
            if a != i {
                if a < i {
                    assert(hire_key(books[a]) < hire_key(line));
                } else {
                    assert(hire_key(books[a - 1]) < hire_key(books[b - 1]));
                }
            }
        }
    }
    assert forall|a: int| 0 <= a < after.len() implies (#[trigger] after[a]).heads > 0 by {
        if a < i {
            assert(after[a] == books[a]);
        } else if a > i {
            assert(after[a] == books[a - 1]);
        }
    }
    assert forall|o: BuildingId, m: Market|
        #[trigger] on_books(after, o, m) == if book_key(o, m) == hire_key(line) {
            line.heads as nat
        } else {
            on_books(books, o, m)
        } by {
        lemma_on_books_value(after, o, m);
        lemma_on_books_value(books, o, m);
        if book_key(o, m) == hire_key(line) {
            assert(after[i] == line);
            assert(hire_key(after[i]) == book_key(o, m));
        } else if exists|j: int| 0 <= j < books.len() && #[trigger] hire_key(books[j]) == book_key(o, m) {
            let j = choose|j: int| 0 <= j < books.len() && #[trigger] hire_key(books[j]) == book_key(o, m);
            if j < i {
                assert(after[j] == books[j]);
                assert(hire_key(after[j]) == book_key(o, m));
            } else {
                assert(after[j + 1] == books[j]);
                assert(hire_key(after[j + 1]) == book_key(o, m));
            }
        } else {
            assert forall|j: int| 0 <= j < after.len() implies #[trigger] hire_key(after[j]) != book_key(o, m) by {
                if j < i {
                    assert(after[j] == books[j]);
                    assert(hire_key(books[j]) != book_key(o, m));
                } else if j > i {
                    assert(after[j] == books[j - 1]);
                    assert(hire_key(books[j - 1]) != book_key(o, m));
                }
            }
        }
    }
}

/// Striking a line off: its key now holds nobody, every other key keeps its
/// heads.
proof fn lemma_books_remove(books: Seq<Hire>, i: int)
    requires
        books_ok(books),
        0 <= i < books.len(),
    ensures
        books_ok(books.remove(i)),
        forall|o: BuildingId, m: Market|
            #[trigger] on_books(books.remove(i), o, m) == if book_key(o, m) == hire_key(books[i]) {
                0
            } else {
                on_books(books, o, m)
            },
{
    let after = books.remove(i);
    assert forall|a: int, b: int| #![trigger after[a], after[b]] 0 <= a < b < after.len() implies hire_key(after[a]) < hire_key(after[b]) by {
        let oa = if a < i { a } else { a + 1 };
        let ob = if b < i { b } else { b + 1 };
        assert(after[a] == books[oa]);
        assert(after[b] == books[ob]);
        assert(hire_key(books[oa]) < hire_key(books[ob]));
    }
    assert forall|a: int| 0 <= a < after.len() implies (#[trigger] after[a]).heads > 0 by {
        let oa = if a < i { a } else { a + 1 };
        assert(after[a] == books[oa]);
    }
    assert forall|o: BuildingId, m: Market|
        #[trigger] on_books(after, o, m) == if book_key(o, m) == hire_key(books[i]) {
            0
        } else {
            on_books(books, o, m)
        } by {
        lemma_on_books_value(after, o, m);
        lemma_on_books_value(books, o, m);
        if book_key(o, m) == hire_key(books[i]) {
            assert forall|j: int| 0 <= j < after.len() implies #[trigger] hire_key(after[j]) != book_key(o, m) by {
                let oj = if j < i { j } else { j + 1 };
                assert(after[j] == books[oj]);
                if oj < i {
                    assert(hire_key(books[oj]) < hire_key(books[i]));
                } else {
                    assert(hire_key(books[i]) < hire_key(books[oj]));
                }
            }
        } else if exists|j: int| 0 <= j < books.len() && #[trigger] hire_key(books[j]) == book_key(o, m) {
            let j = choose|j: int| 0 <= j < books.len() && #[trigger] hire_key(books[j]) == book_key(o, m);
            assert(j != i);
            if j < i {
                assert(after[j] == books[j]);
                assert(hire_key(after[j]) == book_key(o, m));
            } else {
                assert(after[j - 1] == books[j]);
                assert(hire_key(after[j - 1]) == book_key(o, m));
            }
        } else {
            assert forall|j: int| 0 <= j < after.len() implies #[trigger] hire_key(after[j]) != book_key(o, m) by {
                let oj = if j < i { j } else { j + 1 };
                assert(after[j] == books[oj]);
                assert(hire_key(books[oj]) != book_key(o, m));
            }
        }
    }
}

proof fn lemma_first_index_is(list: Seq<Party>, p: spec_fn(Party) -> bool, i: int)
    requires
        0 <= i <= list.len(),
        forall|j: int| 0 <= j < i ==> !p(#[trigger] list[j]),
        i == list.len() || p(list[i]),
    ensures
        first_index(list, p) == i,
    decreases i,
{
    if i > 0 {
        let rest = list.drop_first();
        assert(!p(list[0]));
        assert forall|j: int| 0 <= j < i - 1 implies !p(#[trigger] rest[j]) by {
            assert(rest[j] == list[j + 1]);
        }
        if i < list.len() {
            assert(rest[i - 1] == list[i]);
        }
        lemma_first_index_is(rest, p, i - 1);
    }
}

/// A prefix holds no more people than the whole.
proof fn lemma_heads_prefix(list: Seq<Party>, p: spec_fn(Party) -> bool, k: int)
    requires
        0 <= k <= list.len(),
    ensures
        0 <= heads_where(list.take(k), p) <= heads_where(list, p),
    decreases list.len(),
{
    if list.len() > 0 {
        if k == list.len() {
            assert(list.take(k) =~= list);
            lemma_heads_prefix(list.drop_last(), p, k - 1);
            assert(list.drop_last().take(k - 1) =~= list.drop_last());
        } else {
            lemma_heads_prefix(list.drop_last(), p, k);
            assert(list.drop_last().take(k) =~= list.take(k));
        }
    } else {
        assert(list.take(k) =~= list);
    }
}

proof fn lemma_bloc_prefix(books: Seq<Hire>, market: Market, k: int)
    requires
        0 <= k <= books.len(),
    ensures
        0 <= bloc_heads(books.take(k), market) <= bloc_heads(books, market),
    decreases books.len(),
{
    if books.len() > 0 {
        if k == books.len() {
            assert(books.take(k) =~= books);
            lemma_bloc_prefix(books.drop_last(), market, k - 1);
            assert(books.drop_last().take(k - 1) =~= books.drop_last());
        } else {
            lemma_bloc_prefix(books.drop_last(), market, k);
            assert(books.drop_last().take(k) =~= books.take(k));
        }
    } else {
        assert(books.take(k) =~= books);
    }
}

/// Two lists that agree, place by place, on which parties count and how many
/// heads those have, count the same.
proof fn lemma_heads_same(a: Seq<Party>, b: Seq<Party>, p: spec_fn(Party) -> bool)
    requires
        a.len() == b.len(),
        forall|j: int|
            0 <= j < a.len() ==> p(#[trigger] a[j]) == p(b[j]) && (p(a[j]) ==> a[j].heads == b[j].heads),
    ensures
        heads_where(a, p) == heads_where(b, p),
    decreases a.len(),
{
    if a.len() > 0 {
        assert forall|j: int| 0 <= j < a.len() - 1 implies p(#[trigger] a.drop_last()[j]) == p(
            b.drop_last()[j],
        ) && (p(a.drop_last()[j]) ==> a.drop_last()[j].heads == b.drop_last()[j].heads) by {
            assert(a.drop_last()[j] == a[j]);
            assert(b.drop_last()[j] == b[j]);
        }
        assert(p(a[a.len() - 1]) == p(b[a.len() - 1]));
        lemma_heads_same(a.drop_last(), b.drop_last(), p);
    }
}

/// Taking one party out takes exactly its heads off every count it was in.
proof fn lemma_heads_remove(list: Seq<Party>, p: spec_fn(Party) -> bool, i: int)
    requires
        0 <= i < list.len(),
    ensures
        heads_where(list.remove(i), p) == heads_where(list, p) - if p(list[i]) {
            list[i].heads as int
        } else {
            0
        },
    decreases list.len(),
{
    if i == list.len() - 1 {
        assert(list.remove(i) =~= list.drop_last());
    } else {
        let shorter = list.remove(i);
        assert(shorter.drop_last() =~= list.drop_last().remove(i));
        assert(shorter.last() == list.last());
        lemma_heads_remove(list.drop_last(), p, i);
        assert(list.drop_last()[i] == list[i]);
    }
}

/// Taking a party out keeps the ids in order.
proof fn lemma_wf_remove(old_list: Seq<Party>, list: Seq<Party>, next_id: u32, index: int)
    requires
        0 <= index < old_list.len(),
        list == old_list.remove(index),
        forall|i: int| 0 <= i < old_list.len() ==> (#[trigger] old_list[i]).id.0 < next_id,
        forall|i: int, j: int|
            0 <= i < j < old_list.len() ==> (#[trigger] old_list[i]).id != (#[trigger] old_list[j]).id,
    ensures
        forall|i: int| 0 <= i < list.len() ==> (#[trigger] list[i]).id.0 < next_id,
        forall|i: int, j: int| 0 <= i < j < list.len() ==> (#[trigger] list[i]).id != (#[trigger] list[j]).id,
{
    assert forall|i: int| 0 <= i < list.len() implies (#[trigger] list[i]).id.0 < next_id by {
        if i < index {
            assert(list[i] == old_list[i]);
        } else {
            assert(list[i] == old_list[i + 1]);
        }
    }
    assert forall|i: int, j: int| 0 <= i < j < list.len() implies (#[trigger] list[i]).id != (
    #[trigger] list[j]).id by {
        let oi = if i < index { i } else { i + 1 };
        let oj = if j < index { j } else { j + 1 };
        assert(list[i] == old_list[oi]);
        assert(list[j] == old_list[oj]);
    }
}

proof fn lemma_employer_is_a_line(books: Seq<Hire>, market: Market, m: int)
    requires
        0 <= m < employers_of(books, market).len(),
    ensures
        exists|k: int|
            0 <= k < books.len() && (#[trigger] books[k]).market == market && books[k].heads > 0
                && employers_of(books, market)[m] == (books[k].office, books[k].heads),
    decreases books.len(),
{
    let rest = employers_of(books.drop_last(), market);
    if m < rest.len() {
        lemma_employer_is_a_line(books.drop_last(), market, m);
        let k = choose|k: int|
            0 <= k < books.drop_last().len() && (#[trigger] books.drop_last()[k]).market == market
                && books.drop_last()[k].heads > 0 && rest[m] == (books.drop_last()[k].office, books.drop_last()[k].heads);
        assert(books[k] == books.drop_last()[k]);
    } else {
        assert(books[books.len() - 1] == books.last());
    }
}

/// The offices that employ a bloc's builders come back in ascending order
/// of office, each once, each with somebody on its books.
pub proof fn employers_come_once_each_in_office_order(books: Seq<Hire>, market: Market)
    requires
        books_ok(books),
    ensures
        forall|i: int, j: int|
            0 <= i < j < employers_of(books, market).len() ==> (#[trigger] employers_of(books, market)[i]).0.0
                < (#[trigger] employers_of(books, market)[j]).0.0,
        forall|i: int| 0 <= i < employers_of(books, market).len() ==> (#[trigger] employers_of(books, market)[i]).1 > 0,
    decreases books.len(),
{
    if books.len() > 0 {
        let front = books.drop_last();
        assert(books_ok(front)) by {
            assert forall|i: int, j: int| 0 <= i < j < front.len() implies hire_key(#[trigger] front[i]) < hire_key(
                #[trigger] front[j],
            ) by {
                assert(front[i] == books[i] && front[j] == books[j]);
            }
            assert forall|i: int| 0 <= i < front.len() implies (#[trigger] front[i]).heads > 0 by {
                assert(front[i] == books[i]);
            }
        }
        employers_come_once_each_in_office_order(front, market);
        let e = employers_of(books, market);
        let r = employers_of(front, market);
        let last = books.last();
        if last.market == market && last.heads > 0 {
            assert forall|i: int, j: int| 0 <= i < j < e.len() implies (#[trigger] e[i]).0.0 < (#[trigger] e[j]).0.0 by {
                if j == e.len() - 1 {
                    lemma_employer_is_a_line(front, market, i);
                    let k = choose|k: int|
                        0 <= k < front.len() && (#[trigger] front[k]).market == market && front[k].heads > 0
                            && r[i] == (front[k].office, front[k].heads);
                    assert(books[k] == front[k]);
                    assert(hire_key(books[k]) < hire_key(books[books.len() - 1]));
                    assert(e[i] == r[i]);
                } else {
                    assert(e[i] == r[i] && e[j] == r[j]);
                }
            }
            assert forall|i: int| 0 <= i < e.len() implies (#[trigger] e[i]).1 > 0 by {
                if i < r.len() {
                    assert(e[i] == r[i]);
                }
            }
        }
    }
}

} // verus!
