//! Foreign tenders: bulk orders from the two blocs, at a premium, on a clock.
//!
//! A contract is a fixed tonnage, by a fixed day, at a price locked when it was
//! offered. Accepting one is a bet that the republic's output will hold up. A
//! missed deadline costs a fine on the undelivered share and sours relations
//! with that bloc; relations are capped, and decay back on their own.
//!
//! Prices are held in hundredths of the bloc's unit, and relations in
//! hundredths of a percent, so every sum is exact.

use crate::resource::Resource;
use crate::trade::Market;
use crate::units::Tonnes;
use vstd::prelude::*;
use vstd::relations::{sorted_by, total_ordering};

verus! {

/// A new tender lands every other month, if there is a crossing to land at.
pub const OFFER_EVERY_MONTHS: u64 = 2;

/// How many unaccepted offers may be on the table at once.
pub const MAX_OPEN_OFFERS: usize = 2;

/// The smallest tender, in tonnes.
pub const MIN_TONNES: u64 = 2;

/// The largest tender, in tonnes.
pub const MAX_TONNES: u64 = 200;

/// Fewest days a tender gives to deliver.
pub const DEADLINE_DAYS_MIN: u64 = 60;

/// Most days a tender gives to deliver.
pub const DEADLINE_DAYS_MAX: u64 = 90;

/// How long an unaccepted offer stands.
pub const OFFER_DAYS: u64 = 30;

/// Share of the undelivered value charged as a fine on failure, in percent.
pub const FINE_SHARE: u64 = 25;

/// Price penalty added per failed contract, in hundredths of a percent.
pub const RELATIONS_HIT: u64 = 1_200;

/// The worst relations can get, in hundredths of a percent.
pub const RELATIONS_CAP: u64 = 2_500;

/// How fast a bloc forgets, in hundredths of a percent a day: a single failure
/// haunts prices for about two months.
pub const RELATIONS_DECAY_PER_DAY: u64 = 20;

#[derive(Debug, Clone, Copy, PartialEq, Eq, Structural, Hash, PartialOrd, Ord)]
pub struct ContractId(pub u32);

#[derive(Debug, Clone, Copy, PartialEq, Eq, Structural)]
pub enum ContractState {
    /// On the table, not yet accepted.
    Offer,
    /// Accepted and running.
    Active,
    /// Delivered in full.
    Done,
    /// The deadline passed with tonnage outstanding.
    Failed,
}

/// One tender.
#[derive(Debug, Clone, Copy, PartialEq, Eq, Structural)]
pub struct Contract {
    pub id: ContractId,
    pub resource: Resource,
    pub market: Market,
    pub amount: Tonnes,
    pub delivered: Tonnes,
    /// Locked when the offer was made, in hundredths of the bloc's unit.
    pub price_per_tonne: u64,
    /// Absolute day index the goods are due by.
    pub deadline_day: u64,
    /// Absolute day index after which an unaccepted offer is withdrawn.
    pub offer_expires_day: u64,
    pub state: ContractState,
    /// When it reached `Done` or `Failed`, for pruning the history.
    pub closed_day: Option<u64>,
}

/// Tonnes still to deliver.
pub open spec fn outstanding_of(c: Contract) -> int {
    if c.amount.0 >= c.delivered.0 {
        c.amount.0 - c.delivered.0
    } else {
        0
    }
}

/// What failing right now would cost, in hundredths of the bloc's unit.
pub open spec fn fine_of(c: Contract) -> int {
    outstanding_of(c) * c.price_per_tonne * FINE_SHARE / 100
}

impl Contract {
    pub fn outstanding(&self) -> (t: Tonnes)
        ensures
            t.0 == outstanding_of(*self),
    {
        self.amount.saturating_sub(self.delivered)
    }

    pub fn is_live(&self) -> (r: bool)
        ensures
            r == (self.state == ContractState::Active),
    {
        self.state == ContractState::Active
    }

    /// What failing right now would cost.
    pub fn fine(&self) -> (f: u64)
        requires
            outstanding_of(*self) * self.price_per_tonne <= u64::MAX,
        ensures
            f == fine_of(*self),
    {
        let owed = self.outstanding().0 as u128 * self.price_per_tonne as u128;
        assert(owed * 25 / 100 <= u64::MAX) by (nonlinear_arith)
            requires
                owed <= u64::MAX,
        ;
        (owed * 25 / 100) as u64
    }
}

/// Index of the first contract with an id, or the count when none has it.
pub open spec fn contract_index(list: Seq<Contract>, id: ContractId) -> int
    decreases list.len(),
{
    if list.len() == 0 {
        0
    } else if list[0].id == id {
        0
    } else {
        1 + contract_index(list.drop_first(), id)
    }
}

/// The contracts in one state, in the order they were made.
pub open spec fn in_state(list: Seq<Contract>, state: ContractState) -> Seq<Contract>
    decreases list.len(),
{
    if list.len() == 0 {
        Seq::empty()
    } else if list.last().state == state {
        in_state(list.drop_last(), state).push(list.last())
    } else {
        in_state(list.drop_last(), state)
    }
}

/// The contracts other than those with an id.
pub open spec fn without(list: Seq<Contract>, id: ContractId) -> Seq<Contract>
    decreases list.len(),
{
    if list.len() == 0 {
        Seq::empty()
    } else if list.last().id != id {
        without(list.drop_last(), id).push(list.last())
    } else {
        without(list.drop_last(), id)
    }
}

/// Whether a contract can take an export of this good to this bloc.
pub open spec fn claims(c: Contract, resource: Resource, market: Market) -> bool {
    c.state == ContractState::Active && c.resource == resource && c.market == market && outstanding_of(c) > 0
}

/// Soonest deadline first, ties broken on id.
pub open spec fn claim_leq(a: (u64, u32), b: (u64, u32)) -> bool {
    a.0 < b.0 || (a.0 == b.0 && a.1 <= b.1)
}

/// The ranking keys of the contracts that claim a good, in storage order.
pub open spec fn claim_keys(list: Seq<Contract>, resource: Resource, market: Market) -> Seq<(u64, u32)>
    decreases list.len(),
{
    if list.len() == 0 {
        Seq::empty()
    } else if claims(list.last(), resource, market) {
        claim_keys(list.drop_last(), resource, market).push((list.last().deadline_day, list.last().id.0))
    } else {
        claim_keys(list.drop_last(), resource, market)
    }
}

/// Whether accepting this id succeeds: there is such an offer on the table.
pub open spec fn acceptable(list: Seq<Contract>, id: ContractId) -> bool {
    contract_index(list, id) < list.len() && list[contract_index(list, id)].state == ContractState::Offer
}

/// The contracts after accepting this id.
pub open spec fn accepted(list: Seq<Contract>, id: ContractId) -> Seq<Contract> {
    if acceptable(list, id) {
        list.update(
            contract_index(list, id),
            Contract { state: ContractState::Active, ..list[contract_index(list, id)] },
        )
    } else {
        list
    }
}

/// Every tender, and how each bloc currently feels about the republic.
#[derive(Debug, Clone, PartialEq)]
pub struct Contracts {
    list: Vec<Contract>,
    next_id: u32,
    /// Price penalty per bloc, up to [`RELATIONS_CAP`].
    east_penalty: u64,
    west_penalty: u64,
}

impl Contracts {
    pub closed spec fn contracts(&self) -> Seq<Contract> {
        self.list@
    }

    pub closed spec fn next_id_spec(&self) -> u32 {
        self.next_id
    }

    pub closed spec fn penalty_spec(&self, market: Market) -> u64 {
        match market {
            Market::East => self.east_penalty,
            Market::West => self.west_penalty,
        }
    }

    /// No two tenders share an id, and none is ahead of the next one handed
    /// out.
    pub open spec fn wf(&self) -> bool {
        &&& forall|i: int, j: int|
            0 <= i < j < self.contracts().len() ==> (#[trigger] self.contracts()[i]).id != (
            #[trigger] self.contracts()[j]).id
        &&& forall|i: int| 0 <= i < self.contracts().len() ==> (#[trigger] self.contracts()[i]).id.0 <= self.next_id_spec()
    }

    pub fn new() -> (c: Contracts)
        ensures
            c.wf(),
            c.contracts() == Seq::<Contract>::empty(),
            c.next_id_spec() == 0,
            c.penalty_spec(Market::East) == 0,
            c.penalty_spec(Market::West) == 0,
    {
        Contracts { list: Vec::new(), next_id: 0, east_penalty: 0, west_penalty: 0 }
    }

    pub fn all(&self) -> (r: &[Contract])
        ensures
            r@ == self.contracts(),
    {
        self.list.as_slice()
    }

    fn find(&self, id: ContractId) -> (r: Option<usize>)
        ensures
            match r {
                Some(i) => i == contract_index(self.contracts(), id) && i < self.contracts().len(),
                None => contract_index(self.contracts(), id) == self.contracts().len(),
            },
    {
        let mut i: usize = 0;
        while i < self.list.len()
            invariant
                i <= self.list@.len(),
                forall|j: int| 0 <= j < i ==> (#[trigger] self.list@[j]).id != id,
            decreases self.list@.len() - i,
        {
            if self.list[i].id == id {
                proof {
                    lemma_contract_index_is(self.list@, id, i as int);
                }
                return Some(i);
            }
            i = i + 1;
        }
        proof {
            lemma_contract_index_is(self.list@, id, i as int);
        }
        None
    }

    pub fn get(&self, id: ContractId) -> (r: Option<&Contract>)
        ensures
            match r {
                Some(c) => contract_index(self.contracts(), id) < self.contracts().len() && *c
                    == self.contracts()[contract_index(self.contracts(), id)],
                None => contract_index(self.contracts(), id) == self.contracts().len(),
            },
            match r {
                Some(c) => c.id == id && self.contracts().contains(*c),
                None => forall|k: int| 0 <= k < self.contracts().len() ==> (#[trigger] self.contracts()[k]).id != id,
            },
    {
        proof {
            a_contract_is_found_by_its_id(self.list@, id);
        }
        match self.find(id) {
            Some(i) => Some(&self.list[i]),
            None => None,
        }
    }

    pub fn get_mut(&mut self, id: ContractId) -> (r: Option<&mut Contract>)
        ensures
            match r {
                Some(c) => {
                    let i = contract_index(old(self).contracts(), id);
                    &&& i < old(self).contracts().len()
                    &&& *c == old(self).contracts()[i]
                    &&& final(self).contracts() == old(self).contracts().update(i, *final(c))
                },
                None => contract_index(old(self).contracts(), id) == old(self).contracts().len()
                    && final(self).contracts() == old(self).contracts(),
            },
            final(self).next_id_spec() == old(self).next_id_spec(),
            forall|m: Market| #[trigger] final(self).penalty_spec(m) == old(self).penalty_spec(m),
    {
        match self.find(id) {
            Some(i) => Some(&mut self.list[i]),
            None => None,
        }
    }

    fn of_state(&self, state: ContractState) -> (r: Vec<Contract>)
        ensures
            r@ == in_state(self.contracts(), state),
    {
        let mut out: Vec<Contract> = Vec::new();
        let mut i: usize = 0;
        while i < self.list.len()
            invariant
                i <= self.list@.len(),
                out@ == in_state(self.list@.take(i as int), state),
            decreases self.list@.len() - i,
        {
            proof {
                assert(self.list@.take(i + 1).drop_last() =~= self.list@.take(i as int));
            }
            if self.list[i].state == state {
                out.push(self.list[i]);
            }
            i = i + 1;
        }
        assert(self.list@.take(i as int) =~= self.list@);
        out
    }

    /// The offers on the table, in the order they were made.
    pub fn offers(&self) -> (r: Vec<Contract>)
        ensures
            r@ == in_state(self.contracts(), ContractState::Offer),
            r@ == self.contracts().filter(|c: Contract| c.state == ContractState::Offer),
    {
        proof {
            lemma_in_state_is_filter(self.list@, ContractState::Offer);
        }
        self.of_state(ContractState::Offer)
    }

    /// The contracts running, in the order they were made.
    pub fn active(&self) -> (r: Vec<Contract>)
        ensures
            r@ == in_state(self.contracts(), ContractState::Active),
            r@ == self.contracts().filter(|c: Contract| c.state == ContractState::Active),
    {
        proof {
            lemma_in_state_is_filter(self.list@, ContractState::Active);
        }
        self.of_state(ContractState::Active)
    }

    /// The id the next tender will carry, ahead of every id already held.
    pub fn reserve_id(&mut self) -> (id: ContractId)
        requires
            old(self).next_id_spec() < u32::MAX,
        ensures
            id.0 == old(self).next_id_spec() + 1,
            final(self).next_id_spec() == id.0,
            final(self).contracts() == old(self).contracts(),
            old(self).wf() ==> final(self).wf(),
            old(self).wf() ==> forall|i: int| 0 <= i < final(self).contracts().len() ==> (
            #[trigger] final(self).contracts()[i]).id.0 < id.0,
            forall|m: Market| #[trigger] final(self).penalty_spec(m) == old(self).penalty_spec(m),
    {
        self.next_id = self.next_id + 1;
        ContractId(self.next_id)
    }

    /// Put a tender on the books. The next reserved id stays ahead of it.
    pub fn insert(&mut self, contract: Contract)
        requires
            old(self).wf(),
            contract_index(old(self).contracts(), contract.id) == old(self).contracts().len(),
        ensures
            final(self).wf(),
            final(self).contracts() == old(self).contracts().push(contract),
            final(self).next_id_spec() == if contract.id.0 > old(self).next_id_spec() {
                contract.id.0
            } else {
                old(self).next_id_spec()
            },
            forall|m: Market| #[trigger] final(self).penalty_spec(m) == old(self).penalty_spec(m),
    {
        if contract.id.0 > self.next_id {
            self.next_id = contract.id.0;
        }
        self.list.push(contract);
        proof {
            lemma_index_absent(old(self).list@, contract.id);
            assert forall|i: int, j: int|
                0 <= i < j < self.list@.len() implies (#[trigger] self.list@[i]).id != (
                #[trigger] self.list@[j]).id by {
                assert(self.list@[i] == old(self).list@[i]);
                if j < old(self).list@.len() {
                    assert(self.list@[j] == old(self).list@[j]);
                }
            }
            assert forall|i: int| 0 <= i < self.list@.len() implies (#[trigger] self.list@[i]).id.0 <= self.next_id by {
                if i < old(self).list@.len() {
                    assert(self.list@[i] == old(self).list@[i]);
                }
            }
        }
    }

    /// Take a tender off the books. Whether there was one.
    pub fn remove(&mut self, id: ContractId) -> (r: bool)
        requires
            old(self).wf(),
        ensures
            final(self).wf(),
            final(self).contracts() == without(old(self).contracts(), id),
            final(self).contracts() == old(self).contracts().filter(|c: Contract| c.id != id),
            r == (contract_index(old(self).contracts(), id) < old(self).contracts().len()),
            r == exists|k: int| 0 <= k < old(self).contracts().len() && (#[trigger] old(self).contracts()[k]).id == id,
            final(self).next_id_spec() == old(self).next_id_spec(),
            forall|m: Market| #[trigger] final(self).penalty_spec(m) == old(self).penalty_spec(m),
    {
        proof {
            lemma_without_is_filter(self.list@, id);
            a_contract_is_found_by_its_id(self.list@, id);
        }
        let mut kept: Vec<Contract> = Vec::new();
        let mut found = false;
        let mut i: usize = 0;
        while i < self.list.len()
            invariant
                i <= self.list@.len(),
                kept@ == without(self.list@.take(i as int), id),
                found == exists|j: int| 0 <= j < i && (#[trigger] self.list@[j]).id == id,
                forall|j: int| 0 <= j < kept@.len() ==> exists|k: int| 0 <= k < i && #[trigger] kept@[j] == self.list@[k],
                forall|a: int, b: int| 0 <= a < b < kept@.len() ==> exists|ka: int, kb: int|
                    0 <= ka < kb < i && #[trigger] kept@[a] == self.list@[ka] && #[trigger] kept@[b] == self.list@[kb],
            decreases self.list@.len() - i,
        {
            proof {
                assert(self.list@.take(i + 1).drop_last() =~= self.list@.take(i as int));
            }
            let c = self.list[i];
            if c.id != id {
                let ghost before = kept@;
                kept.push(c);
                proof {
                    assert forall|a: int, b: int| 0 <= a < b < kept@.len() implies exists|ka: int, kb: int|
                        0 <= ka < kb < i + 1 && #[trigger] kept@[a] == self.list@[ka] && #[trigger] kept@[b] == self.list@[kb] by {
                        if b < before.len() {
                            assert(kept@[a] == before[a] && kept@[b] == before[b]);
                        } else {
                            assert(kept@[a] == before[a]);
                            let ka = choose|ka: int| 0 <= ka < i && before[a] == self.list@[ka];
                            assert(kept@[b] == self.list@[i as int]);
                            assert(0 <= ka < i as int && kept@[a] == self.list@[ka] && kept@[b] == self.list@[i as int]);
                        }
                    }
                    assert forall|j: int| 0 <= j < kept@.len() implies exists|k: int| 0 <= k < i + 1 && #[trigger] kept@[j] == self.list@[k] by {
                        if j < before.len() {
                            assert(kept@[j] == before[j]);
                        } else {
                            assert(kept@[j] == self.list@[i as int]);
                        }
                    }
                }
            } else {
                found = true;
            }
            i = i + 1;
        }
        proof {
            assert(self.list@.take(i as int) =~= self.list@);
            if found {
                let j = choose|j: int| 0 <= j < self.list@.len() && (#[trigger] self.list@[j]).id == id;
                lemma_index_at_most(self.list@, id, j);
            } else {
                assert forall|j: int| 0 <= j < self.list@.len() implies (#[trigger] self.list@[j]).id != id by {}
                lemma_contract_index_is(self.list@, id, self.list@.len() as int);
            }
            assert forall|a: int, b: int| 0 <= a < b < kept@.len() implies (#[trigger] kept@[a]).id != (#[trigger] kept@[b]).id by {
                let (ka, kb) = choose|ka: int, kb: int|
                    0 <= ka < kb < self.list@.len() && #[trigger] kept@[a] == self.list@[ka] && #[trigger] kept@[b] == self.list@[kb];
                assert(self.list@[ka].id != self.list@[kb].id);
            }
            assert forall|j: int| 0 <= j < kept@.len() implies (#[trigger] kept@[j]).id.0 <= self.next_id by {
                let k = choose|k: int| 0 <= k < self.list@.len() && #[trigger] kept@[j] == self.list@[k];
                assert(self.list@[k].id.0 <= self.next_id);
            }
        }
        self.list = kept;
        found
    }

    /// How sour a bloc is on the republic, in hundredths of a percent.
    pub fn penalty(&self, market: Market) -> (p: u64)
        ensures
            p == self.penalty_spec(market),
    {
        match market {
            Market::East => self.east_penalty,
            Market::West => self.west_penalty,
        }
    }

    /// Set how sour a bloc is, held between none and [`RELATIONS_CAP`].
    pub fn set_penalty(&mut self, market: Market, value: i64)
        ensures
            final(self).penalty_spec(market) == if value < 0 {
                0
            } else if value > RELATIONS_CAP {
                RELATIONS_CAP as int
            } else {
                value as int
            },
            forall|m: Market| m != market ==> #[trigger] final(self).penalty_spec(m) == old(self).penalty_spec(m),
            final(self).contracts() == old(self).contracts(),
            final(self).next_id_spec() == old(self).next_id_spec(),
    {
        let clamped: u64 = if value < 0 {
            0
        } else if value as u64 > RELATIONS_CAP {
            RELATIONS_CAP
        } else {
            value as u64
        };
        match market {
            Market::East => self.east_penalty = clamped,
            Market::West => self.west_penalty = clamped,
        }
    }

    /// Accept an offer. False if there is no such offer, including one that
    /// has already been accepted, so accepting twice is not a second success.
    pub fn accept(&mut self, id: ContractId) -> (r: bool)
        ensures
            r == acceptable(old(self).contracts(), id),
            final(self).contracts() == accepted(old(self).contracts(), id),
            r ==> exists|k: int|
                0 <= k < old(self).contracts().len() && (#[trigger] old(self).contracts()[k]).id == id
                    && old(self).contracts()[k].state == ContractState::Offer && final(self).contracts()
                    == old(self).contracts().update(k, Contract { state: ContractState::Active, ..old(self).contracts()[k] }),
            !r ==> final(self).contracts() == old(self).contracts(),
            old(self).wf() ==> (r <==> exists|k: int|
                0 <= k < old(self).contracts().len() && (#[trigger] old(self).contracts()[k]).id == id
                    && old(self).contracts()[k].state == ContractState::Offer),
            final(self).next_id_spec() == old(self).next_id_spec(),
            forall|m: Market| #[trigger] final(self).penalty_spec(m) == old(self).penalty_spec(m),
            old(self).wf() ==> final(self).wf(),
    {
        proof {
            accepting_turns_that_offer_active(self.list@, id);
        }
        match self.find(id) {
            Some(i) => {
                if self.list[i].state == ContractState::Offer {
                    let c = self.list[i];
                    self.list.set(i, Contract { state: ContractState::Active, ..c });
                    proof {
                        assert forall|a: int| 0 <= a < self.list@.len() implies (#[trigger] self.list@[a]).id == old(self).list@[a].id by {}
                    }
                    true
                } else {
                    false
                }
            },
            None => false,
        }
    }

    /// Turn an offer down. It leaves the table immediately. A live contract
    /// cannot be declined: that is what taking one on means.
    pub fn decline(&mut self, id: ContractId) -> (r: bool)
        requires
            old(self).wf(),
        ensures
            final(self).wf(),
            r == acceptable(old(self).contracts(), id),
            final(self).contracts() == if r {
                without(old(self).contracts(), id)
            } else {
                old(self).contracts()
            },
            r <==> exists|k: int|
                0 <= k < old(self).contracts().len() && (#[trigger] old(self).contracts()[k]).id == id
                    && old(self).contracts()[k].state == ContractState::Offer,
            r ==> final(self).contracts() == old(self).contracts().filter(|c: Contract| c.id != id),
            final(self).next_id_spec() == old(self).next_id_spec(),
            forall|m: Market| #[trigger] final(self).penalty_spec(m) == old(self).penalty_spec(m),
    {
        proof {
            accepting_turns_that_offer_active(self.list@, id);
            lemma_without_is_filter(self.list@, id);
        }
        match self.find(id) {
            Some(i) => {
                if self.list[i].state == ContractState::Offer {
                    self.remove(id)
                } else {
                    false
                }
            },
            None => false,
        }
    }

    /// Live contracts an export of this good could count against, soonest
    /// deadline first, ties broken on id.
    pub fn claimants(&self, resource: Resource, market: Market) -> (r: Vec<ContractId>)
        ensures
            r@ == claim_keys(self.contracts(), resource, market).sort_by(
                |a: (u64, u32), b: (u64, u32)| claim_leq(a, b),
            ).map_values(|k: (u64, u32)| ContractId(k.1)),
            r@ == claimant_ids(self.contracts(), resource, market),
            forall|k: int|
                #![trigger r@[k]]
                0 <= k < r@.len() ==> names_running_contract(self.contracts(), r@[k], resource, market),
            forall|i: int|
                0 <= i < self.contracts().len() && (#[trigger] self.contracts()[i]).state == ContractState::Active
                    && self.contracts()[i].resource == resource && self.contracts()[i].market == market
                    && self.contracts()[i].delivered.0 < self.contracts()[i].amount.0 ==> r@.contains(self.contracts()[i].id),
    {
        proof {
            only_live_accepted_contracts_claim(self.list@, resource, market);
        }
        let ghost leq = |a: (u64, u32), b: (u64, u32)| claim_leq(a, b);
        let mut sorted: Vec<(u64, u32)> = Vec::new();
        let mut i: usize = 0;
        while i < self.list.len()
            invariant
                i <= self.list@.len(),
                leq == (|a: (u64, u32), b: (u64, u32)| claim_leq(a, b)),
                sorted_by(sorted@, leq),
                sorted@.to_multiset() == claim_keys(self.list@.take(i as int), resource, market).to_multiset(),
            decreases self.list@.len() - i,
        {
            let c = self.list[i];
            proof {
                assert(self.list@.take(i + 1).drop_last() =~= self.list@.take(i as int));
                assert(self.list@.take(i + 1).last() == self.list@[i as int]);
            }
            if c.is_live() && c.resource == resource && c.market == market && c.outstanding().is_positive() {
                let key = (c.deadline_day, c.id.0);
                insert_claim(&mut sorted, key);
                proof {
                    let prev = claim_keys(self.list@.take(i as int), resource, market);
                    broadcast use vstd::seq_lib::group_to_multiset_ensures;
                    assert(prev.push(key).to_multiset() =~= prev.to_multiset().insert(key));
                }
            }
            i = i + 1;
        }
        proof {
            assert(self.list@.take(i as int) =~= self.list@);
            let keys = claim_keys(self.list@, resource, market);
            lemma_claim_leq_total();
            keys.lemma_sort_by_ensures(leq);
            vstd::seq_lib::lemma_sorted_unique(sorted@, keys.sort_by(leq), leq);
        }
        let mut ids: Vec<ContractId> = Vec::new();
        let mut k: usize = 0;
        while k < sorted.len()
            invariant
                k <= sorted@.len(),
                ids@ == sorted@.take(k as int).map_values(|key: (u64, u32)| ContractId(key.1)),
            decreases sorted@.len() - k,
        {
            ids.push(ContractId(sorted[k].1));
            proof {
                assert(sorted@.take(k + 1) =~= sorted@.take(k as int).push(sorted@[k as int]));
            }
            k = k + 1;
            proof {
                assert(ids@ =~= sorted@.take(k as int).map_values(|key: (u64, u32)| ContractId(key.1)));
            }
        }
        assert(sorted@.take(k as int) =~= sorted@);
        ids
    }
}

/// Accepting an offer makes it live, and accepting it again is not a second
/// success.
pub proof fn accepting_twice_is_not_a_second_success(list: Seq<Contract>, id: ContractId)
    requires
        acceptable(list, id),
    ensures
        accepted(list, id)[contract_index(list, id)].state == ContractState::Active,
        !acceptable(accepted(list, id), id),
{
    let after = accepted(list, id);
    lemma_contract_index_bounds(list, id);
    assert(after.len() == list.len());
    assert forall|j: int| 0 <= j < list.len() implies (#[trigger] after[j]).id == list[j].id by {}
    assert forall|j: int| 0 <= j < contract_index(list, id) implies (#[trigger] after[j]).id != id by {
        assert(after[j] == list[j]);
    }
    lemma_contract_index_is(after, id, contract_index(list, id));
}

pub proof fn lemma_claim_leq_total()
    ensures
        total_ordering(|a: (u64, u32), b: (u64, u32)| claim_leq(a, b)),
{
}

/// Put a key into a sorted run, keeping it sorted.
fn insert_claim(v: &mut Vec<(u64, u32)>, key: (u64, u32))
    requires
        sorted_by(old(v)@, |a: (u64, u32), b: (u64, u32)| claim_leq(a, b)),
    ensures
        sorted_by(final(v)@, |a: (u64, u32), b: (u64, u32)| claim_leq(a, b)),
        final(v)@.to_multiset() == old(v)@.to_multiset().insert(key),
{
    let ghost leq = |a: (u64, u32), b: (u64, u32)| claim_leq(a, b);
    let mut p: usize = 0;
    while p < v.len()
        invariant
            p <= v@.len(),
            v@ == old(v)@,
            forall|j: int| 0 <= j < p ==> claim_leq(#[trigger] v@[j], key),
        ensures
            p <= v@.len(),
            v@ == old(v)@,
            forall|j: int| 0 <= j < p ==> claim_leq(#[trigger] v@[j], key),
            p == v@.len() || !claim_leq(v@[p as int], key),
        decreases v@.len() - p,
    {
        let e = v[p];
        if !(e.0 < key.0 || (e.0 == key.0 && e.1 <= key.1)) {
            break;
        }
        p = p + 1;
    }
    let ghost before = v@;
    v.insert(p, key);
    proof {
        assert(v@ == before.insert(p as int, key));
        assert forall|a: int, b: int| 0 <= a < b < v@.len() implies leq(v@[a], v@[b]) by {
            if b < p {
                assert(v@[a] == before[a] && v@[b] == before[b]);
            } else if b == p {
                assert(v@[a] == before[a]);
            } else if a < p {
                assert(v@[a] == before[a] && v@[b] == before[b - 1]);
                assert(claim_leq(before[a], key));
                assert(!claim_leq(before[p as int], key));
                if p < b - 1 {
                    assert(leq(before[p as int], before[b - 1]));
                }
            } else if a == p {
                assert(v@[b] == before[b - 1]);
                assert(!claim_leq(before[p as int], key));
                if p < b - 1 {
                    assert(leq(before[p as int], before[b - 1]));
                }
            } else {
                assert(v@[a] == before[a - 1] && v@[b] == before[b - 1]);
            }
        }
        broadcast use vstd::seq_lib::group_to_multiset_ensures;
        assert(v@.remove(p as int) =~= before);
        assert(v@[p as int] == key);
        assert(v@.to_multiset().count(key) > 0);
        assert(before.to_multiset() =~= v@.to_multiset().remove(key));
        assert(v@.to_multiset() =~= before.to_multiset().insert(key));
    }
}

proof fn lemma_contract_index_is(list: Seq<Contract>, id: ContractId, i: int)
    requires
        0 <= i <= list.len(),
        forall|j: int| 0 <= j < i ==> (#[trigger] list[j]).id != id,
        i == list.len() || list[i].id == id,
    ensures
        contract_index(list, id) == i,
    decreases i,
{
    if i > 0 {
        let rest = list.drop_first();
        assert(list[0].id != id);
        assert forall|j: int| 0 <= j < i - 1 implies (#[trigger] rest[j]).id != id by {
            assert(rest[j] == list[j + 1]);
        }
        if i < list.len() {
            assert(rest[i - 1] == list[i]);
        }
        lemma_contract_index_is(rest, id, i - 1);
    }
}

proof fn lemma_contract_index_bounds(list: Seq<Contract>, id: ContractId)
    ensures
        0 <= contract_index(list, id) <= list.len(),
        contract_index(list, id) < list.len() ==> list[contract_index(list, id)].id == id,
        forall|j: int| 0 <= j < contract_index(list, id) ==> (#[trigger] list[j]).id != id,
    decreases list.len(),
{
    if list.len() > 0 && list[0].id != id {
        let rest = list.drop_first();
        lemma_contract_index_bounds(rest, id);
        assert forall|j: int| 0 <= j < contract_index(list, id) implies (#[trigger] list[j]).id != id by {
            if j > 0 {
                assert(list[j] == rest[j - 1]);
            }
        }
    }
}

proof fn lemma_index_at_most(list: Seq<Contract>, id: ContractId, k: int)
    requires
        0 <= k < list.len(),
        list[k].id == id,
    ensures
        contract_index(list, id) <= k,
    decreases k,
{
    if k > 0 && list[0].id != id {
        assert(list.drop_first()[k - 1] == list[k]);
        lemma_index_at_most(list.drop_first(), id, k - 1);
    }
}

proof fn lemma_in_state_is_filter(list: Seq<Contract>, state: ContractState)
    ensures
        in_state(list, state) == list.filter(|c: Contract| c.state == state),
    decreases list.len(),
{
    reveal(Seq::filter);
    if list.len() > 0 {
        lemma_in_state_is_filter(list.drop_last(), state);
    }
}

proof fn lemma_without_is_filter(list: Seq<Contract>, id: ContractId)
    ensures
        without(list, id) == list.filter(|c: Contract| c.id != id),
    decreases list.len(),
{
    reveal(Seq::filter);
    if list.len() > 0 {
        lemma_without_is_filter(list.drop_last(), id);
    }
}

/// A contract is found by its id exactly when one carries it, and what is
/// found carries it.
pub proof fn a_contract_is_found_by_its_id(list: Seq<Contract>, id: ContractId)
    ensures
        contract_index(list, id) < list.len() <==> exists|k: int| 0 <= k < list.len() && (#[trigger] list[k]).id == id,
        contract_index(list, id) < list.len() ==> list[contract_index(list, id)].id == id,
        0 <= contract_index(list, id) <= list.len(),
{
    lemma_contract_index_bounds(list, id);
    if exists|k: int| 0 <= k < list.len() && (#[trigger] list[k]).id == id {
        let k = choose|k: int| 0 <= k < list.len() && (#[trigger] list[k]).id == id;
        lemma_index_at_most(list, id, k);
    }
    if contract_index(list, id) < list.len() {
        assert(list[contract_index(list, id)].id == id);
    }
}

/// Accepting succeeds on an offer carrying that id and turns it, and nothing
/// else, active; otherwise nothing changes. Where ids are not shared, it
/// succeeds exactly when such an offer is on the table.
pub proof fn accepting_turns_that_offer_active(list: Seq<Contract>, id: ContractId)
    ensures
        acceptable(list, id) ==> exists|k: int|
            0 <= k < list.len() && (#[trigger] list[k]).id == id && list[k].state == ContractState::Offer
                && accepted(list, id) == list.update(k, Contract { state: ContractState::Active, ..list[k] }),
        !acceptable(list, id) ==> accepted(list, id) == list,
        (forall|i: int, j: int| 0 <= i < j < list.len() ==> (#[trigger] list[i]).id != (#[trigger] list[j]).id) ==> (
        acceptable(list, id) <==> exists|k: int|
            0 <= k < list.len() && (#[trigger] list[k]).id == id && list[k].state == ContractState::Offer),
{
    a_contract_is_found_by_its_id(list, id);
    let i = contract_index(list, id);
    if acceptable(list, id) {
        assert(list[i].id == id);
        assert(accepted(list, id) == list.update(i, Contract { state: ContractState::Active, ..list[i] }));
    }
    if (forall|a: int, b: int| 0 <= a < b < list.len() ==> (#[trigger] list[a]).id != (#[trigger] list[b]).id) {
        lemma_offer_with_unique_id(list, id);
    }
}

proof fn lemma_offer_with_unique_id(list: Seq<Contract>, id: ContractId)
    requires
        forall|a: int, b: int| 0 <= a < b < list.len() ==> (#[trigger] list[a]).id != (#[trigger] list[b]).id,
    ensures
        acceptable(list, id) <==> exists|k: int|
            0 <= k < list.len() && (#[trigger] list[k]).id == id && list[k].state == ContractState::Offer,
{
    a_contract_is_found_by_its_id(list, id);
    let i = contract_index(list, id);
    if acceptable(list, id) {
        assert(list[i].id == id);
    }
    if exists|k: int| 0 <= k < list.len() && (#[trigger] list[k]).id == id && list[k].state == ContractState::Offer {
        let k = choose|k: int| 0 <= k < list.len() && (#[trigger] list[k]).id == id && list[k].state == ContractState::Offer;
        lemma_index_at_most(list, id, k);
        if i < k {
            assert(list[i].id == id);
            assert(list[i].id != list[k].id);
        }
        assert(i == k);
    }
}

/// When no contract has an id, none does.
proof fn lemma_index_absent(list: Seq<Contract>, id: ContractId)
    requires
        contract_index(list, id) == list.len(),
    ensures
        forall|j: int| 0 <= j < list.len() ==> (#[trigger] list[j]).id != id,
{
    lemma_contract_index_bounds(list, id);
}

/// Some contract in the list carries this id and is accepted and running, for
/// this good and bloc, with part of its amount still undelivered.
pub open spec fn names_running_contract(list: Seq<Contract>, id: ContractId, resource: Resource, market: Market) -> bool {
    exists|i: int|
        0 <= i < list.len() && (#[trigger] list[i]).id == id && list[i].state == ContractState::Active
            && list[i].resource == resource && list[i].market == market && list[i].delivered.0 < list[i].amount.0
}

/// The ids [`Contracts::claimants`] answers with, soonest deadline first.
pub open spec fn claimant_ids(list: Seq<Contract>, resource: Resource, market: Market) -> Seq<ContractId> {
    claim_keys(list, resource, market).sort_by(|a: (u64, u32), b: (u64, u32)| claim_leq(a, b)).map_values(
        |k: (u64, u32)| ContractId(k.1),
    )
}

proof fn lemma_claim_keys_members(list: Seq<Contract>, resource: Resource, market: Market, x: (u64, u32))
    ensures
        claim_keys(list, resource, market).contains(x) <==> exists|i: int|
            0 <= i < list.len() && claims(#[trigger] list[i], resource, market) && x == (list[i].deadline_day, list[i].id.0),
    decreases list.len(),
{
    if list.len() > 0 {
        let front = list.drop_last();
        lemma_claim_keys_members(front, resource, market, x);
        let ks = claim_keys(list, resource, market);
        let kf = claim_keys(front, resource, market);
        if ks.contains(x) {
            let j = choose|j: int| 0 <= j < ks.len() && ks[j] == x;
            if j < kf.len() {
                assert(ks[j] == kf[j]);
                assert(kf.contains(x));
                let i = choose|i: int|
                    0 <= i < front.len() && claims(#[trigger] front[i], resource, market) && x == (front[i].deadline_day, front[i].id.0);
                assert(list[i] == front[i]);
            } else {
                assert(list[list.len() - 1] == list.last());
            }
        }
        if exists|i: int| 0 <= i < list.len() && claims(#[trigger] list[i], resource, market) && x == (list[i].deadline_day, list[i].id.0) {
            let i = choose|i: int| 0 <= i < list.len() && claims(#[trigger] list[i], resource, market) && x == (list[i].deadline_day, list[i].id.0);
            if i < front.len() {
                assert(front[i] == list[i]);
                assert(kf.contains(x));
                let j = choose|j: int| 0 <= j < kf.len() && kf[j] == x;
                assert(ks[j] == kf[j]);
            } else {
                assert(ks[ks.len() - 1] == x);
            }
        }
    }
}

/// The contracts that claim an export are exactly the accepted ones, still
/// running, for that good and bloc, with something left to deliver: every id
/// the claimants list gives names such a contract, and every such contract is
/// named.
pub proof fn only_live_accepted_contracts_claim(list: Seq<Contract>, resource: Resource, market: Market)
    ensures
        forall|k: int|
            #![trigger claimant_ids(list, resource, market)[k]]
            0 <= k < claimant_ids(list, resource, market).len() ==> names_running_contract(
                list,
                claimant_ids(list, resource, market)[k],
                resource,
                market,
            ),
        forall|i: int|
            0 <= i < list.len() && (#[trigger] list[i]).state == ContractState::Active && list[i].resource == resource
                && list[i].market == market && list[i].delivered.0 < list[i].amount.0 ==> claimant_ids(
                list,
                resource,
                market,
            ).contains(list[i].id),
{
    broadcast use vstd::seq_lib::group_to_multiset_ensures;

    let keys = claim_keys(list, resource, market);
    lemma_claim_leq_total();
    keys.lemma_sort_by_ensures(|a: (u64, u32), b: (u64, u32)| claim_leq(a, b));
    let sorted = keys.sort_by(|a: (u64, u32), b: (u64, u32)| claim_leq(a, b));
    let out = claimant_ids(list, resource, market);
    assert(out == sorted.map_values(|k: (u64, u32)| ContractId(k.1)));
    assert(out.len() == sorted.len());
    assert forall|k: int| #![trigger out[k]] 0 <= k < out.len() implies names_running_contract(
        list,
        out[k],
        resource,
        market,
    ) by {
        let x = sorted[k];
        assert(sorted.contains(x));
        assert(sorted.to_multiset().count(x) > 0);
        assert(keys.to_multiset().count(x) > 0);
        assert(keys.contains(x));
        lemma_claim_keys_members(list, resource, market, x);
        let i = choose|i: int| 0 <= i < list.len() && claims(#[trigger] list[i], resource, market) && x == (list[i].deadline_day, list[i].id.0);
        assert(out[k] == ContractId(x.1));
        assert(list[i].id == out[k]);
        assert(list[i].delivered.0 < list[i].amount.0);
    }
    assert forall|i: int|
        0 <= i < list.len() && (#[trigger] list[i]).state == ContractState::Active && list[i].resource == resource
            && list[i].market == market && list[i].delivered.0 < list[i].amount.0 implies out.contains(list[i].id) by {
        let x = (list[i].deadline_day, list[i].id.0);
        assert(claims(list[i], resource, market));
        lemma_claim_keys_members(list, resource, market, x);
        assert(keys.contains(x));
        assert(keys.to_multiset().count(x) > 0);
        assert(sorted.to_multiset().count(x) > 0);
        assert(sorted.contains(x));
        let k = choose|k: int| 0 <= k < sorted.len() && sorted[k] == x;
        assert(out[k] == list[i].id);
    }
}

} // verus!
