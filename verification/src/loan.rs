//! Bloc advances: borrowing hard currency, and what happens when you cannot
//! pay it back.
//!
//! Currency only enters at the border, through exports, so a young republic
//! borrows. The terms are locked when the money is taken: simple interest,
//! fixed at the moment of borrowing. A republic may owe the East and the West
//! at once, but never one bloc twice, and a bloc that has been defaulted on
//! never lends again.
//!
//! Money is held in hundredths of the bloc's unit (kopecks, cents), so every
//! sum is exact. Interest is in hundredths of a percent of the principal.

use crate::trade::Market;
use vstd::prelude::*;

verus! {

/// One rung of a bloc's ladder: what it will advance, and on what terms.
#[derive(Debug, Clone, Copy, PartialEq, Eq, Structural)]
pub struct Tier {
    /// What is advanced, in hundredths of the bloc's unit.
    pub principal: u64,
    /// Simple interest over the whole term, in hundredths of a percent of the
    /// principal.
    pub interest: u64,
    /// Days from taking it to when the whole sum is due.
    pub term_days: u64,
}

/// How many rungs every ladder has: a bridge, a programme and a bet.
pub const RUNGS: usize = 3;

/// The Eastern Bloc's ladder, in roubles: large, long and cheap.
pub open spec fn tiers_east_spec() -> Seq<Tier> {
    seq![
        Tier { principal: 6_000_000, interest: 800, term_days: 1_800 },
        Tier { principal: 30_000_000, interest: 1_400, term_days: 2_700 },
        Tier { principal: 100_000_000, interest: 2_200, term_days: 3_600 },
    ]
}

/// The Western Alliance's ladder, in dollars: small, short and dear.
pub open spec fn tiers_west_spec() -> Seq<Tier> {
    seq![
        Tier { principal: 300_000, interest: 1_000, term_days: 360 },
        Tier { principal: 900_000, interest: 1_600, term_days: 540 },
        Tier { principal: 2_500_000, interest: 2_500, term_days: 720 },
    ]
}

/// What a bloc will advance.
pub open spec fn ladder_spec(market: Market) -> Seq<Tier> {
    match market {
        Market::East => tiers_east_spec(),
        Market::West => tiers_west_spec(),
    }
}

/// Principal plus interest: the whole sum owed on a rung, fixed at taking.
pub open spec fn owed_on(tier: Tier) -> int {
    tier.principal * (10_000 + tier.interest) / 10_000
}

/// The Eastern Bloc's ladder.
pub fn tiers_east() -> (r: [Tier; 3])
    ensures
        r@ == tiers_east_spec(),
{
    let r = [
        Tier { principal: 6_000_000, interest: 800, term_days: 1_800 },
        Tier { principal: 30_000_000, interest: 1_400, term_days: 2_700 },
        Tier { principal: 100_000_000, interest: 2_200, term_days: 3_600 },
    ];
    assert(r@ =~= tiers_east_spec());
    r
}

/// The Western Alliance's ladder.
pub fn tiers_west() -> (r: [Tier; 3])
    ensures
        r@ == tiers_west_spec(),
{
    let r = [
        Tier { principal: 300_000, interest: 1_000, term_days: 360 },
        Tier { principal: 900_000, interest: 1_600, term_days: 540 },
        Tier { principal: 2_500_000, interest: 2_500, term_days: 720 },
    ];
    assert(r@ =~= tiers_west_spec());
    r
}

/// What a bloc will advance, smallest rung first.
pub fn ladder(market: Market) -> (r: [Tier; 3])
    ensures
        r@ == ladder_spec(market),
{
    match market {
        Market::East => tiers_east(),
        Market::West => tiers_west(),
    }
}

/// Both ladders have [`RUNGS`] rungs, and each climbs: a larger rung is
/// dearer and never due sooner, so no smaller rung is dead.
pub proof fn every_ladder_is_the_same_shape_and_climbs(market: Market)
    ensures
        ladder_spec(market).len() == RUNGS,
        forall|i: int|
            0 <= i < RUNGS - 1 ==> {
                let lower = #[trigger] ladder_spec(market)[i];
                let higher = ladder_spec(market)[i + 1];
                &&& higher.principal > lower.principal
                &&& higher.interest > lower.interest
                &&& higher.term_days >= lower.term_days
            },
        forall|i: int| 0 <= i < RUNGS ==> owed_on(#[trigger] ladder_spec(market)[i]) > ladder_spec(market)[i].principal,
{
    assert(owed_on(ladder_spec(market)[0]) > ladder_spec(market)[0].principal) by (nonlinear_arith)
        requires
            ladder_spec(market)[0].interest > 0,
            ladder_spec(market)[0].principal >= 10_000,
    ;
    assert(owed_on(ladder_spec(market)[1]) > ladder_spec(market)[1].principal) by (nonlinear_arith)
        requires
            ladder_spec(market)[1].interest > 0,
            ladder_spec(market)[1].principal >= 10_000,
    ;
    assert(owed_on(ladder_spec(market)[2]) > ladder_spec(market)[2].principal) by (nonlinear_arith)
        requires
            ladder_spec(market)[2].interest > 0,
            ladder_spec(market)[2].principal >= 10_000,
    ;
}

/// An advance the republic is carrying.
#[derive(Debug, Clone, Copy, PartialEq, Eq, Structural)]
pub struct Loan {
    pub market: Market,
    /// What was advanced.
    pub principal: u64,
    /// Principal plus interest: the whole sum owed, fixed at taking.
    pub owed: u64,
    /// How much of `owed` has been paid back.
    pub repaid: u64,
    pub taken_day: u64,
    pub due_day: u64,
}

/// What is still owed on an advance.
pub open spec fn outstanding_spec(loan: Loan) -> int {
    if loan.owed >= loan.repaid {
        loan.owed - loan.repaid
    } else {
        0
    }
}

impl Loan {
    pub fn outstanding(&self) -> (r: u64)
        ensures
            r == outstanding_spec(*self),
    {
        self.owed.saturating_sub(self.repaid)
    }

    pub fn is_cleared(&self) -> (r: bool)
        ensures
            r == (outstanding_spec(*self) == 0),
    {
        self.outstanding() == 0
    }

    /// Days left to pay, or zero once the day has come.
    pub fn days_left(&self, today: u64) -> (r: u64)
        ensures
            r == if self.due_day >= today {
                self.due_day - today
            } else {
                0
            },
    {
        self.due_day.saturating_sub(today)
    }
}

/// Why an advance could not be taken or repaid.
#[derive(Debug, Clone, Copy, PartialEq, Eq, Structural)]
pub enum LoanError {
    /// There is no such rung on the ladder.
    NoSuchTier,
    /// This bloc has already advanced you money you have not paid back.
    AlreadyOwing,
    /// This bloc has been defaulted on and will not advance again.
    Defaulted,
    /// There is nothing outstanding to this bloc.
    NothingOwed,
    /// The treasury does not hold that much of this bloc's currency.
    CannotAfford,
}

/// What a loan refusal says.
pub open spec fn loan_message(e: LoanError) -> Seq<char> {
    match e {
        LoanError::NoSuchTier => "no advance of that size is offered"@,
        LoanError::AlreadyOwing => "this bloc has already advanced what you have not repaid"@,
        LoanError::Defaulted => "this bloc has been defaulted on and will not advance again"@,
        LoanError::NothingOwed => "nothing is owed to this bloc"@,
        LoanError::CannotAfford => "the treasury cannot cover that"@,
    }
}

impl LoanError {
    /// What to tell the player.
    pub fn message(&self) -> (s: &'static str)
        ensures
            s@ == loan_message(*self),
    {
        match self {
            LoanError::NoSuchTier => "no advance of that size is offered",
            LoanError::AlreadyOwing => "this bloc has already advanced what you have not repaid",
            LoanError::Defaulted => "this bloc has been defaulted on and will not advance again",
            LoanError::NothingOwed => "nothing is owed to this bloc",
            LoanError::CannotAfford => "the treasury cannot cover that",
        }
    }
}

/// Index of the advance from a bloc, or the count when there is none.
pub open spec fn loan_index(list: Seq<Loan>, market: Market) -> int
    decreases list.len(),
{
    if list.len() == 0 {
        0
    } else if list[0].market == market {
        0
    } else {
        1 + loan_index(list.drop_first(), market)
    }
}

/// The advances whose day has come, in the order they were taken.
pub open spec fn overdue_of(list: Seq<Loan>, today: u64) -> Seq<Loan>
    decreases list.len(),
{
    if list.len() == 0 {
        Seq::empty()
    } else if today >= list.last().due_day {
        overdue_of(list.drop_last(), today).push(list.last())
    } else {
        overdue_of(list.drop_last(), today)
    }
}

/// Every advance the republic is carrying, at most one per bloc.
#[derive(Debug, Clone, PartialEq)]
pub struct Loans {
    live: Vec<Loan>,
    /// Advances that were not repaid.
    pub defaulted: u32,
    /// Advances that were repaid in full.
    pub cleared: u32,
    /// Blocs that will not advance again. Losing a creditor for good is what
    /// makes a default cost anything to a republic with an empty purse.
    burnt: Vec<Market>,
}

impl Loans {
    /// The advances being carried, in the order they were taken.
    pub closed spec fn live_spec(&self) -> Seq<Loan> {
        self.live@
    }

    /// The blocs that have been defaulted on.
    pub closed spec fn burnt_spec(&self) -> Seq<Market> {
        self.burnt@
    }

    /// Advances that were not repaid.
    pub closed spec fn defaulted_spec(&self) -> u32 {
        self.defaulted
    }

    /// Advances that were repaid in full.
    pub closed spec fn cleared_spec(&self) -> u32 {
        self.cleared
    }

    /// At most one advance per bloc.
    pub open spec fn wf(&self) -> bool {
        forall|i: int, j: int|
            0 <= i < j < self.live_spec().len() ==> (#[trigger] self.live_spec()[i]).market != (
            #[trigger] self.live_spec()[j]).market
    }

    /// Whether an advance from this bloc is being carried.
    pub open spec fn owes(&self, market: Market) -> bool {
        loan_index(self.live_spec(), market) < self.live_spec().len()
    }

    /// The advance from this bloc; meaningful when [`Loans::owes`] it.
    pub open spec fn loan_of(&self, market: Market) -> Loan {
        self.live_spec()[loan_index(self.live_spec(), market)]
    }

    /// Everything still owed to a bloc.
    pub open spec fn outstanding_to(&self, market: Market) -> int {
        if self.owes(market) {
            outstanding_spec(self.loan_of(market))
        } else {
            0
        }
    }

    pub open spec fn will_lend_spec(&self, market: Market) -> bool {
        !self.burnt_spec().contains(market)
    }

    /// What [`Loans::can_take`] answers.
    pub open spec fn can_take_spec(&self, market: Market, tier: usize) -> Result<Tier, LoanError> {
        if tier >= RUNGS {
            Err(LoanError::NoSuchTier)
        } else if !self.will_lend_spec(market) {
            Err(LoanError::Defaulted)
        } else if self.owes(market) {
            Err(LoanError::AlreadyOwing)
        } else {
            Ok(ladder_spec(market)[tier as int])
        }
    }

    pub fn new() -> (l: Loans)
        ensures
            l.wf(),
            l.live_spec() == Seq::<Loan>::empty(),
            l.burnt_spec() == Seq::<Market>::empty(),
            l.defaulted_spec() == 0,
            l.cleared_spec() == 0,
    {
        Loans { live: Vec::new(), defaulted: 0, cleared: 0, burnt: Vec::new() }
    }

    pub fn all(&self) -> (r: &[Loan])
        ensures
            r@ == self.live_spec(),
    {
        self.live.as_slice()
    }

    fn find(&self, market: Market) -> (r: Option<usize>)
        ensures
            match r {
                Some(i) => i == loan_index(self.live_spec(), market) && i < self.live_spec().len(),
                None => loan_index(self.live_spec(), market) == self.live_spec().len(),
            },
    {
        let mut i: usize = 0;
        while i < self.live.len()
            invariant
                i <= self.live@.len(),
                forall|j: int| 0 <= j < i ==> (#[trigger] self.live@[j]).market != market,
            decreases self.live@.len() - i,
        {
            if self.live[i].market == market {
                proof {
                    lemma_loan_index_is(self.live@, market, i as int);
                }
                return Some(i);
            }
            i = i + 1;
        }
        proof {
            lemma_loan_index_is(self.live@, market, i as int);
        }
        None
    }

    /// The advance from this bloc, if one is being carried.
    pub fn of(&self, market: Market) -> (r: Option<&Loan>)
        ensures
            match r {
                Some(l) => self.owes(market) && *l == self.loan_of(market),
                None => !self.owes(market),
            },
            match r {
                Some(l) => l.market == market && self.live_spec().contains(*l),
                None => forall|k: int| 0 <= k < self.live_spec().len() ==> (#[trigger] self.live_spec()[k]).market != market,
            },
    {
        proof {
            owing_a_bloc_is_carrying_its_advance(*self, market);
        }
        match self.find(market) {
            Some(i) => Some(&self.live[i]),
            None => None,
        }
    }

    /// Everything still owed to a bloc.
    pub fn outstanding(&self, market: Market) -> (r: u64)
        ensures
            r == self.outstanding_to(market),
    {
        match self.of(market) {
            Some(l) => l.outstanding(),
            None => 0,
        }
    }

    /// Whether a bloc will lend at all.
    pub fn will_lend(&self, market: Market) -> (r: bool)
        ensures
            r == self.will_lend_spec(market),
    {
        let mut i: usize = 0;
        while i < self.burnt.len()
            invariant
                i <= self.burnt@.len(),
                forall|j: int| 0 <= j < i ==> self.burnt@[j] != market,
            decreases self.burnt@.len() - i,
        {
            if self.burnt[i] == market {
                proof {
                    assert(self.burnt@[i as int] == market);
                }
                return false;
            }
            i = i + 1;
        }
        true
    }

    /// Whether an advance could be taken, and why not if not.
    pub fn can_take(&self, market: Market, tier: usize) -> (r: Result<Tier, LoanError>)
        ensures
            r == self.can_take_spec(market, tier),
    {
        if tier >= RUNGS {
            return Err(LoanError::NoSuchTier);
        }
        let terms = ladder(market)[tier];
        if !self.will_lend(market) {
            return Err(LoanError::Defaulted);
        }
        if self.find(market).is_some() {
            return Err(LoanError::AlreadyOwing);
        }
        Ok(terms)
    }

    /// Take an advance on `today`. Returns what was advanced.
    pub fn take(&mut self, market: Market, tier: usize, today: u64) -> (r: Result<u64, LoanError>)
        requires
            old(self).wf(),
            tier < RUNGS ==> today + ladder_spec(market)[tier as int].term_days <= u64::MAX,
        ensures
            final(self).wf(),
            final(self).burnt_spec() == old(self).burnt_spec(),
            final(self).defaulted_spec() == old(self).defaulted_spec(),
            final(self).cleared_spec() == old(self).cleared_spec(),
            match old(self).can_take_spec(market, tier) {
                Ok(terms) => {
                    &&& r == Ok::<u64, LoanError>(terms.principal)
                    &&& final(self).live_spec() == old(self).live_spec().push(
                        Loan {
                            market,
                            principal: terms.principal,
                            owed: owed_on(terms) as u64,
                            repaid: 0,
                            taken_day: today,
                            due_day: (today + terms.term_days) as u64,
                        },
                    )
                },
                Err(e) => r == Err::<u64, LoanError>(e) && final(self).live_spec() == old(self).live_spec(),
            },
    {
        let terms = match self.can_take(market, tier) {
            Ok(t) => t,
            Err(e) => return Err(e),
        };
        proof {
            assert(terms.principal <= 100_000_000 && terms.interest <= 2_500);
            assert(terms.principal * (10_000 + terms.interest) <= 100_000_000 * 12_500) by (nonlinear_arith)
                requires
                    terms.principal <= 100_000_000,
                    terms.interest <= 2_500,
            ;
        }
        let owed = terms.principal * (10_000 + terms.interest) / 10_000;
        self.live.push(
            Loan {
                market,
                principal: terms.principal,
                owed,
                repaid: 0,
                taken_day: today,
                due_day: today + terms.term_days,
            },
        );
        proof {
            assert forall|i: int, j: int|
                0 <= i < j < self.live@.len() implies (#[trigger] self.live@[i]).market != (
                #[trigger] self.live@[j]).market by {
                if j == self.live@.len() - 1 {
                    assert(self.live@[i] == old(self).live@[i]);
                    if old(self).live@[i].market == market {
                        lemma_loan_index_at_most(old(self).live@, market, i);
                    }
                } else {
                    assert(self.live@[i] == old(self).live@[i]);
                    assert(self.live@[j] == old(self).live@[j]);
                }
            }
        }
        Ok(terms.principal)
    }

    /// Pay some of an advance back. Returns what was actually paid, which is
    /// never more than is owed: overpaying a loan is not a way to lose money.
    pub fn repay(&mut self, market: Market, amount: u64) -> (r: Result<u64, LoanError>)
        requires
            old(self).wf(),
            old(self).cleared_spec() < u32::MAX,
        ensures
            final(self).wf(),
            final(self).burnt_spec() == old(self).burnt_spec(),
            final(self).defaulted_spec() == old(self).defaulted_spec(),
            !old(self).owes(market) ==> r == Err::<u64, LoanError>(LoanError::NothingOwed)
                && final(self).live_spec() == old(self).live_spec() && final(self).cleared_spec() == old(self).cleared_spec(),
            old(self).owes(market) ==> {
                let owing = old(self).outstanding_to(market);
                let paid = if amount <= owing {
                    amount as int
                } else {
                    owing
                };
                let i = loan_index(old(self).live_spec(), market);
                let after = Loan { repaid: (old(self).loan_of(market).repaid + paid) as u64, ..old(self).loan_of(market) };
                &&& r == Ok::<u64, LoanError>(paid as u64)
                &&& paid == owing ==> final(self).live_spec() == old(self).live_spec().remove(i)
                    && final(self).cleared_spec() == old(self).cleared_spec() + 1
                &&& paid < owing ==> final(self).live_spec() == old(self).live_spec().update(i, after)
                    && final(self).cleared_spec() == old(self).cleared_spec()
                &&& final(self).outstanding_to(market) == owing - paid
            },
    {
        let i = match self.find(market) {
            Some(i) => i,
            None => return Err(LoanError::NothingOwed),
        };
        let loan = self.live[i];
        let owing = loan.outstanding();
        let paid = if amount <= owing {
            amount
        } else {
            owing
        };
        let after = Loan { repaid: loan.repaid + paid, ..loan };
        if after.is_cleared() {
            self.live.remove(i);
            self.cleared = self.cleared + 1;
            proof {
                lemma_loan_index_bounds(old(self).live@, market);
                lemma_wf_remove(old(self).live@, i as int);
                lemma_not_owed_after_remove(old(self).live@, market, i as int);
            }
        } else {
            self.live.set(i, after);
            proof {
                lemma_wf_update(old(self).live@, i as int, after);
                lemma_loan_index_same(old(self).live@, self.live@, market);
            }
        }
        Ok(paid)
    }

    /// Write an advance off as unpaid: the bloc will not lend again. Returns
    /// what was still owed.
    pub fn default_on(&mut self, market: Market) -> (r: Option<u64>)
        requires
            old(self).wf(),
            old(self).defaulted_spec() < u32::MAX,
        ensures
            final(self).wf(),
            final(self).cleared_spec() == old(self).cleared_spec(),
            !old(self).owes(market) ==> r is None && final(self).live_spec() == old(self).live_spec()
                && final(self).burnt_spec() == old(self).burnt_spec() && final(self).defaulted_spec()
                == old(self).defaulted_spec(),
            old(self).owes(market) ==> {
                &&& r == Some(old(self).outstanding_to(market) as u64)
                &&& final(self).live_spec() == old(self).live_spec().remove(
                    loan_index(old(self).live_spec(), market),
                )
                &&& !final(self).owes(market)
                &&& final(self).defaulted_spec() == old(self).defaulted_spec() + 1
                &&& !final(self).will_lend_spec(market)
                &&& forall|m: Market| #[trigger] old(self).burnt_spec().contains(m) ==> final(self).burnt_spec().contains(m)
                &&& forall|m: Market| m != market ==> #[trigger] final(self).burnt_spec().contains(m) == old(self).burnt_spec().contains(m)
            },
    {
        let i = match self.find(market) {
            Some(i) => i,
            None => return None,
        };
        let lost = self.live[i].outstanding();
        self.live.remove(i);
        self.defaulted = self.defaulted + 1;
        proof {
            lemma_loan_index_bounds(old(self).live@, market);
            lemma_wf_remove(old(self).live@, i as int);
            lemma_not_owed_after_remove(old(self).live@, market, i as int);
        }
        if self.will_lend(market) {
            self.burnt.push(market);
            proof {
                assert(self.burnt@.last() == market);
                assert forall|m: Market| #[trigger] old(self).burnt@.contains(m) implies self.burnt@.contains(m) by {
                    let k = choose|k: int| 0 <= k < old(self).burnt@.len() && old(self).burnt@[k] == m;
                    assert(self.burnt@[k] == m);
                }
                assert forall|m: Market| m != market implies #[trigger] self.burnt@.contains(m) == old(self).burnt@.contains(m) by {
                    if self.burnt@.contains(m) {
                        let k = choose|k: int| 0 <= k < self.burnt@.len() && self.burnt@[k] == m;
                        assert(k < old(self).burnt@.len());
                        assert(old(self).burnt@[k] == m);
                    }
                    if old(self).burnt@.contains(m) {
                        let k = choose|k: int| 0 <= k < old(self).burnt@.len() && old(self).burnt@[k] == m;
                        assert(self.burnt@[k] == m);
                    }
                }
            }
        }
        Some(lost)
    }

    /// Advances whose day has come with money still owed.
    pub fn overdue(&self, today: u64) -> (r: Vec<Loan>)
        ensures
            r@ == overdue_of(self.live_spec(), today),
            forall|k: int|
                0 <= k < self.live_spec().len() ==> (r@.contains(#[trigger] self.live_spec()[k]) <==> today
                    >= self.live_spec()[k].due_day),
            forall|j: int| 0 <= j < r@.len() ==> self.live_spec().contains(#[trigger] r@[j]) && today >= r@[j].due_day,
            r@ == self.live_spec().filter(|l: Loan| today >= l.due_day),
    {
        proof {
            overdue_lists_exactly_the_loans_fallen_due(self.live@, today);
            lemma_overdue_is_filter(self.live@, today);
        }
        let mut out: Vec<Loan> = Vec::new();
        let mut i: usize = 0;
        while i < self.live.len()
            invariant
                i <= self.live@.len(),
                out@ == overdue_of(self.live@.take(i as int), today),
            decreases self.live@.len() - i,
        {
            proof {
                assert(self.live@.take(i + 1).drop_last() =~= self.live@.take(i as int));
            }
            if today >= self.live[i].due_day {
                out.push(self.live[i]);
            }
            i = i + 1;
        }
        assert(self.live@.take(i as int) =~= self.live@);
        out
    }
}

/// A bloc that has been defaulted on refuses every rung it offers, for as long
/// as the ledger lasts.
pub proof fn a_defaulted_bloc_never_lends_again(loans: Loans, market: Market, tier: usize)
    requires
        !loans.will_lend_spec(market),
    ensures
        loans.can_take_spec(market, tier) == if tier >= RUNGS {
            Err::<Tier, LoanError>(LoanError::NoSuchTier)
        } else {
            Err::<Tier, LoanError>(LoanError::Defaulted)
        },
{
}

proof fn lemma_loan_index_is(list: Seq<Loan>, market: Market, i: int)
    requires
        0 <= i <= list.len(),
        forall|j: int| 0 <= j < i ==> (#[trigger] list[j]).market != market,
        i == list.len() || list[i].market == market,
    ensures
        loan_index(list, market) == i,
    decreases i,
{
    if i > 0 {
        let rest = list.drop_first();
        assert(list[0].market != market);
        assert forall|j: int| 0 <= j < i - 1 implies (#[trigger] rest[j]).market != market by {
            assert(rest[j] == list[j + 1]);
        }
        if i < list.len() {
            assert(rest[i - 1] == list[i]);
        }
        lemma_loan_index_is(rest, market, i - 1);
    }
}

/// The first advance from a bloc comes no later than any advance from it.
proof fn lemma_loan_index_at_most(list: Seq<Loan>, market: Market, k: int)
    requires
        0 <= k < list.len(),
        list[k].market == market,
    ensures
        loan_index(list, market) <= k,
    decreases k,
{
    if k > 0 && list[0].market != market {
        assert(list.drop_first()[k - 1] == list[k]);
        lemma_loan_index_at_most(list.drop_first(), market, k - 1);
    }
}

proof fn lemma_loan_index_bounds(list: Seq<Loan>, market: Market)
    ensures
        0 <= loan_index(list, market) <= list.len(),
        loan_index(list, market) < list.len() ==> list[loan_index(list, market)].market == market,
        forall|j: int| 0 <= j < loan_index(list, market) ==> (#[trigger] list[j]).market != market,
    decreases list.len(),
{
    if list.len() > 0 && list[0].market != market {
        let rest = list.drop_first();
        lemma_loan_index_bounds(rest, market);
        assert forall|j: int| 0 <= j < loan_index(list, market) implies (#[trigger] list[j]).market != market by {
            if j > 0 {
                assert(list[j] == rest[j - 1]);
            }
        }
    }
}

/// Two ledgers that hold the same blocs in the same places find the same one.
proof fn lemma_loan_index_same(a: Seq<Loan>, b: Seq<Loan>, market: Market)
    requires
        a.len() == b.len(),
        forall|j: int| 0 <= j < a.len() ==> (#[trigger] a[j]).market == b[j].market,
    ensures
        loan_index(a, market) == loan_index(b, market),
{
    lemma_loan_index_bounds(a, market);
    assert forall|j: int| 0 <= j < loan_index(a, market) implies (#[trigger] b[j]).market != market by {
        assert(a[j].market == b[j].market);
    }
    if loan_index(a, market) < a.len() {
        assert(b[loan_index(a, market)].market == a[loan_index(a, market)].market);
    }
    lemma_loan_index_is(b, market, loan_index(a, market));
}

/// Once the one advance from a bloc is gone, nothing is owed to it.
proof fn lemma_not_owed_after_remove(list: Seq<Loan>, market: Market, i: int)
    requires
        0 <= i < list.len(),
        list[i].market == market,
        forall|a: int, b: int| 0 <= a < b < list.len() ==> (#[trigger] list[a]).market != (#[trigger] list[b]).market,
    ensures
        loan_index(list.remove(i), market) == list.remove(i).len(),
{
    let after = list.remove(i);
    assert forall|j: int| 0 <= j < after.len() implies (#[trigger] after[j]).market != market by {
        if j < i {
            assert(after[j] == list[j]);
        } else {
            assert(after[j] == list[j + 1]);
        }
    }
    lemma_loan_index_is(after, market, after.len() as int);
}

proof fn lemma_wf_remove(list: Seq<Loan>, i: int)
    requires
        0 <= i < list.len(),
        forall|a: int, b: int| 0 <= a < b < list.len() ==> (#[trigger] list[a]).market != (#[trigger] list[b]).market,
    ensures
        forall|a: int, b: int|
            0 <= a < b < list.remove(i).len() ==> (#[trigger] list.remove(i)[a]).market != (
            #[trigger] list.remove(i)[b]).market,
{
    let after = list.remove(i);
    assert forall|a: int, b: int| 0 <= a < b < after.len() implies (#[trigger] after[a]).market != (
    #[trigger] after[b]).market by {
        let oa = if a < i { a } else { a + 1 };
        let ob = if b < i { b } else { b + 1 };
        assert(after[a] == list[oa]);
        assert(after[b] == list[ob]);
    }
}

proof fn lemma_wf_update(list: Seq<Loan>, i: int, loan: Loan)
    requires
        0 <= i < list.len(),
        loan.market == list[i].market,
        forall|a: int, b: int| 0 <= a < b < list.len() ==> (#[trigger] list[a]).market != (#[trigger] list[b]).market,
    ensures
        forall|a: int, b: int|
            0 <= a < b < list.update(i, loan).len() ==> (#[trigger] list.update(i, loan)[a]).market != (
            #[trigger] list.update(i, loan)[b]).market,
{
    let after = list.update(i, loan);
    assert forall|a: int, b: int| 0 <= a < b < after.len() implies (#[trigger] after[a]).market != (
    #[trigger] after[b]).market by {
        assert(after[a].market == list[a].market);
        assert(after[b].market == list[b].market);
    }
}

proof fn lemma_overdue_is_filter(list: Seq<Loan>, today: u64)
    ensures
        overdue_of(list, today) == list.filter(|l: Loan| today >= l.due_day),
    decreases list.len(),
{
    reveal(Seq::filter);
    if list.len() > 0 {
        lemma_overdue_is_filter(list.drop_last(), today);
    }
}

/// A bloc is owed exactly when some carried advance is from it, and the
/// advance the ledger names for a bloc is one of the carried ones, from that
/// bloc.
pub proof fn owing_a_bloc_is_carrying_its_advance(loans: Loans, market: Market)
    ensures
        loans.owes(market) <==> exists|k: int| 0 <= k < loans.live_spec().len() && (#[trigger] loans.live_spec()[k]).market == market,
        loans.owes(market) ==> loans.loan_of(market).market == market && loans.live_spec().contains(loans.loan_of(market)),
{
    lemma_loan_index_bounds(loans.live_spec(), market);
    if exists|k: int| 0 <= k < loans.live_spec().len() && (#[trigger] loans.live_spec()[k]).market == market {
        let k = choose|k: int| 0 <= k < loans.live_spec().len() && (#[trigger] loans.live_spec()[k]).market == market;
        lemma_loan_index_at_most(loans.live_spec(), market, k);
    }
    if loans.owes(market) {
        let i = loan_index(loans.live_spec(), market);
        assert(loans.live_spec()[i] == loans.loan_of(market));
    }
}

/// The overdue list holds a carried loan exactly when that loan's own due day
/// has come, and holds nothing that is not carried and due.
pub proof fn overdue_lists_exactly_the_loans_fallen_due(live: Seq<Loan>, today: u64)
    ensures
        forall|k: int|
            0 <= k < live.len() ==> (overdue_of(live, today).contains(#[trigger] live[k]) <==> today >= live[k].due_day),
        forall|j: int|
            0 <= j < overdue_of(live, today).len() ==> live.contains(#[trigger] overdue_of(live, today)[j]) && today
                >= overdue_of(live, today)[j].due_day,
    decreases live.len(),
{
    if live.len() > 0 {
        let front = live.drop_last();
        let last = live.last();
        overdue_lists_exactly_the_loans_fallen_due(front, today);
        let o = overdue_of(live, today);
        let of = overdue_of(front, today);
        assert forall|j: int| 0 <= j < o.len() implies live.contains(#[trigger] o[j]) && today >= o[j].due_day by {
            if j < of.len() {
                assert(o[j] == of[j]);
                assert(of[j] == of[j]);
                let m = choose|m: int| 0 <= m < front.len() && front[m] == of[j];
                assert(live[m] == front[m]);
            } else {
                assert(o[j] == last);
                assert(live[live.len() - 1] == last);
            }
        }
        assert forall|k: int| 0 <= k < live.len() implies (o.contains(#[trigger] live[k]) <==> today >= live[k].due_day) by {
            if o.contains(live[k]) {
                let j = choose|j: int| 0 <= j < o.len() && o[j] == live[k];
                assert(today >= o[j].due_day);
            }
            if today >= live[k].due_day {
                if k < front.len() {
                    assert(front[k] == live[k]);
                    assert(of.contains(front[k]));
                    let j = choose|j: int| 0 <= j < of.len() && of[j] == front[k];
                    assert(o[j] == of[j]);
                } else {
                    assert(live[k] == last);
                    assert(o[o.len() - 1] == last);
                }
            }
        }
    }
}

} // verus!
