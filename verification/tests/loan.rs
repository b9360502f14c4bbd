use red_republic_sim::loan::{ladder, tiers_east, LoanError, Loans, RUNGS};
use red_republic_sim::scenario::GRANT_ROUBLES;
use red_republic_sim::trade::Market;

#[test]
fn every_ladder_is_the_same_shape_and_climbs() {
    for market in Market::all() {
        let rungs = ladder(market);
        assert_eq!(rungs.len(), RUNGS);
        for pair in rungs.windows(2) {
            let (lower, higher) = (pair[0], pair[1]);
            assert!(higher.principal > lower.principal);
            assert!(higher.interest > lower.interest);
            assert!(higher.term_days >= lower.term_days);
        }
    }
}

#[test]
fn the_terms_are_fixed_when_the_money_is_taken() {
    let mut loans = Loans::new();
    let got = loans.take(Market::East, 0, 100).expect("first advance");
    assert_eq!(got, tiers_east()[0].principal);
    let loan = loans.of(Market::East).expect("carrying it");
    // Eight per cent on sixty thousand roubles, in kopecks.
    assert_eq!(loan.owed, 6_480_000);
    assert_eq!(loan.due_day, 100 + tiers_east()[0].term_days);
    assert!(loan.owed > loan.principal, "an advance costs something");
    assert_eq!(loan.days_left(1_000), 900);
    assert_eq!(loan.days_left(5_000), 0);
}

#[test]
fn one_bloc_will_not_advance_twice() {
    let mut loans = Loans::new();
    loans.take(Market::East, 1, 0).expect("first");
    assert_eq!(loans.take(Market::East, 1, 0), Err(LoanError::AlreadyOwing));
    assert!(loans.take(Market::West, 1, 0).is_ok());
}

#[test]
fn there_is_no_fourth_rung() {
    let loans = Loans::new();
    assert_eq!(loans.can_take(Market::West, 3), Err(LoanError::NoSuchTier));
    assert_eq!(loans.can_take(Market::West, 2).map(|t| t.principal), Ok(2_500_000));
}

#[test]
fn repaying_it_all_clears_it_and_overpaying_costs_nothing_extra() {
    let mut loans = Loans::new();
    loans.take(Market::West, 0, 0).expect("advance");
    let owed = loans.outstanding(Market::West);
    assert_eq!(owed, 330_000);
    let paid = loans.repay(Market::West, owed * 2).expect("repayable");
    assert_eq!(paid, owed, "a repayment is capped at what is owed");
    assert!(loans.of(Market::West).is_none(), "it is cleared");
    assert_eq!(loans.cleared, 1);
    assert_eq!(loans.repay(Market::West, 100), Err(LoanError::NothingOwed));
}

#[test]
fn an_advance_comes_due_and_can_be_defaulted_on() {
    let mut loans = Loans::new();
    loans.take(Market::East, 0, 10).expect("advance");
    let due = 10 + tiers_east()[0].term_days;
    assert_eq!(loans.overdue(due - 1).len(), 0, "not yet");
    assert_eq!(loans.overdue(due).len(), 1, "the day has come");

    let lost = loans.default_on(Market::East).expect("there was one");
    assert!(lost > tiers_east()[0].principal, "the interest was owed too");
    assert_eq!(loans.defaulted, 1);
    assert!(loans.of(Market::East).is_none());

    assert!(!loans.will_lend(Market::East));
    assert_eq!(loans.take(Market::East, 0, 500), Err(LoanError::Defaulted));
    assert!(loans.will_lend(Market::West));
    assert!(loans.take(Market::West, 0, 500).is_ok());
    assert_eq!(loans.default_on(Market::East), None, "nothing left to write off");
}

#[test]
fn part_payment_reduces_what_is_owed_without_clearing_it() {
    let mut loans = Loans::new();
    loans.take(Market::East, 2, 0).expect("advance");
    let before = loans.outstanding(Market::East);
    loans.repay(Market::East, before / 3).expect("part");
    let after = loans.outstanding(Market::East);
    assert!(after < before && after > 0);
    assert_eq!(after, before - before / 3);
    assert!(loans.of(Market::East).is_some(), "still carrying it");
    assert!(!loans.of(Market::East).unwrap().is_cleared());
}

#[test]
fn every_refusal_has_words() {
    assert_eq!(LoanError::NothingOwed.message(), "nothing is owed to this bloc");
    assert!(!LoanError::CannotAfford.message().is_empty());
}

#[test]
fn an_eastern_advance_is_worth_taking_and_is_not_a_second_founding() {
    let grant = GRANT_ROUBLES;
    let east = tiers_east();
    let top = east.last().expect("the east lends").principal;
    let bottom = east.first().expect("the east lends").principal;
    assert!(
        top * 5 >= grant,
        "the largest rouble advance is {top} against a grant of {grant}, which is not a decision anybody would weigh"
    );
    assert!(top < grant, "an advance of {top} is more than the {grant} grant");
    assert!(
        bottom * 4 < top,
        "the rungs are {bottom} and {top}, close enough together that there is nothing to choose between them"
    );
}
