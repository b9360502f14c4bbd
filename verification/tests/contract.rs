use red_republic_sim::contract::{Contract, ContractId, ContractState, Contracts, RELATIONS_CAP, RELATIONS_HIT};
use red_republic_sim::resource::Resource;
use red_republic_sim::trade::Market;
use red_republic_sim::units::Tonnes;

fn tender(id: u32, market: Market, deadline: u64) -> Contract {
    Contract {
        id: ContractId(id),
        resource: Resource::Coal,
        market,
        amount: Tonnes(100),
        delivered: Tonnes(0),
        price_per_tonne: 300,
        deadline_day: deadline,
        offer_expires_day: 90,
        state: ContractState::Active,
        closed_day: None,
    }
}

#[test]
fn accepting_an_offer_makes_it_live_and_only_once() {
    let mut c = Contracts::new();
    let mut offer = tender(1, Market::East, 120);
    offer.state = ContractState::Offer;
    c.insert(offer);

    assert!(c.accept(ContractId(1)));
    assert!(c.get(ContractId(1)).unwrap().is_live());
    assert!(!c.accept(ContractId(1)), "accepting twice is not a second success");
    assert!(!c.accept(ContractId(9)), "no such tender");
}

#[test]
fn declining_takes_it_off_the_table() {
    let mut c = Contracts::new();
    let mut offer = tender(1, Market::East, 120);
    offer.state = ContractState::Offer;
    c.insert(offer);
    assert_eq!(c.offers().len(), 1);
    assert!(c.decline(ContractId(1)));
    assert!(c.get(ContractId(1)).is_none());
    assert!(!c.decline(ContractId(1)));
    assert!(c.offers().is_empty());
}

#[test]
fn an_accepted_contract_cannot_be_walked_away_from() {
    let mut c = Contracts::new();
    c.insert(tender(1, Market::East, 120));
    assert!(!c.decline(ContractId(1)));
    assert!(c.get(ContractId(1)).is_some());
    assert_eq!(c.active().len(), 1);
}

#[test]
fn the_soonest_deadline_is_served_first() {
    let mut c = Contracts::new();
    c.insert(tender(1, Market::East, 200));
    c.insert(tender(2, Market::East, 100));
    c.insert(tender(3, Market::West, 50));
    assert_eq!(
        c.claimants(Resource::Coal, Market::East),
        vec![ContractId(2), ContractId(1)],
        "the nearer deadline should claim the load first"
    );
    assert!(c.claimants(Resource::Steel, Market::East).is_empty());
}

#[test]
fn tied_deadlines_are_served_in_id_order() {
    let mut c = Contracts::new();
    c.insert(tender(5, Market::East, 100));
    c.insert(tender(2, Market::East, 100));
    c.insert(tender(9, Market::East, 40));
    assert_eq!(
        c.claimants(Resource::Coal, Market::East),
        vec![ContractId(9), ContractId(2), ContractId(5)]
    );
}

#[test]
fn a_filled_contract_stops_claiming() {
    let mut c = Contracts::new();
    c.insert(tender(1, Market::East, 100));
    c.get_mut(ContractId(1)).unwrap().delivered = Tonnes(100);
    assert!(c.claimants(Resource::Coal, Market::East).is_empty());
}

#[test]
fn relations_cannot_be_driven_past_the_cap() {
    let mut c = Contracts::new();
    c.set_penalty(Market::East, 50_000);
    assert_eq!(c.penalty(Market::East), RELATIONS_CAP);
    c.set_penalty(Market::East, -10_000);
    assert_eq!(c.penalty(Market::East), 0);
    c.set_penalty(Market::West, RELATIONS_HIT as i64);
    assert_eq!(c.penalty(Market::West), RELATIONS_HIT);
    assert_eq!(c.penalty(Market::East), 0, "the other bloc does not care");
}

#[test]
fn the_fine_is_a_share_of_what_was_not_delivered() {
    let mut c = tender(1, Market::East, 100);
    c.delivered = Tonnes(40);
    assert_eq!(c.outstanding(), Tonnes(60));
    // A quarter of sixty tonnes at three roubles, in kopecks.
    assert_eq!(c.fine(), 4_500);
    c.delivered = Tonnes(100);
    assert_eq!(c.fine(), 0);
}

#[test]
fn ids_never_collide_with_one_inserted_directly() {
    let mut c = Contracts::new();
    c.insert(tender(7, Market::East, 100));
    let next = c.reserve_id();
    assert!(next.0 > 7, "the system reissued a live id");
    assert_eq!(next, ContractId(8));
}

#[test]
fn removing_a_tender_reports_whether_it_was_there() {
    let mut c = Contracts::new();
    c.insert(tender(1, Market::East, 100));
    c.insert(tender(2, Market::West, 100));
    assert!(c.remove(ContractId(1)));
    assert!(!c.remove(ContractId(1)));
    assert_eq!(c.all().len(), 1);
    assert_eq!(c.all()[0].id, ContractId(2));
}
