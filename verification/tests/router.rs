use test_router::config::{FeeDestination, Handle, MAX_DESTINATIONS};
use test_router::errors::ErrorCode;
use test_router::route::{compute_route, Transfer};
use test_router::store::RouterStore;
use test_router::validate::validate_destinations;

fn h(n: u64) -> Handle {
    Handle { w0: n, w1: 0, w2: 0, w3: 0 }
}

fn d(addr: u64, percentage: u16) -> FeeDestination {
    FeeDestination { address: h(addr), percentage }
}

fn t(from: u64, to: u64, amount: u64) -> Transfer {
    Transfer { from: h(from), to: h(to), amount }
}

#[test]
fn accepts_table_summing_to_ten_thousand() {
    assert_eq!(validate_destinations(&vec![d(1, 5000), d(2, 5000)]), Ok(()));
    assert_eq!(validate_destinations(&vec![d(1, 10000)]), Ok(()));
    assert_eq!(
        validate_destinations(&vec![d(1, 3333), d(2, 3333), d(3, 3334)]),
        Ok(())
    );
}

#[test]
fn rejects_total_just_below() {
    assert_eq!(
        validate_destinations(&vec![d(1, 4999), d(2, 5000)]),
        Err(ErrorCode::BadTotal)
    );
}

#[test]
fn rejects_total_just_above() {
    assert_eq!(
        validate_destinations(&vec![d(1, 5001), d(2, 5000)]),
        Err(ErrorCode::BadTotal)
    );
}

#[test]
fn rejects_empty_table() {
    assert_eq!(validate_destinations(&Vec::new()), Err(ErrorCode::Empty));
}

#[test]
fn accepts_zero_percentage_and_duplicate_entries() {
    assert_eq!(validate_destinations(&vec![d(1, 0), d(2, 10000)]), Ok(()));
    assert_eq!(validate_destinations(&vec![d(1, 5000), d(1, 5000)]), Ok(()));
}

#[test]
fn routes_even_split_exactly() {
    let mut store = RouterStore::new();
    store
        .initialize_router(h(9), vec![d(1, 5000), d(2, 5000)])
        .unwrap();
    let plan = store
        .route_sol_fees(h(9), 10000, h(7), &vec![h(1), h(2)])
        .unwrap();
    assert_eq!(plan, vec![t(7, 1, 5000), t(7, 2, 5000)]);
}

#[test]
fn routes_with_floor_rounding_residual() {
    let mut store = RouterStore::new();
    store
        .initialize_router(h(9), vec![d(1, 3333), d(2, 3333), d(3, 3334)])
        .unwrap();
    let plan = store
        .route_sol_fees(h(9), 100, h(7), &vec![h(1), h(2), h(3)])
        .unwrap();
    assert_eq!(plan, vec![t(7, 1, 33), t(7, 2, 33), t(7, 3, 33)]);
    let moved: u64 = plan.iter().map(|x| x.amount).sum();
    assert_eq!(moved, 99);
    assert!(moved <= 100);
    assert!(100 - moved <= (plan.len() as u64 - 1));
}

#[test]
fn mismatch_is_positional_even_when_address_exists_elsewhere() {
    let mut store = RouterStore::new();
    store
        .initialize_router(h(9), vec![d(1, 5000), d(2, 5000)])
        .unwrap();
    let r = store.route_sol_fees(h(9), 10000, h(7), &vec![h(2), h(1)]);
    assert_eq!(r, Err(ErrorCode::DestinationMismatch));
}

#[test]
fn fails_when_fewer_handles_than_destinations() {
    let mut store = RouterStore::new();
    store
        .initialize_router(h(9), vec![d(1, 5000), d(2, 5000)])
        .unwrap();
    let r = store.route_sol_fees(h(9), 10000, h(7), &vec![h(1)]);
    assert_eq!(r, Err(ErrorCode::InsufficientDestinationAccounts));
}

#[test]
fn extra_handles_beyond_table_are_ignored() {
    let mut store = RouterStore::new();
    store.initialize_router(h(9), vec![d(1, 10000)]).unwrap();
    let plan = store
        .route_sol_fees(h(9), 50, h(7), &vec![h(1), h(5), h(6)])
        .unwrap();
    assert_eq!(plan, vec![t(7, 1, 50)]);
}

#[test]
fn zero_share_destination_is_skipped_not_an_error() {
    let mut store = RouterStore::new();
    store
        .initialize_router(h(9), vec![d(1, 0), d(2, 10000)])
        .unwrap();
    let plan = store
        .route_sol_fees(h(9), 10000, h(7), &vec![h(1), h(2)])
        .unwrap();
    assert_eq!(plan, vec![t(7, 2, 10000)]);
}

#[test]
fn small_amount_rounds_shares_down_to_zero() {
    let mut store = RouterStore::new();
    store
        .initialize_router(h(9), vec![d(1, 3333), d(2, 6667)])
        .unwrap();
    let plan = store
        .route_sol_fees(h(9), 3, h(7), &vec![h(1), h(2)])
        .unwrap();
    assert_eq!(plan, vec![t(7, 2, 2)]);
}

#[test]
fn duplicate_destination_is_paid_per_entry() {
    let mut store = RouterStore::new();
    store
        .initialize_router(h(9), vec![d(1, 5000), d(1, 5000)])
        .unwrap();
    let plan = store
        .route_sol_fees(h(9), 10000, h(7), &vec![h(1), h(1)])
        .unwrap();
    assert_eq!(plan, vec![t(7, 1, 5000), t(7, 1, 5000)]);
}

#[test]
fn route_for_unknown_owner_is_not_found() {
    let store = RouterStore::new();
    let r = store.route_sol_fees(h(9), 10000, h(7), &vec![h(1)]);
    assert_eq!(r, Err(ErrorCode::NotFound));
}

#[test]
fn replace_by_non_owner_is_unauthorized_and_keeps_table() {
    let mut store = RouterStore::new();
    store
        .initialize_router(h(9), vec![d(1, 5000), d(2, 5000)])
        .unwrap();
    let r = store.update_destinations(h(9), h(8), vec![d(3, 10000)]);
    assert_eq!(r, Err(ErrorCode::Unauthorized));
    let cfg = store.read(h(9)).unwrap();
    assert_eq!(cfg.destinations, vec![d(1, 5000), d(2, 5000)]);
}

#[test]
fn replace_by_owner_overwrites_whole_table() {
    let mut store = RouterStore::new();
    store
        .initialize_router(h(9), vec![d(1, 5000), d(2, 5000)])
        .unwrap();
    store
        .update_destinations(h(9), h(9), vec![d(3, 10000)])
        .unwrap();
    let cfg = store.read(h(9)).unwrap();
    assert_eq!(cfg.destinations, vec![d(3, 10000)]);
}

#[test]
fn second_create_for_same_owner_fails_and_keeps_original() {
    let mut store = RouterStore::new();
    store.initialize_router(h(9), vec![d(1, 10000)]).unwrap();
    let r = store.initialize_router(h(9), vec![d(2, 10000)]);
    assert_eq!(r, Err(ErrorCode::AlreadyExists));
    let cfg = store.read(h(9)).unwrap();
    assert_eq!(cfg.destinations, vec![d(1, 10000)]);
}

#[test]
fn read_after_failed_replace_returns_prior_table() {
    let mut store = RouterStore::new();
    store
        .initialize_router(h(9), vec![d(1, 5000), d(2, 5000)])
        .unwrap();
    let r = store.update_destinations(h(9), h(9), vec![d(3, 9999)]);
    assert_eq!(r, Err(ErrorCode::BadTotal));
    let r = store.update_destinations(h(9), h(9), Vec::new());
    assert_eq!(r, Err(ErrorCode::Empty));
    let cfg = store.read(h(9)).unwrap();
    assert_eq!(cfg.destinations, vec![d(1, 5000), d(2, 5000)]);
}

#[test]
fn replace_for_unknown_owner_is_not_found() {
    let mut store = RouterStore::new();
    let r = store.update_destinations(h(9), h(9), vec![d(1, 10000)]);
    assert_eq!(r, Err(ErrorCode::NotFound));
}

#[test]
fn create_rejects_table_beyond_capacity() {
    let mut store = RouterStore::new();
    let mut big = Vec::new();
    for i in 0..(MAX_DESTINATIONS as u64) {
        big.push(d(i + 1, 909));
    }
    big.push(d(99, 910));
    assert_eq!(big.iter().map(|x| x.percentage as u32).sum::<u32>(), 10000);
    let r = store.initialize_router(h(9), big);
    assert_eq!(r, Err(ErrorCode::CapacityExceeded));
    assert!(matches!(store.read(h(9)), Err(ErrorCode::NotFound)));
}

#[test]
fn create_accepts_table_at_capacity() {
    let mut store = RouterStore::new();
    let mut big = Vec::new();
    for i in 0..(MAX_DESTINATIONS as u64) {
        big.push(d(i + 1, 1000));
    }
    assert_eq!(store.initialize_router(h(9), big), Ok(()));
}

#[test]
fn close_by_owner_removes_router() {
    let mut store = RouterStore::new();
    store.initialize_router(h(9), vec![d(1, 10000)]).unwrap();
    assert_eq!(store.close_router(h(9), h(9)), Ok(()));
    assert!(matches!(store.read(h(9)), Err(ErrorCode::NotFound)));
}

#[test]
fn close_by_non_owner_is_unauthorized() {
    let mut store = RouterStore::new();
    store.initialize_router(h(9), vec![d(1, 10000)]).unwrap();
    assert_eq!(store.close_router(h(9), h(8)), Err(ErrorCode::Unauthorized));
    assert!(store.read(h(9)).is_ok());
}

#[test]
fn close_for_unknown_owner_is_not_found() {
    let mut store = RouterStore::new();
    assert_eq!(store.close_router(h(9), h(9)), Err(ErrorCode::NotFound));
}

#[test]
fn stores_are_independent_per_owner() {
    let mut store = RouterStore::new();
    store.initialize_router(h(1), vec![d(10, 10000)]).unwrap();
    store.initialize_router(h(2), vec![d(20, 10000)]).unwrap();
    store.update_destinations(h(1), h(1), vec![d(11, 10000)]).unwrap();
    assert_eq!(store.read(h(1)).unwrap().destinations, vec![d(11, 10000)]);
    assert_eq!(store.read(h(2)).unwrap().destinations, vec![d(20, 10000)]);
    store.close_router(h(2), h(2)).unwrap();
    assert_eq!(store.read(h(1)).unwrap().destinations, vec![d(11, 10000)]);
    assert!(matches!(store.read(h(2)), Err(ErrorCode::NotFound)));
}

#[test]
fn distributor_matches_against_supplied_handles() {
    let mut store = RouterStore::new();
    store
        .initialize_router(h(9), vec![d(1, 2500), d(2, 7500)])
        .unwrap();
    let cfg = store.read(h(9)).unwrap();
    let plan = compute_route(cfg, 1000, h(7), &vec![h(1), h(2)]).unwrap();
    assert_eq!(plan, vec![t(7, 1, 250), t(7, 2, 750)]);
    assert_eq!(
        compute_route(cfg, 1000, h(7), &vec![h(1), h(3)]),
        Err(ErrorCode::DestinationMismatch)
    );
}

#[test]
fn large_amounts_do_not_overflow() {
    let mut store = RouterStore::new();
    store
        .initialize_router(h(9), vec![d(1, 9999), d(2, 1)])
        .unwrap();
    let amount = u64::MAX;
    let plan = store
        .route_sol_fees(h(9), amount, h(7), &vec![h(1), h(2)])
        .unwrap();
    let expected1 = ((amount as u128) * 9999 / 10000) as u64;
    let expected2 = ((amount as u128) * 1 / 10000) as u64;
    assert_eq!(plan, vec![t(7, 1, expected1), t(7, 2, expected2)]);
    assert!(expected1.checked_add(expected2).unwrap() <= amount);
}
