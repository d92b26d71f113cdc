use anchor_lang::prelude::Pubkey;
use ride_sharing::{
    accept_ride, cancel_ride, close_ride, complete_ride, create_ride, create_ride_at, derive_key,
    verify_key, AcceptRide, CancelRide, CloseRide, CompleteRide, CreateRide, Identity, Ride,
    RideError, RideLedger, RideStatus,
};

fn id(b: u8) -> Identity {
    Identity::new([b; 32])
}

fn program() -> Identity {
    id(7)
}

fn rider() -> Identity {
    id(1)
}

fn driver() -> Identity {
    id(2)
}

fn key_of(rider: &Identity, unique_id: u64) -> Identity {
    derive_key(&program(), rider, unique_id).expect("derivable").0
}

fn open(ledger: &mut RideLedger, unique_id: u64, fare: u64, distance: u64) -> (Identity, Ride) {
    let ride = create_ride(ledger, &CreateRide { rider: rider() }, unique_id, fare, distance)
        .expect("created");
    (key_of(&rider(), unique_id), ride)
}

fn accept(ledger: &mut RideLedger, key: Identity, who: Identity) -> Result<Ride, RideError> {
    accept_ride(ledger, &AcceptRide { ride: key, driver: who })
}

fn complete(ledger: &mut RideLedger, key: Identity, who: Identity) -> Result<Ride, RideError> {
    complete_ride(ledger, &CompleteRide { ride: key, user: who })
}

fn cancel(ledger: &mut RideLedger, key: Identity, who: Identity, by_rider: bool) -> Result<Ride, RideError> {
    cancel_ride(ledger, &CancelRide { ride: key, user: who }, by_rider)
}

fn close(ledger: &mut RideLedger, key: Identity, who: Identity) -> Result<Ride, RideError> {
    close_ride(ledger, &CloseRide { ride: key, rider: who })
}

#[test]
fn derive_key_is_deterministic() {
    let a = derive_key(&program(), &rider(), 42);
    let b = derive_key(&program(), &rider(), 42);
    assert!(a.is_some());
    assert_eq!(a, b);
}

#[test]
fn derive_key_matches_program_address_search() {
    let unique_id: u64 = 9;
    let program_key = Pubkey::new_from_array(program().bytes);
    let rider_bytes = rider().bytes;
    let id_bytes = unique_id.to_le_bytes();
    let seeds: [&[u8]; 3] = [b"ride", &rider_bytes, &id_bytes];
    let (expected, bump) = Pubkey::find_program_address(&seeds, &program_key);
    let (key, got_bump) = derive_key(&program(), &rider(), unique_id).unwrap();
    assert_eq!(key.bytes, expected.to_bytes());
    assert_eq!(got_bump, bump);
    assert_ne!(key, program());
    assert_ne!(key, rider());
}

#[test]
fn derive_key_separates_rides() {
    assert_ne!(key_of(&rider(), 1), key_of(&rider(), 2));
    assert_ne!(key_of(&rider(), 1), key_of(&driver(), 1));
}

#[test]
fn verify_key_accepts_only_the_derived_key() {
    let (key, bump) = derive_key(&program(), &rider(), 5).unwrap();
    assert!(verify_key(&program(), &rider(), 5, bump, &key));
    assert!(!verify_key(&program(), &rider(), 6, bump, &key));
    assert!(!verify_key(&program(), &driver(), 5, bump, &key));
    assert!(!verify_key(&program(), &rider(), 5, bump, &rider()));
}

#[test]
fn scenario_complete_then_close() {
    let mut ledger = RideLedger::new(program());
    let (key, ride) = open(&mut ledger, 1, 500, 3000);
    assert_eq!(ride.status, RideStatus::Requested);
    assert_eq!(ride.driver, Identity::zero());
    assert_eq!(ride.rider, rider());
    assert_eq!(ride.unique_id, 1);
    assert_eq!(ride.fare, 500);
    assert_eq!(ride.distance, 3000);
    assert_eq!(ledger.get(&key), Some(ride));

    let accepted = accept(&mut ledger, key, driver()).unwrap();
    assert_eq!(accepted.status, RideStatus::Accepted);
    assert_eq!(accepted.driver, driver());
    assert_eq!(accepted.fare, 500);

    let completed = complete(&mut ledger, key, driver()).unwrap();
    assert_eq!(completed.status, RideStatus::Completed);

    assert_eq!(cancel(&mut ledger, key, rider(), true), Err(RideError::RideAlreadyCompleted));
    assert_eq!(ledger.get(&key), Some(completed));

    let closed = close(&mut ledger, key, rider()).unwrap();
    assert_eq!(closed, completed);
    assert_eq!(closed.rider, rider());
    assert_eq!(ledger.get(&key), None);
    assert_eq!(ledger.len(), 0);
}

#[test]
fn scenario_cancel_then_close() {
    let mut ledger = RideLedger::new(program());
    let (key, ride) = open(&mut ledger, 2, 100, 500);
    assert_eq!(ride.status, RideStatus::Requested);

    let cancelled = cancel(&mut ledger, key, rider(), false).unwrap();
    assert_eq!(cancelled.status, RideStatus::Cancelled);

    assert_eq!(accept(&mut ledger, key, driver()), Err(RideError::InvalidRideState));
    assert_eq!(ledger.get(&key), Some(cancelled));

    assert_eq!(close(&mut ledger, key, rider()), Ok(cancelled));
    assert_eq!(ledger.get(&key), None);
}

#[test]
fn create_then_close_leaves_nothing() {
    let mut ledger = RideLedger::new(program());
    let (key, ride) = open(&mut ledger, 3, 10, 20);
    assert_eq!(close(&mut ledger, key, rider()), Ok(ride));
    assert_eq!(ledger.len(), 0);
    assert_eq!(accept(&mut ledger, key, driver()), Err(RideError::NotFound));
    assert_eq!(complete(&mut ledger, key, rider()), Err(RideError::NotFound));
    assert_eq!(cancel(&mut ledger, key, rider(), true), Err(RideError::NotFound));
    assert_eq!(close(&mut ledger, key, rider()), Err(RideError::NotFound));
}

#[test]
fn requested_ride_cannot_be_completed() {
    let mut ledger = RideLedger::new(program());
    let (key, ride) = open(&mut ledger, 4, 10, 20);
    assert_eq!(complete(&mut ledger, key, rider()), Err(RideError::InvalidRideState));
    assert_eq!(ledger.get(&key), Some(ride));
    assert!(accept(&mut ledger, key, driver()).is_ok());
}

#[test]
fn requested_ride_can_be_cancelled_or_closed() {
    let mut ledger = RideLedger::new(program());
    let (key, _) = open(&mut ledger, 5, 10, 20);
    assert!(cancel(&mut ledger, key, rider(), true).is_ok());
    let (other, _) = open(&mut ledger, 6, 10, 20);
    assert!(close(&mut ledger, other, rider()).is_ok());
    assert_eq!(ledger.len(), 1);
}

#[test]
fn accepted_ride_completes_or_cancels_but_not_both() {
    let mut first = RideLedger::new(program());
    let (key, _) = open(&mut first, 7, 10, 20);
    accept(&mut first, key, driver()).unwrap();

    let mut second = RideLedger::new(program());
    open(&mut second, 7, 10, 20);
    accept(&mut second, key, driver()).unwrap();

    assert!(complete(&mut first, key, rider()).is_ok());
    assert_eq!(cancel(&mut first, key, driver(), false), Err(RideError::RideAlreadyCompleted));

    assert!(cancel(&mut second, key, driver(), false).is_ok());
    assert_eq!(complete(&mut second, key, rider()), Err(RideError::InvalidRideState));
}

#[test]
fn completed_ride_can_still_be_closed() {
    let mut ledger = RideLedger::new(program());
    let (key, _) = open(&mut ledger, 8, 10, 20);
    accept(&mut ledger, key, driver()).unwrap();
    complete(&mut ledger, key, driver()).unwrap();
    assert_eq!(cancel(&mut ledger, key, driver(), false), Err(RideError::RideAlreadyCompleted));
    assert_eq!(cancel(&mut ledger, key, id(9), false), Err(RideError::RideAlreadyCompleted));
    assert_eq!(cancel(&mut ledger, key, rider(), true), Err(RideError::RideAlreadyCompleted));
    assert!(close(&mut ledger, key, rider()).is_ok());
}

#[test]
fn rider_cannot_accept_own_ride() {
    let mut ledger = RideLedger::new(program());
    let (key, ride) = open(&mut ledger, 10, 10, 20);
    assert_eq!(accept(&mut ledger, key, rider()), Err(RideError::Unauthorized));
    assert_eq!(ledger.get(&key), Some(ride));
}

#[test]
fn second_accept_fails() {
    let mut ledger = RideLedger::new(program());
    let (key, _) = open(&mut ledger, 11, 10, 20);
    let accepted = accept(&mut ledger, key, driver()).unwrap();
    assert_eq!(accept(&mut ledger, key, id(3)), Err(RideError::InvalidRideState));
    assert_eq!(accept(&mut ledger, key, driver()), Err(RideError::InvalidRideState));
    assert_eq!(ledger.get(&key), Some(accepted));
}

#[test]
fn create_twice_fails_with_already_exists() {
    let mut ledger = RideLedger::new(program());
    let (key, ride) = open(&mut ledger, 12, 10, 20);
    let again = create_ride(&mut ledger, &CreateRide { rider: rider() }, 12, 99, 99);
    assert_eq!(again, Err(RideError::AlreadyExists));
    assert_eq!(ledger.get(&key), Some(ride));
    assert_eq!(ledger.len(), 1);
}

#[test]
fn create_at_derived_key_stores_the_ride() {
    let mut ledger = RideLedger::new(program());
    let (key, bump) = derive_key(&program(), &rider(), 13).unwrap();
    let ride = create_ride_at(&mut ledger, &CreateRide { rider: rider() }, &key, bump, 13, 4, 5).unwrap();
    assert_eq!(ride.bump, bump);
    assert_eq!(ledger.get(&key), Some(ride));
    let again = create_ride_at(&mut ledger, &CreateRide { rider: rider() }, &key, bump, 13, 4, 5);
    assert_eq!(again, Err(RideError::AlreadyExists));
}

#[test]
fn strangers_are_unauthorized() {
    let mut ledger = RideLedger::new(program());
    let (key, ride) = open(&mut ledger, 14, 10, 20);
    let stranger = id(9);
    assert_eq!(complete(&mut ledger, key, stranger), Err(RideError::InvalidRideState));
    assert_eq!(cancel(&mut ledger, key, stranger, false), Err(RideError::Unauthorized));
    assert_eq!(close(&mut ledger, key, stranger), Err(RideError::Unauthorized));
    // Before acceptance the zero identity is no driver.
    assert_eq!(cancel(&mut ledger, key, Identity::zero(), false), Err(RideError::Unauthorized));
    assert_eq!(ledger.get(&key), Some(ride));
    accept(&mut ledger, key, driver()).unwrap();
    assert_eq!(complete(&mut ledger, key, stranger), Err(RideError::Unauthorized));
    assert_eq!(close(&mut ledger, key, driver()), Err(RideError::Unauthorized));
    assert!(complete(&mut ledger, key, driver()).is_ok());
}

#[test]
fn status_errors_come_before_caller_checks() {
    let mut ledger = RideLedger::new(program());
    let (key, _) = open(&mut ledger, 17, 10, 20);
    let accepted = accept(&mut ledger, key, driver()).unwrap();
    assert_eq!(accept(&mut ledger, key, rider()), Err(RideError::InvalidRideState));
    assert_eq!(ledger.get(&key), Some(accepted));
    let cancelled = cancel(&mut ledger, key, driver(), false).unwrap();
    assert_eq!(complete(&mut ledger, key, driver()), Err(RideError::InvalidRideState));
    assert_eq!(complete(&mut ledger, key, id(9)), Err(RideError::InvalidRideState));
    assert_eq!(ledger.get(&key), Some(cancelled));
}

#[test]
fn create_at_rejects_a_key_that_does_not_rederive() {
    let mut ledger = RideLedger::new(program());
    let (key, bump) = derive_key(&program(), &rider(), 18).unwrap();
    let ctx = CreateRide { rider: rider() };
    assert_eq!(create_ride_at(&mut ledger, &ctx, &key, bump, 19, 4, 5), Err(RideError::KeyMismatch));
    assert_eq!(create_ride_at(&mut ledger, &ctx, &rider(), bump, 18, 4, 5), Err(RideError::KeyMismatch));
    assert_eq!(ledger.len(), 0);
    assert!(create_ride_at(&mut ledger, &ctx, &key, bump, 18, 4, 5).is_ok());
}

#[test]
fn create_at_refuses_a_non_canonical_bump() {
    let unique_id: u64 = 20;
    let (key, bump) = derive_key(&program(), &rider(), unique_id).unwrap();
    let program_key = Pubkey::new_from_array(program().bytes);
    let rider_bytes = rider().bytes;
    let id_bytes = unique_id.to_le_bytes();
    let mut other: Option<(Identity, u8)> = None;
    let mut b = bump;
    while b > 0 && other.is_none() {
        b -= 1;
        let bump_seed = [b];
        let seeds: [&[u8]; 4] = [b"ride", &rider_bytes, &id_bytes, &bump_seed];
        if let Ok(k) = Pubkey::create_program_address(&seeds, &program_key) {
            other = Some((Identity::new(k.to_bytes()), b));
        }
    }
    let (other_key, other_bump) = other.expect("a second valid bump seed");
    assert_ne!(other_key, key);
    assert!(verify_key(&program(), &rider(), unique_id, other_bump, &other_key));

    let mut ledger = RideLedger::new(program());
    let ctx = CreateRide { rider: rider() };
    assert!(create_ride(&mut ledger, &ctx, unique_id, 1, 2).is_ok());
    let again = create_ride_at(&mut ledger, &ctx, &other_key, other_bump, unique_id, 1, 2);
    assert_eq!(again, Err(RideError::KeyMismatch));
    assert_eq!(ledger.len(), 1);
    assert_eq!(ledger.get(&other_key), None);

    let mut fresh = RideLedger::new(program());
    let first = create_ride_at(&mut fresh, &ctx, &other_key, other_bump, unique_id, 1, 2);
    assert_eq!(first, Err(RideError::KeyMismatch));
    assert_eq!(create_ride_at(&mut fresh, &ctx, &key, other_bump, unique_id, 1, 2), Err(RideError::KeyMismatch));
    assert_eq!(fresh.len(), 0);
}

#[test]
fn unknown_key_is_not_found() {
    let mut ledger = RideLedger::new(program());
    open(&mut ledger, 15, 10, 20);
    let missing = key_of(&rider(), 16);
    assert_eq!(ledger.get(&missing), None);
    assert_eq!(accept(&mut ledger, missing, driver()), Err(RideError::NotFound));
    assert_eq!(ledger.len(), 1);
}

#[test]
fn largest_values_are_stored_unchanged() {
    let mut ledger = RideLedger::new(program());
    let (key, ride) = open(&mut ledger, u64::MAX, u64::MAX, u64::MAX);
    assert_eq!(ride.unique_id, u64::MAX);
    assert_eq!(ride.fare, u64::MAX);
    assert_eq!(ride.distance, u64::MAX);
    assert_eq!(ledger.get(&key), Some(ride));
    assert_eq!(ledger.program_id(), program());
}
