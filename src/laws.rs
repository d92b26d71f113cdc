use vstd::prelude::*;
use crate::identity::Identity;
use crate::ride::{
    Ride, RideError, RideStatus, is_fresh_ride, is_party, with_status, accept_step, complete_step, cancel_step,
    close_step, accept_outcome, complete_outcome, cancel_outcome, close_outcome,
};

verus! {

/// A ride that is created and then closed by its rider, with nothing in
/// between, is handed back whole (its bond goes to its rider), the records
/// are as before the creation, and every later operation on its key fails
/// with `NotFound`.
pub proof fn lemma_create_then_close(
    records: Map<Seq<u8>, Ride>,
    key: Seq<u8>,
    ride: Ride,
    rider: Identity,
    unique_id: u64,
    fare: u64,
    distance: u64,
    bump: u8,
    caller: Identity,
)
    requires
        !records.contains_key(key),
        is_fresh_ride(ride, rider, unique_id, fare, distance, bump),
    ensures
        close_outcome(records.insert(key, ride), key, rider) == (records, Ok::<Ride, RideError>(ride)),
        accept_outcome(records, key, caller).1 == Err::<Ride, RideError>(RideError::NotFound),
        complete_outcome(records, key, caller).1 == Err::<Ride, RideError>(RideError::NotFound),
        cancel_outcome(records, key, caller).1 == Err::<Ride, RideError>(RideError::NotFound),
        close_outcome(records, key, caller).1 == Err::<Ride, RideError>(RideError::NotFound),
{
    assert(records.insert(key, ride).remove(key) =~= records);
}

/// From `Requested`, completing fails with `InvalidRideState` whoever
/// calls, while accepting by anyone but the rider, cancelling by the rider
/// and closing by the rider succeed; a cancelled request still has no
/// driver and keeps its other fields.
pub proof fn lemma_requested_transitions(ride: Ride, caller: Identity)
    requires
        ride.status == RideStatus::Requested,
    ensures
        complete_step(ride, caller) == Err::<Ride, RideError>(RideError::InvalidRideState),
        caller@ != ride.rider@ ==> accept_step(ride, caller) is Ok,
        cancel_step(ride, ride.rider) == Ok::<Ride, RideError>(
            with_status(ride, RideStatus::Cancelled),
        ),
        close_step(ride, ride.rider) == Ok::<Ride, RideError>(ride),
{
}

/// From `Accepted`, a party may complete the ride and a party may cancel
/// it, but whichever commits first makes the other fail with its status
/// error, whoever calls.
pub proof fn lemma_accepted_complete_or_cancel(
    records: Map<Seq<u8>, Ride>,
    key: Seq<u8>,
    completer: Identity,
    canceller: Identity,
    other: Identity,
)
    requires
        records.contains_key(key),
        records[key].status == RideStatus::Accepted,
        is_party(records[key], completer),
        is_party(records[key], canceller),
    ensures
        complete_outcome(records, key, completer).1 is Ok,
        cancel_outcome(records, key, canceller).1 is Ok,
        cancel_outcome(complete_outcome(records, key, completer).0, key, other).1 == Err::<
            Ride,
            RideError,
        >(RideError::RideAlreadyCompleted),
        complete_outcome(cancel_outcome(records, key, canceller).0, key, other).1 == Err::<
            Ride,
            RideError,
        >(RideError::InvalidRideState),
{
}

/// From `Completed`, cancelling fails with `RideAlreadyCompleted` whoever
/// calls, and the rider can still close the record.
pub proof fn lemma_completed_is_final(ride: Ride, caller: Identity)
    requires
        ride.status == RideStatus::Completed,
    ensures
        cancel_step(ride, caller) == Err::<Ride, RideError>(RideError::RideAlreadyCompleted),
        close_step(ride, ride.rider) == Ok::<Ride, RideError>(ride),
{
}

/// A rider can never accept their own ride: a requested one refuses them
/// with `Unauthorized`, any other fails on its status.
pub proof fn lemma_rider_cannot_accept(ride: Ride, caller: Identity)
    requires
        caller@ == ride.rider@,
    ensures
        accept_step(ride, caller) is Err,
        ride.status == RideStatus::Requested ==> accept_step(ride, caller) == Err::<Ride, RideError>(
            RideError::Unauthorized,
        ),
{
}

/// Once an accept has committed, a second accept of the same record fails
/// with `InvalidRideState`, whoever calls, and the record keeps its first
/// driver.
pub proof fn lemma_accept_twice_fails(
    records: Map<Seq<u8>, Ride>,
    key: Seq<u8>,
    first: Identity,
    second: Identity,
)
    requires
        accept_outcome(records, key, first).1 is Ok,
    ensures
        accept_outcome(accept_outcome(records, key, first).0, key, second) == (
            accept_outcome(records, key, first).0,
            Err::<Ride, RideError>(RideError::InvalidRideState),
        ),
        accept_outcome(records, key, first).0[key].driver == first,
{
}

} // verus!
