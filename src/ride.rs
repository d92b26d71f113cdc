use vstd::prelude::*;
use crate::identity::{Identity, zero_identity};


verus! {

/// Where a ride stands in its lifecycle.
#[derive(Clone, Copy, Debug, PartialEq, Eq, Structural)]
pub enum RideStatus {
    Requested,
    Accepted,
    Completed,
    Cancelled,
}

/// Why an operation on a ride was refused. A refused operation changes
/// nothing.
#[derive(Clone, Copy, Debug, PartialEq, Eq, Structural)]
pub enum RideError {
    /// The ride is already completed and cannot be modified.
    RideAlreadyCompleted,
    /// The ride is not in the expected state for this operation.
    InvalidRideState,
    /// A ride record already exists at the derived key.
    AlreadyExists,
    /// No ride record exists at the given key.
    NotFound,
    /// The caller may not perform this operation on this ride.
    Unauthorized,
    /// No valid key could be derived for the ride.
    KeyDerivationFailed,
    /// The key given for a ride is not the one derived from it.
    KeyMismatch,
}

/// One ride record.
#[derive(Clone, Copy, Debug, PartialEq, Eq)]
pub struct Ride {
    pub rider: Identity,
    /// The accepting driver; the zero identity until the ride is accepted.
    pub driver: Identity,
    pub unique_id: u64,
    pub fare: u64,
    /// Distance in meters.
    pub distance: u64,
    pub status: RideStatus,
    /// Bump seed of the record's derived key.
    pub bump: u8,
}

/// The signer who creates a ride, and becomes its rider.
pub struct CreateRide {
    pub rider: Identity,
}

/// A driver accepting the ride stored at key `ride`.
pub struct AcceptRide {
    pub ride: Identity,
    pub driver: Identity,
}

/// A party to the ride at key `ride` completing it.
pub struct CompleteRide {
    pub ride: Identity,
    pub user: Identity,
}

/// A party to the ride at key `ride` cancelling it.
pub struct CancelRide {
    pub ride: Identity,
    pub user: Identity,
}

/// The rider closing the ride at key `ride` and taking back its bond.
pub struct CloseRide {
    pub ride: Identity,
    pub rider: Identity,
}

/// Whether a ride in this status has a bound driver.
pub open spec fn driver_bound(status: RideStatus) -> bool {
    status == RideStatus::Accepted || status == RideStatus::Completed
}

/// Whether `caller` is the ride's rider or its bound driver.
pub open spec fn is_party(ride: Ride, caller: Identity) -> bool {
    caller@ == ride.rider@ || (driver_bound(ride.status) && caller@ == ride.driver@)
}

/// `ride` is the record that a new request by `rider` creates.
pub open spec fn is_fresh_ride(ride: Ride, rider: Identity, unique_id: u64, fare: u64, distance: u64, bump: u8) -> bool {
    &&& ride.rider == rider
    &&& ride.driver@ == zero_identity()
    &&& ride.unique_id == unique_id
    &&& ride.fare == fare
    &&& ride.distance == distance
    &&& ride.status == RideStatus::Requested
    &&& ride.bump == bump
}

pub open spec fn with_status(ride: Ride, status: RideStatus) -> Ride {
    Ride { status, ..ride }
}

/// `caller` accepts `ride`: while it is requested, anyone but the rider.
pub open spec fn accept_step(ride: Ride, caller: Identity) -> Result<Ride, RideError> {
    if ride.status != RideStatus::Requested {
        Err(RideError::InvalidRideState)
    } else if caller@ == ride.rider@ {
        Err(RideError::Unauthorized)
    } else {
        Ok(Ride { driver: caller, status: RideStatus::Accepted, ..ride })
    }
}

/// `caller` completes `ride`: while it is accepted, a party to it.
pub open spec fn complete_step(ride: Ride, caller: Identity) -> Result<Ride, RideError> {
    if ride.status != RideStatus::Accepted {
        Err(RideError::InvalidRideState)
    } else if !is_party(ride, caller) {
        Err(RideError::Unauthorized)
    } else {
        Ok(with_status(ride, RideStatus::Completed))
    }
}

/// `caller` cancels `ride`: unless it is completed, a party to it.
pub open spec fn cancel_step(ride: Ride, caller: Identity) -> Result<Ride, RideError> {
    if ride.status == RideStatus::Completed {
        Err(RideError::RideAlreadyCompleted)
    } else if !is_party(ride, caller) {
        Err(RideError::Unauthorized)
    } else {
        Ok(with_status(ride, RideStatus::Cancelled))
    }
}

/// `caller` closes `ride`: its rider, in any status.
pub open spec fn close_step(ride: Ride, caller: Identity) -> Result<Ride, RideError> {
    if caller@ != ride.rider@ {
        Err(RideError::Unauthorized)
    } else {
        Ok(ride)
    }
}

/// The records after, and the result of, a step on the record at `key`.
pub open spec fn apply_step(records: Map<Seq<u8>, Ride>, key: Seq<u8>, step: Result<Ride, RideError>) -> (
    Map<Seq<u8>, Ride>,
    Result<Ride, RideError>,
) {
    match step {
        Ok(ride) => (records.insert(key, ride), Ok(ride)),
        Err(e) => (records, Err(e)),
    }
}

pub open spec fn accept_outcome(records: Map<Seq<u8>, Ride>, key: Seq<u8>, caller: Identity) -> (
    Map<Seq<u8>, Ride>,
    Result<Ride, RideError>,
) {
    if !records.contains_key(key) {
        (records, Err(RideError::NotFound))
    } else {
        apply_step(records, key, accept_step(records[key], caller))
    }
}

pub open spec fn complete_outcome(records: Map<Seq<u8>, Ride>, key: Seq<u8>, caller: Identity) -> (
    Map<Seq<u8>, Ride>,
    Result<Ride, RideError>,
) {
    if !records.contains_key(key) {
        (records, Err(RideError::NotFound))
    } else {
        apply_step(records, key, complete_step(records[key], caller))
    }
}

pub open spec fn cancel_outcome(records: Map<Seq<u8>, Ride>, key: Seq<u8>, caller: Identity) -> (
    Map<Seq<u8>, Ride>,
    Result<Ride, RideError>,
) {
    if !records.contains_key(key) {
        (records, Err(RideError::NotFound))
    } else {
        apply_step(records, key, cancel_step(records[key], caller))
    }
}

/// Closing removes the record; the closed record names the rider whose
/// bond is refunded.
pub open spec fn close_outcome(records: Map<Seq<u8>, Ride>, key: Seq<u8>, caller: Identity) -> (
    Map<Seq<u8>, Ride>,
    Result<Ride, RideError>,
) {
    if !records.contains_key(key) {
        (records, Err(RideError::NotFound))
    } else {
        match close_step(records[key], caller) {
            Ok(ride) => (records.remove(key), Ok(ride)),
            Err(e) => (records, Err(e)),
        }
    }
}

} // verus!
