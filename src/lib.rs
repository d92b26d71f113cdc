//! A ride-hailing lifecycle: rides live at addresses derived from their
//! rider and a rider-chosen id, and move through an authorization-gated
//! state machine until their rider closes them.

mod identity;
mod address;
mod ride;
mod ledger;
mod laws;

pub use identity::{Identity, zero_identity};
pub use address::{
    derive_key, verify_key, ride_tag, ride_seeds, derived_key, recreated_key, found_view, key_view,
    program_address_search, program_address_create, lemma_derive_key_deterministic,
};
pub use ride::{
    Ride, RideStatus, RideError, CreateRide, AcceptRide, CompleteRide, CancelRide, CloseRide,
    driver_bound, is_party, is_fresh_ride, with_status, accept_step, complete_step, cancel_step,
    close_step, apply_step, accept_outcome, complete_outcome, cancel_outcome, close_outcome,
};
pub use ledger::{
    RideLedger, record_ok, create_ride, create_ride_at, accept_ride, complete_ride, cancel_ride, close_ride,
};
pub use laws::{
    lemma_create_then_close, lemma_requested_transitions, lemma_accepted_complete_or_cancel,
    lemma_completed_is_final, lemma_rider_cannot_accept, lemma_accept_twice_fails,
};
