use vstd::prelude::*;
use vstd::bytes::{spec_u64_to_le_bytes, u64_to_le_bytes};
use anchor_lang::prelude::Pubkey;
use crate::identity::Identity;

verus! {

/// The address (and bump seed) that the ledger's program-address search
/// finds for a list of seeds under a program id, if it finds one.
pub uninterp spec fn program_address_search(seeds: Seq<Seq<u8>>, program_id: Seq<u8>) -> Option<
    (Seq<u8>, u8),
>;

/// The program address that a list of seeds (bump seed included) yields
/// under a program id, if those seeds are valid.
pub uninterp spec fn program_address_create(seeds: Seq<Seq<u8>>, program_id: Seq<u8>) -> Option<
    Seq<u8>,
>;

/// Namespace tag under which every ride record is addressed: `b"ride"`.
pub open spec fn ride_tag() -> Seq<u8> {
    seq![114u8, 105u8, 100u8, 101u8]
}

/// The seeds of the record of `rider`'s ride `unique_id`.
pub open spec fn ride_seeds(rider: Seq<u8>, unique_id: u64) -> Seq<Seq<u8>> {
    seq![ride_tag(), rider, spec_u64_to_le_bytes(unique_id)]
}

/// The key and bump seed of the record of `rider`'s ride `unique_id`.
pub open spec fn derived_key(program_id: Seq<u8>, rider: Seq<u8>, unique_id: u64) -> Option<
    (Seq<u8>, u8),
> {
    program_address_search(ride_seeds(rider, unique_id), program_id)
}

/// The key that the ride seeds with the given bump seed yield, if any.
pub open spec fn recreated_key(program_id: Seq<u8>, rider: Seq<u8>, unique_id: u64, bump: u8) -> Option<
    Seq<u8>,
> {
    program_address_create(ride_seeds(rider, unique_id).push(seq![bump]), program_id)
}

pub open spec fn found_view(r: Option<(Identity, u8)>) -> Option<(Seq<u8>, u8)> {
    match r {
        Some((k, b)) => Some((k@, b)),
        None => None,
    }
}

pub open spec fn key_view(r: Option<Identity>) -> Option<Seq<u8>> {
    match r {
        Some(k) => Some(k@),
        None => None,
    }
}

/// Relies on `Pubkey::try_find_program_address`: the result depends on the
/// seeds and the program id alone; when it finds an address, that address
/// is what `Pubkey::create_program_address` gives for the seeds followed by
/// the returned bump seed.
#[verifier::external_body]
fn find_address(seeds: &Vec<Vec<u8>>, program_id: &Identity) -> (r: Option<(Identity, u8)>)
    ensures
        found_view(r) == program_address_search(seeds.deep_view(), program_id@),
        r matches Some((k, b)) ==> program_address_create(
            seeds.deep_view().push(seq![b]),
            program_id@,
        ) == Some(k@),
{
    let slices: Vec<&[u8]> = seeds.iter().map(|s| s.as_slice()).collect();
    let program = Pubkey::new_from_array(program_id.bytes);
    Pubkey::try_find_program_address(&slices, &program).map(
        |(k, b)| (Identity { bytes: k.to_bytes() }, b),
    )
}

/// Relies on `Pubkey::create_program_address`: the result depends on the
/// seeds and the program id alone (its error is read as "no address").
#[verifier::external_body]
fn create_address(seeds: &Vec<Vec<u8>>, program_id: &Identity) -> (r: Option<Identity>)
    ensures
        key_view(r) == program_address_create(seeds.deep_view(), program_id@),
{
    let slices: Vec<&[u8]> = seeds.iter().map(|s| s.as_slice()).collect();
    let program = Pubkey::new_from_array(program_id.bytes);
    Pubkey::create_program_address(&slices, &program).ok().map(
        |k| Identity { bytes: k.to_bytes() },
    )
}

/// Builds the seeds of the record of `rider`'s ride `unique_id`.
fn build_ride_seeds(rider: &Identity, unique_id: u64) -> (r: Vec<Vec<u8>>)
    ensures
        r.deep_view() == ride_seeds(rider@, unique_id),
        r@.len() == 3,
{
    let tag: Vec<u8> = vec![114u8, 105u8, 100u8, 101u8];
    let mut r: Vec<Vec<u8>> = Vec::new();
    r.push(tag);
    r.push(rider.to_vec());
    r.push(u64_to_le_bytes(unique_id));
    assert(r.deep_view()[0] =~= ride_tag());
    assert(r.deep_view()[1] =~= rider@);
    assert(r.deep_view()[2] =~= spec_u64_to_le_bytes(unique_id));
    assert(r.deep_view() =~= ride_seeds(rider@, unique_id));
    r
}

/// Derives the key and bump seed of the record of `rider`'s ride
/// `unique_id` under `program_id`. `None` when no bump seed gives a valid
/// address. A derived key is the one that `verify_key` accepts with that
/// bump seed.
pub fn derive_key(program_id: &Identity, rider: &Identity, unique_id: u64) -> (r: Option<
    (Identity, u8),
>)
    ensures
        found_view(r) == derived_key(program_id@, rider@, unique_id),
        r matches Some((k, b)) ==> recreated_key(program_id@, rider@, unique_id, b) == Some(k@),
{
    let seeds = build_ride_seeds(rider, unique_id);
    find_address(&seeds, program_id)
}

/// Whether `key` is the address that the ride seeds of `rider` and
/// `unique_id`, with bump seed `bump`, give under `program_id`.
pub fn verify_key(program_id: &Identity, rider: &Identity, unique_id: u64, bump: u8, key: &Identity) -> (r:
    bool)
    ensures
        r == (recreated_key(program_id@, rider@, unique_id, bump) == Some(key@)),
{
    let mut seeds = build_ride_seeds(rider, unique_id);
    let bump_seed: Vec<u8> = vec![bump];
    assert(bump_seed@ =~= seq![bump]);
    seeds.push(bump_seed);
    assert(seeds@.len() == 4);
    assert(seeds.deep_view()[3] =~= seq![bump]);
    assert(seeds.deep_view() =~= ride_seeds(rider@, unique_id).push(seq![bump]));
    match create_address(&seeds, program_id) {
        Some(k) => k.same_as(key),
        None => false,
    }
}

/// Key derivation is a function of its inputs: two derivations from the
/// same program id, rider and ride id give the same key and bump seed.
pub proof fn lemma_derive_key_deterministic(
    program_id: Identity,
    rider: Identity,
    unique_id: u64,
    first: Option<(Identity, u8)>,
    second: Option<(Identity, u8)>,
)
    requires
        found_view(first) == derived_key(program_id@, rider@, unique_id),
        found_view(second) == derived_key(program_id@, rider@, unique_id),
    ensures
        found_view(first) == found_view(second),
{
}

} // verus!
