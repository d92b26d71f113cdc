use vstd::prelude::*;
use crate::identity::{Identity, zero_identity};
use crate::address::{derived_key, recreated_key, derive_key, verify_key};
use crate::ride::{
    Ride, RideError, RideStatus, CreateRide, AcceptRide, CompleteRide, CancelRide, CloseRide,
    is_fresh_ride, is_party, accept_outcome, complete_outcome, cancel_outcome, close_outcome,
};

verus! {

/// A ride record stored at its key.
struct Entry {
    key: Identity,
    ride: Ride,
}

/// The rides of one program, each stored at the key derived from its rider
/// and ride id.
pub struct RideLedger {
    program_id: Identity,
    entries: Vec<Entry>,
}

spec fn has_key(s: Seq<Entry>, k: Seq<u8>) -> bool {
    exists|i: int| 0 <= i < s.len() && (#[trigger] s[i]).key@ == k
}

spec fn view_of(s: Seq<Entry>) -> Map<Seq<u8>, Ride> {
    Map::new(
        |k: Seq<u8>| has_key(s, k),
        |k: Seq<u8>| s[choose|i: int| 0 <= i < s.len() && (#[trigger] s[i]).key@ == k].ride,
    )
}

spec fn unique_keys(s: Seq<Entry>) -> bool {
    forall|i: int, j: int|
        0 <= i < s.len() && 0 <= j < s.len() && i != j ==> (#[trigger] s[i]).key@ != (#[trigger] s[j]).key@
}

/// A record stored at `key` sits at the key and bump seed derived from its
/// rider and ride id, which re-derive `key`; a requested ride has no driver
/// yet.
pub open spec fn record_ok(program_id: Seq<u8>, key: Seq<u8>, ride: Ride) -> bool {
    &&& derived_key(program_id, ride.rider@, ride.unique_id) == Some((key, ride.bump))
    &&& recreated_key(program_id, ride.rider@, ride.unique_id, ride.bump) == Some(key)
    &&& ride.status == RideStatus::Requested ==> ride.driver@ == zero_identity()
}

spec fn entry_ok(program_id: Seq<u8>, e: Entry) -> bool {
    record_ok(program_id, e.key@, e.ride)
}

proof fn lemma_view_at(s: Seq<Entry>, i: int)
    requires
        unique_keys(s),
        0 <= i < s.len(),
    ensures
        view_of(s).contains_key(s[i].key@),
        view_of(s)[s[i].key@] == s[i].ride,
{
    let k = s[i].key@;
    assert(has_key(s, k));
    let j = choose|j: int| 0 <= j < s.len() && (#[trigger] s[j]).key@ == k;
    assert(j == i);
}

proof fn lemma_view_update(s: Seq<Entry>, i: int, e: Entry)
    requires
        unique_keys(s),
        0 <= i < s.len(),
        s[i].key@ == e.key@,
    ensures
        unique_keys(s.update(i, e)),
        view_of(s.update(i, e)) == view_of(s).insert(e.key@, e.ride),
{
    let t = s.update(i, e);
    assert(unique_keys(t)) by {
        assert forall|a: int, b: int|
            0 <= a < t.len() && 0 <= b < t.len() && a != b implies (#[trigger] t[a]).key@ != (#[trigger] t[b]).key@ by {
            assert(t[a].key@ == s[a].key@);
            assert(t[b].key@ == s[b].key@);
        }
    }
    let m = view_of(s).insert(e.key@, e.ride);
    assert forall|k: Seq<u8>| #[trigger] view_of(t).contains_key(k) == m.contains_key(k) by {
        if has_key(t, k) {
            let j = choose|j: int| 0 <= j < t.len() && (#[trigger] t[j]).key@ == k;
            if j != i {
                lemma_view_at(s, j);
            }
        }
        if k != e.key@ && has_key(s, k) {
            let j = choose|j: int| 0 <= j < s.len() && (#[trigger] s[j]).key@ == k;
            assert(t[j].key@ == k);
        }
        if k == e.key@ {
            assert(t[i].key@ == k);
        }
    }
    assert forall|k: Seq<u8>| #[trigger] view_of(t).contains_key(k) implies view_of(t)[k] == m[k] by {
        let j = choose|j: int| 0 <= j < t.len() && (#[trigger] t[j]).key@ == k;
        lemma_view_at(t, j);
        if j != i {
            lemma_view_at(s, j);
        }
    }
    assert(view_of(t) =~= m);
}

proof fn lemma_view_push(s: Seq<Entry>, e: Entry)
    requires
        unique_keys(s),
        !view_of(s).contains_key(e.key@),
    ensures
        unique_keys(s.push(e)),
        view_of(s.push(e)) == view_of(s).insert(e.key@, e.ride),
{
    let t = s.push(e);
    let n = s.len() as int;
    assert(unique_keys(t)) by {
        assert forall|a: int, b: int|
            0 <= a < t.len() && 0 <= b < t.len() && a != b implies (#[trigger] t[a]).key@ != (#[trigger] t[b]).key@ by {
            if a < n && b < n {
                assert(t[a] == s[a] && t[b] == s[b]);
            } else if a < n {
                assert(t[a] == s[a]);
                if s[a].key@ == e.key@ {
                    assert(has_key(s, e.key@));
                }
            } else if b < n {
                assert(t[b] == s[b]);
                if s[b].key@ == e.key@ {
                    assert(has_key(s, e.key@));
                }
            }
        }
    }
    let m = view_of(s).insert(e.key@, e.ride);
    assert forall|k: Seq<u8>| #[trigger] view_of(t).contains_key(k) == m.contains_key(k) by {
        if has_key(t, k) {
            let j = choose|j: int| 0 <= j < t.len() && (#[trigger] t[j]).key@ == k;
            if j != n {
                assert(t[j] == s[j]);
                lemma_view_at(s, j);
            }
        }
        if has_key(s, k) {
            let j = choose|j: int| 0 <= j < s.len() && (#[trigger] s[j]).key@ == k;
            assert(t[j] == s[j]);
        }
        if k == e.key@ {
            assert(t[n].key@ == k);
        }
    }
    assert forall|k: Seq<u8>| #[trigger] view_of(t).contains_key(k) implies view_of(t)[k] == m[k] by {
        let j = choose|j: int| 0 <= j < t.len() && (#[trigger] t[j]).key@ == k;
        lemma_view_at(t, j);
        if j != n {
            assert(t[j] == s[j]);
            lemma_view_at(s, j);
        }
    }
    assert(view_of(t) =~= m);
}

proof fn lemma_view_remove(s: Seq<Entry>, i: int)
    requires
        unique_keys(s),
        0 <= i < s.len(),
    ensures
        unique_keys(s.remove(i)),
        view_of(s.remove(i)) == view_of(s).remove(s[i].key@),
{
    let t = s.remove(i);
    let key = s[i].key@;
    assert forall|a: int| 0 <= a < t.len() implies #[trigger] t[a] == s[if a < i { a } else { a + 1 }] by {}
    assert(unique_keys(t)) by {
        assert forall|a: int, b: int|
            0 <= a < t.len() && 0 <= b < t.len() && a != b implies (#[trigger] t[a]).key@ != (#[trigger] t[b]).key@ by {
            let sa = if a < i { a } else { a + 1 };
            let sb = if b < i { b } else { b + 1 };
            assert(t[a] == s[sa] && t[b] == s[sb]);
        }
    }
    let m = view_of(s).remove(key);
    assert forall|k: Seq<u8>| #[trigger] view_of(t).contains_key(k) == m.contains_key(k) by {
        if has_key(t, k) {
            let j = choose|j: int| 0 <= j < t.len() && (#[trigger] t[j]).key@ == k;
            let sj = if j < i { j } else { j + 1 };
            assert(t[j] == s[sj]);
            lemma_view_at(s, sj);
        }
        if k != key && has_key(s, k) {
            let j = choose|j: int| 0 <= j < s.len() && (#[trigger] s[j]).key@ == k;
            let tj = if j < i { j } else { j - 1 };
            assert(t[tj] == s[j]);
        }
    }
    assert forall|k: Seq<u8>| #[trigger] view_of(t).contains_key(k) implies view_of(t)[k] == m[k] by {
        let j = choose|j: int| 0 <= j < t.len() && (#[trigger] t[j]).key@ == k;
        let sj = if j < i { j } else { j + 1 };
        assert(t[j] == s[sj]);
        lemma_view_at(t, j);
        lemma_view_at(s, sj);
    }
    assert(view_of(t) =~= m);
}


impl View for RideLedger {
    type V = Map<Seq<u8>, Ride>;

    /// The stored records by key.
    closed spec fn view(&self) -> Map<Seq<u8>, Ride> {
        view_of(self.entries@)
    }
}

impl RideLedger {
    /// The program under whose id record keys are derived.
    pub closed spec fn program(&self) -> Seq<u8> {
        self.program_id@
    }

    /// Keys are unique, and each record sits at the key derived from it.
    pub closed spec fn wf(&self) -> bool {
        &&& unique_keys(self.entries@)
        &&& forall|i: int| 0 <= i < self.entries@.len() ==> entry_ok(self.program_id@, #[trigger] self.entries@[i])
    }

    /// Every stored record sits at the key that its rider, ride id and bump
    /// seed re-derive, and a requested one has no driver.
    pub open spec fn records_ok(&self) -> bool {
        forall|k: Seq<u8>| #[trigger] self@.contains_key(k) ==> record_ok(self.program(), k, self@[k])
    }

    /// A well-formed ledger keeps every record at its re-derived key, so a
    /// key that does not re-derive from a record finds nothing.
    pub proof fn lemma_records_ok(&self)
        requires
            self.wf(),
        ensures
            self.records_ok(),
    {
        assert forall|k: Seq<u8>| #[trigger] self@.contains_key(k) implies record_ok(self.program(), k, self@[k]) by {
            let s = self.entries@;
            let j = choose|j: int| 0 <= j < s.len() && (#[trigger] s[j]).key@ == k;
            lemma_view_at(s, j);
            assert(entry_ok(self.program_id@, s[j]));
        }
    }

    /// A ledger holds at most one record per rider and ride id.
    pub proof fn lemma_one_record_per_ride(&self, k1: Seq<u8>, k2: Seq<u8>)
        requires
            self.wf(),
            self@.contains_key(k1),
            self@.contains_key(k2),
            self@[k1].rider@ == self@[k2].rider@,
            self@[k1].unique_id == self@[k2].unique_id,
        ensures
            k1 == k2,
    {
        self.lemma_records_ok();
    }

    /// An empty ledger for the program `program_id`.
    pub fn new(program_id: Identity) -> (r: RideLedger)
        ensures
            r.wf(),
            r.program() == program_id@,
            r@ == Map::<Seq<u8>, Ride>::empty(),
    {
        let r = RideLedger { program_id, entries: Vec::new() };
        assert(r@ =~= Map::<Seq<u8>, Ride>::empty());
        r
    }

    pub fn program_id(&self) -> (r: Identity)
        ensures
            r@ == self.program(),
    {
        self.program_id
    }

    /// The index of the entry stored under `key`; found only where the
    /// entry's own rider, ride id and bump seed re-derive that key.
    fn locate(&self, key: &Identity) -> (r: Option<usize>)
        requires
            self.wf(),
        ensures
            match r {
                Some(i) => i < self.entries@.len() && self.entries@[i as int].key@ == key@,
                None => !self@.contains_key(key@),
            },
    {
        let mut i: usize = 0;
        while i < self.entries.len()
            invariant
                self.wf(),
                0 <= i <= self.entries@.len(),
                forall|j: int| 0 <= j < i ==> (#[trigger] self.entries@[j]).key@ != key@,
            decreases self.entries@.len() - i,
        {
            let e = &self.entries[i];
            if e.key.same_as(key) {
                assert(entry_ok(self.program_id@, self.entries@[i as int]));
                if verify_key(&self.program_id, &e.ride.rider, e.ride.unique_id, e.ride.bump, key) {
                    return Some(i);
                }
                return None;
            }
            i = i + 1;
        }
        None
    }

    /// The record stored under `key`, if any.
    pub fn get(&self, key: &Identity) -> (r: Option<Ride>)
        requires
            self.wf(),
        ensures
            r == (if self@.contains_key(key@) { Some(self@[key@]) } else { None::<Ride> }),
    {
        match self.locate(key) {
            Some(i) => {
                proof {
                    lemma_view_at(self.entries@, i as int);
                }
                Some(self.entries[i].ride)
            },
            None => None,
        }
    }

    /// The number of stored records.
    pub fn len(&self) -> (r: usize)
        requires
            self.wf(),
        ensures
            r == self@.len(),
    {
        proof {
            self.lemma_len();
        }
        self.entries.len()
    }

    proof fn lemma_len(&self)
        requires
            self.wf(),
        ensures
            self@.len() == self.entries@.len(),
    {
        let s = self.entries@;
        let keys = Set::new(|k: Seq<u8>| has_key(s, k));
        assert(self@.dom() =~= keys);
        lemma_keys_len(s);
    }

    /// Stores `ride` in place of the entry at index `i`.
    fn replace(&mut self, i: usize, ride: Ride)
        requires
            old(self).wf(),
            i < old(self).entries@.len(),
            entry_ok(old(self).program_id@, Entry { key: old(self).entries@[i as int].key, ride }),
        ensures
            final(self).wf(),
            final(self).program() == old(self).program(),
            final(self)@ == old(self)@.insert(old(self).entries@[i as int].key@, ride),
    {
        let key = self.entries[i].key;
        let e = Entry { key, ride };
        proof {
            lemma_view_update(self.entries@, i as int, e);
        }
        self.entries.set(i, e);
        assert forall|j: int| 0 <= j < self.entries@.len() implies entry_ok(self.program_id@, #[trigger] self.entries@[j]) by {
            if j != i {
                assert(entry_ok(old(self).program_id@, old(self).entries@[j]));
            }
        }
    }
}

/// Opens a ride request of `ctx.rider` at `key` with bump seed `bump`:
/// fails with `KeyMismatch` where `key` and `bump` are not the key and bump
/// seed derived from the rider and `unique_id`, with `AlreadyExists` where a record is stored there,
/// and otherwise stores a requested ride with no driver and returns it.
pub fn create_ride_at(
    ledger: &mut RideLedger,
    ctx: &CreateRide,
    key: &Identity,
    bump: u8,
    unique_id: u64,
    fare: u64,
    distance: u64,
) -> (r: Result<Ride, RideError>)
    requires
        old(ledger).wf(),
    ensures
        final(ledger).wf(),
        final(ledger).program() == old(ledger).program(),
        derived_key(old(ledger).program(), ctx.rider@, unique_id) != Some((key@, bump)) ==> r == Err::<
            Ride,
            RideError,
        >(RideError::KeyMismatch) && final(ledger)@ == old(ledger)@,
        derived_key(old(ledger).program(), ctx.rider@, unique_id) == Some((key@, bump)) ==> {
            &&& old(ledger)@.contains_key(key@) ==> r == Err::<Ride, RideError>(RideError::AlreadyExists)
                && final(ledger)@ == old(ledger)@
            &&& !old(ledger)@.contains_key(key@) ==> (r matches Ok(ride) && is_fresh_ride(
                ride,
                ctx.rider,
                unique_id,
                fare,
                distance,
                bump,
            ) && final(ledger)@ == old(ledger)@.insert(key@, ride))
        },
{
    match derive_key(&ledger.program_id, &ctx.rider, unique_id) {
        Some((derived, derived_bump)) => {
            if !derived.same_as(key) || derived_bump != bump {
                return Err(RideError::KeyMismatch);
            }
        },
        None => return Err(RideError::KeyMismatch),
    }
    if ledger.locate(key).is_some() {
        return Err(RideError::AlreadyExists);
    }
    let ride = Ride {
        rider: ctx.rider,
        driver: Identity::zero(),
        unique_id,
        fare,
        distance,
        status: RideStatus::Requested,
        bump,
    };
    let e = Entry { key: *key, ride };
    proof {
        lemma_view_push(ledger.entries@, e);
    }
    ledger.entries.push(e);
    assert forall|j: int| 0 <= j < ledger.entries@.len() implies entry_ok(ledger.program_id@, #[trigger] ledger.entries@[j]) by {
        if j < old(ledger).entries@.len() {
            assert(entry_ok(old(ledger).program_id@, old(ledger).entries@[j]));
        }
    }
    Ok(ride)
}

/// Opens a ride request of `ctx.rider` with id `unique_id` at the key
/// derived from them: fails with `KeyDerivationFailed` where no key can be
/// derived, with `AlreadyExists` where a record is stored at that key, and
/// otherwise stores a requested ride with no driver there and returns it.
pub fn create_ride(ledger: &mut RideLedger, ctx: &CreateRide, unique_id: u64, fare: u64, distance: u64) -> (r:
    Result<Ride, RideError>)
    requires
        old(ledger).wf(),
    ensures
        final(ledger).wf(),
        final(ledger).program() == old(ledger).program(),
        match derived_key(old(ledger).program(), ctx.rider@, unique_id) {
            None => r == Err::<Ride, RideError>(RideError::KeyDerivationFailed) && final(ledger)@
                == old(ledger)@,
            Some((key, bump)) => if old(ledger)@.contains_key(key) {
                r == Err::<Ride, RideError>(RideError::AlreadyExists) && final(ledger)@
                    == old(ledger)@
            } else {
                r matches Ok(ride) && is_fresh_ride(ride, ctx.rider, unique_id, fare, distance, bump)
                    && final(ledger)@ == old(ledger)@.insert(key, ride)
            },
        },
{
    match derive_key(&ledger.program_id, &ctx.rider, unique_id) {
        None => Err(RideError::KeyDerivationFailed),
        Some((key, bump)) => create_ride_at(ledger, ctx, &key, bump, unique_id, fare, distance),
    }
}

/// `ctx.driver` accepts the ride stored at `ctx.ride`.
pub fn accept_ride(ledger: &mut RideLedger, ctx: &AcceptRide) -> (r: Result<Ride, RideError>)
    requires
        old(ledger).wf(),
    ensures
        final(ledger).wf(),
        final(ledger).program() == old(ledger).program(),
        (final(ledger)@, r) == accept_outcome(old(ledger)@, ctx.ride@, ctx.driver),
{
    let i = match ledger.locate(&ctx.ride) {
        Some(i) => i,
        None => return Err(RideError::NotFound),
    };
    let ride = ledger.entries[i].ride;
    proof {
        lemma_view_at(ledger.entries@, i as int);
        assert(entry_ok(ledger.program_id@, ledger.entries@[i as int]));
    }
    if ride.status != RideStatus::Requested {
        return Err(RideError::InvalidRideState);
    }
    if ctx.driver.same_as(&ride.rider) {
        return Err(RideError::Unauthorized);
    }
    let updated = Ride { driver: ctx.driver, status: RideStatus::Accepted, ..ride };
    ledger.replace(i, updated);
    Ok(updated)
}

/// Whether `caller` is the rider of `ride` or its bound driver.
fn party_to(ride: &Ride, caller: &Identity) -> (r: bool)
    ensures
        r == is_party(*ride, *caller),
{
    if caller.same_as(&ride.rider) {
        return true;
    }
    match ride.status {
        RideStatus::Accepted | RideStatus::Completed => caller.same_as(&ride.driver),
        _ => false,
    }
}

/// `ctx.user` completes the ride stored at `ctx.ride`.
pub fn complete_ride(ledger: &mut RideLedger, ctx: &CompleteRide) -> (r: Result<Ride, RideError>)
    requires
        old(ledger).wf(),
    ensures
        final(ledger).wf(),
        final(ledger).program() == old(ledger).program(),
        (final(ledger)@, r) == complete_outcome(old(ledger)@, ctx.ride@, ctx.user),
{
    let i = match ledger.locate(&ctx.ride) {
        Some(i) => i,
        None => return Err(RideError::NotFound),
    };
    let ride = ledger.entries[i].ride;
    proof {
        lemma_view_at(ledger.entries@, i as int);
        assert(entry_ok(ledger.program_id@, ledger.entries@[i as int]));
    }
    if ride.status != RideStatus::Accepted {
        return Err(RideError::InvalidRideState);
    }
    if !party_to(&ride, &ctx.user) {
        return Err(RideError::Unauthorized);
    }
    let updated = Ride { status: RideStatus::Completed, ..ride };
    ledger.replace(i, updated);
    Ok(updated)
}

/// `ctx.user` cancels the ride stored at `ctx.ride`; `by_rider` says which
/// side asked, and is not checked against the caller.
pub fn cancel_ride(ledger: &mut RideLedger, ctx: &CancelRide, by_rider: bool) -> (r: Result<Ride, RideError>)
    requires
        old(ledger).wf(),
    ensures
        final(ledger).wf(),
        final(ledger).program() == old(ledger).program(),
        (final(ledger)@, r) == cancel_outcome(old(ledger)@, ctx.ride@, ctx.user),
{
    let i = match ledger.locate(&ctx.ride) {
        Some(i) => i,
        None => return Err(RideError::NotFound),
    };
    let ride = ledger.entries[i].ride;
    proof {
        lemma_view_at(ledger.entries@, i as int);
        assert(entry_ok(ledger.program_id@, ledger.entries@[i as int]));
    }
    if ride.status == RideStatus::Completed {
        return Err(RideError::RideAlreadyCompleted);
    }
    if !party_to(&ride, &ctx.user) {
        return Err(RideError::Unauthorized);
    }
    let updated = Ride { status: RideStatus::Cancelled, ..ride };
    ledger.replace(i, updated);
    Ok(updated)
}

/// The rider `ctx.rider` closes the ride stored at `ctx.ride`, in whatever
/// status: the record is removed, and returned so that its bond goes back
/// to its rider.
pub fn close_ride(ledger: &mut RideLedger, ctx: &CloseRide) -> (r: Result<Ride, RideError>)
    requires
        old(ledger).wf(),
    ensures
        final(ledger).wf(),
        final(ledger).program() == old(ledger).program(),
        (final(ledger)@, r) == close_outcome(old(ledger)@, ctx.ride@, ctx.rider),
{
    let i = match ledger.locate(&ctx.ride) {
        Some(i) => i,
        None => return Err(RideError::NotFound),
    };
    let ride = ledger.entries[i].ride;
    proof {
        lemma_view_at(ledger.entries@, i as int);
    }
    if !ctx.rider.same_as(&ride.rider) {
        return Err(RideError::Unauthorized);
    }
    proof {
        lemma_view_remove(ledger.entries@, i as int);
    }
    let removed = ledger.entries.remove(i);
    assert forall|j: int| 0 <= j < ledger.entries@.len() implies entry_ok(ledger.program_id@, #[trigger] ledger.entries@[j]) by {
        let oj = if j < i { j } else { j + 1 };
        assert(ledger.entries@[j] == old(ledger).entries@[oj]);
        assert(entry_ok(old(ledger).program_id@, old(ledger).entries@[oj]));
    }
    Ok(removed.ride)
}

proof fn lemma_keys_len(s: Seq<Entry>)
    requires
        unique_keys(s),
    ensures
        Set::new(|k: Seq<u8>| has_key(s, k)).finite(),
        Set::new(|k: Seq<u8>| has_key(s, k)).len() == s.len(),
    decreases s.len(),
{
    let keys = Set::new(|k: Seq<u8>| has_key(s, k));
    if s.len() == 0 {
        assert(keys =~= Set::empty());
    } else {
        let p = s.drop_last();
        let last = s.last();
        assert(unique_keys(p)) by {
            assert forall|a: int, b: int|
                0 <= a < p.len() && 0 <= b < p.len() && a != b implies (#[trigger] p[a]).key@ != (#[trigger] p[b]).key@ by {
                assert(p[a] == s[a] && p[b] == s[b]);
            }
        }
        lemma_keys_len(p);
        let pk = Set::new(|k: Seq<u8>| has_key(p, k));
        assert(!pk.contains(last.key@)) by {
            if has_key(p, last.key@) {
                let j = choose|j: int| 0 <= j < p.len() && (#[trigger] p[j]).key@ == last.key@;
                assert(p[j] == s[j]);
                assert(s[s.len() - 1].key@ == last.key@);
            }
        }
        assert forall|k: Seq<u8>| #[trigger] keys.contains(k) == pk.insert(last.key@).contains(k) by {
            if has_key(s, k) {
                let j = choose|j: int| 0 <= j < s.len() && (#[trigger] s[j]).key@ == k;
                if j < p.len() {
                    assert(p[j] == s[j]);
                }
            }
            if has_key(p, k) {
                let j = choose|j: int| 0 <= j < p.len() && (#[trigger] p[j]).key@ == k;
                assert(p[j] == s[j]);
            }
            if k == last.key@ {
                assert(s[s.len() - 1].key@ == k);
            }
        }
        assert(keys =~= pk.insert(last.key@));
    }
}

} // verus!
