use vstd::prelude::*;

verus! {

/// A 32-byte account identity (a public key).
#[derive(Clone, Copy, Debug, PartialEq, Eq)]
pub struct Identity {
    pub bytes: [u8; 32],
}

impl View for Identity {
    type V = Seq<u8>;

    open spec fn view(&self) -> Seq<u8> {
        self.bytes@
    }
}

/// The all-zero identity, standing for "nobody".
pub open spec fn zero_identity() -> Seq<u8> {
    Seq::new(32, |_i: int| 0u8)
}

impl Identity {
    pub fn new(bytes: [u8; 32]) -> (r: Identity)
        ensures
            r@ == bytes@,
    {
        Identity { bytes }
    }

    pub fn zero() -> (r: Identity)
        ensures
            r@ == zero_identity(),
    {
        let r = Identity { bytes: [0u8; 32] };
        assert(r@ =~= zero_identity());
        r
    }

    /// Byte-wise equality of two identities.
    pub fn same_as(&self, other: &Identity) -> (r: bool)
        ensures
            r == (self@ == other@),
    {
        let mut i: usize = 0;
        while i < 32
            invariant
                0 <= i <= 32,
                self@.len() == 32,
                other@.len() == 32,
                forall|j: int| 0 <= j < i ==> self@[j] == other@[j],
            decreases 32 - i,
        {
            if self.bytes[i] != other.bytes[i] {
                return false;
            }
            i = i + 1;
        }
        assert(self@ =~= other@);
        true
    }

    /// The bytes as a vector.
    pub fn to_vec(&self) -> (r: Vec<u8>)
        ensures
            r@ == self@,
    {
        let mut r: Vec<u8> = Vec::new();
        let mut i: usize = 0;
        while i < 32
            invariant
                0 <= i <= 32,
                self@.len() == 32,
                r@ == self@.subrange(0, i as int),
            decreases 32 - i,
        {
            r.push(self.bytes[i]);
            i = i + 1;
            assert(r@ =~= self@.subrange(0, i as int));
        }
        assert(self@.subrange(0, 32) =~= self@);
        r
    }
}

} // verus!
