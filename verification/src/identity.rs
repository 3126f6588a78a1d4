//! The 32-byte identifiers that name users, pools, mints and currencies.

use vstd::prelude::*;

verus! {

/// A 32-byte identifier, kept as it was read: nothing is normalised.
#[derive(Clone, Copy, Debug, PartialEq, Eq, Hash)]
pub struct Identity {
    pub bytes: [u8; 32],
}

impl View for Identity {
    type V = Seq<u8>;

    open spec fn view(&self) -> Seq<u8> {
        self.bytes@
    }
}

impl Identity {
    pub fn new(bytes: [u8; 32]) -> (id: Identity)
        ensures
            id@ == bytes@,
            id.bytes == bytes,
    {
        Identity { bytes }
    }

    pub fn to_bytes(&self) -> (bytes: [u8; 32])
        ensures
            bytes@ == self@,
            bytes == self.bytes,
    {
        self.bytes
    }

    /// Whether two identifiers are the same 32 bytes.
    pub fn same(&self, other: &Identity) -> (equal: bool)
        ensures
            equal == (self@ == other@),
            equal == (*self == *other),
    {
        let mut k: usize = 0;
        while k < 32
            invariant
                k <= 32,
                forall|j: int| 0 <= j < k ==> self.bytes@[j] == other.bytes@[j],
            decreases 32 - k,
        {
            if self.bytes[k] != other.bytes[k] {
                return false;
            }
            k = k + 1;
        }
        proof {
            lemma_identity_by_view(*self, *other);
            assert(self@ =~= other@);
        }
        true
    }
}

/// Two identifiers are equal exactly when their bytes are.
pub proof fn lemma_identity_by_view(a: Identity, b: Identity)
    ensures
        (a@ == b@) <==> (a == b),
        a@.len() == 32,
{
    if a@ == b@ {
        assert(a.bytes =~= b.bytes);
    }
}

} // verus!
