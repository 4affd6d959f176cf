//! A byte string together with its hash, so that tables of strings hash the
//! hash and never the string again.

use vstd::prelude::*;

verus! {

/// A byte string, or a null, and the hash computed of it beforehand.
#[derive(Debug, Clone, Copy, Eq)]
pub struct BytesHash<'a> {
    payload: Option<&'a [u8]>,
    hash: u64,
}

/// Whether two byte strings hold the same bytes.
pub fn bytes_equal(a: &[u8], b: &[u8]) -> (same: bool)
    ensures
        same == (a@ == b@),
{
    if a.len() != b.len() {
        return false;
    }
    let mut i: usize = 0;
    while i < a.len()
        invariant
            i <= a@.len(),
            a@.len() == b@.len(),
            forall|j: int| 0 <= j < i ==> a@[j] == b@[j],
        decreases a@.len() - i,
    {
        if a[i] != b[i] {
            return false;
        }
        i += 1;
    }
    assert(a@ =~= b@);
    true
}

impl<'a> BytesHash<'a> {
    /// The bytes, or nothing for a null.
    pub closed spec fn payload(self) -> Option<Seq<u8>> {
        match self.payload {
            Some(bytes) => Some(bytes@),
            None => None,
        }
    }

    /// The hash that the bytes came with.
    pub closed spec fn spec_hash(self) -> u64 {
        self.hash
    }

    /// The hash that the bytes came with.
    pub fn hash(&self) -> (hash: u64)
        ensures
            hash == self.spec_hash(),
    {
        self.hash
    }

    /// Pairs the byte string `s` with `hash`.
    pub fn new(s: Option<&'a [u8]>, hash: u64) -> (made: Self)
        ensures
            made.spec_hash() == hash,
            made.payload() == match s {
                Some(bytes) => Some(bytes@),
                None => None,
            },
    {
        Self { payload: s, hash }
    }

    /// Whether both have the same hash and the same bytes. The hashes are
    /// compared first: where they differ the bytes are not read.
    pub fn same_as(&self, other: &BytesHash<'a>) -> (same: bool)
        ensures
            same == (self.spec_hash() == other.spec_hash() && self.payload() == other.payload()),
    {
        if self.hash != other.hash {
            return false;
        }
        match (self.payload, other.payload) {
            (Some(a), Some(b)) => bytes_equal(a, b),
            (None, None) => true,
            _ => false,
        }
    }
}

impl<'a> PartialEq for BytesHash<'a> {
    fn eq(&self, other: &Self) -> (same: bool) {
        self.same_as(other)
    }
}

impl<'a> vstd::std_specs::cmp::PartialEqSpecImpl for BytesHash<'a> {
    open spec fn obeys_eq_spec() -> bool {
        true
    }

    open spec fn eq_spec(&self, other: &Self) -> bool {
        self.spec_hash() == other.spec_hash() && self.payload() == other.payload()
    }
}

} // verus!
