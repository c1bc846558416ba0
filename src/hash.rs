//! Content hashes: the digest of a canonical byte encoding.
use vstd::prelude::*;

verus! {

/// The 32-byte BLAKE2b digest of `data`, as computed by `holo_hash`.
pub uninterp spec fn blake2b_256_of(data: Seq<u8>) -> Seq<u8>;

/// Relies on `holo_hash::encode::blake2b_256`: the digest depends on the
/// bytes alone, and is 32 bytes long.
#[verifier::external_body]
fn blake2b_256(data: &Vec<u8>) -> (r: Vec<u8>)
    ensures
        r@ == blake2b_256_of(data@),
        r@.len() == 32,
{
    holo_hash::encode::blake2b_256(data.as_slice())
}

/// The address of a stored entry: the digest of its canonical encoding.
#[derive(Debug)]
pub struct EntryHash {
    pub bytes: Vec<u8>,
}

impl View for EntryHash {
    type V = Seq<u8>;

    open spec fn view(&self) -> Seq<u8> {
        self.bytes@
    }
}

/// Whether two byte sequences are equal.
pub fn bytes_equal(a: &Vec<u8>, b: &Vec<u8>) -> (r: bool)
    ensures
        r == (a@ == b@),
{
    if a.len() != b.len() {
        return false;
    }
    let mut i: usize = 0;
    while i < a.len()
        invariant
            a@.len() == b@.len(),
            0 <= i <= a@.len(),
            forall|j: int| 0 <= j < i ==> a@[j] == b@[j],
        decreases a@.len() - i,
    {
        if a[i] != b[i] {
            return false;
        }
        i = i + 1;
    }
    assert(a@ =~= b@);
    true
}

/// A copy of a byte sequence.
pub fn copy_bytes(a: &Vec<u8>) -> (r: Vec<u8>)
    ensures
        r@ == a@,
{
    let mut r: Vec<u8> = Vec::new();
    let mut i: usize = 0;
    while i < a.len()
        invariant
            0 <= i <= a@.len(),
            r@ == a@.subrange(0, i as int),
        decreases a@.len() - i,
    {
        r.push(a[i]);
        i = i + 1;
    }
    assert(r@ =~= a@);
    r
}

impl EntryHash {
    /// The hash of an encoded entry.
    pub fn of_bytes(data: &Vec<u8>) -> (r: EntryHash)
        ensures
            r@ == blake2b_256_of(data@),
            r@.len() == 32,
    {
        EntryHash { bytes: blake2b_256(data) }
    }

    /// Builds a hash from its raw bytes.
    pub fn from_raw(bytes: Vec<u8>) -> (r: EntryHash)
        ensures
            r@ == bytes@,
    {
        EntryHash { bytes }
    }

    /// The raw bytes of the hash.
    pub fn as_bytes(&self) -> (r: &Vec<u8>)
        ensures
            r@ == self@,
    {
        &self.bytes
    }

    /// A copy of this hash.
    pub fn duplicate(&self) -> (r: EntryHash)
        ensures
            r@ == self@,
    {
        EntryHash { bytes: copy_bytes(&self.bytes) }
    }

    /// Whether two hashes are the same.
    pub fn same(&self, other: &EntryHash) -> (r: bool)
        ensures
            r == (self@ == other@),
    {
        bytes_equal(&self.bytes, &other.bytes)
    }
}

impl Clone for EntryHash {
    fn clone(&self) -> (r: EntryHash)
        ensures
            r@ == self@,
    {
        self.duplicate()
    }
}

impl PartialEq for EntryHash {
    fn eq(&self, other: &EntryHash) -> (r: bool) {
        self.same(other)
    }
}

impl vstd::std_specs::cmp::PartialEqSpecImpl for EntryHash {
    open spec fn obeys_eq_spec() -> bool {
        true
    }

    open spec fn eq_spec(&self, other: &EntryHash) -> bool {
        self@ == other@
    }
}

impl Eq for EntryHash {}

} // verus!
