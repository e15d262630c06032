use vstd::prelude::*;

verus! {

/// Compares two byte strings element by element.
pub fn bytes_eq(a: &Vec<u8>, b: &Vec<u8>) -> (r: bool)
    ensures
        r == (a@ == b@),
{
    if a.len() != b.len() {
        return false;
    }
    let mut i: usize = 0;
    while i < a.len()
        invariant
            a@.len() == b@.len(),
            0 <= i <= a@.len(),
            forall|j: int| 0 <= j < i ==> a@[j] == b@[j],
        decreases a@.len() - i,
    {
        if a[i] != b[i] {
            return false;
        }
        i = i + 1;
    }
    assert(a@ =~= b@);
    true
}

/// Copies a byte string.
pub fn copy_bytes(a: &Vec<u8>) -> (r: Vec<u8>)
    ensures
        r@ == a@,
{
    let r = a.clone();
    assert(r@ =~= a@);
    r
}

/// Identifier of one vault: the namespace that owns a set of cache rows.
#[derive(Debug, PartialEq, Eq, Hash)]
pub struct VaultKey {
    bytes: Vec<u8>,
}

impl View for VaultKey {
    type V = Seq<u8>;

    closed spec fn view(&self) -> Seq<u8> {
        self.bytes@
    }
}

impl Clone for VaultKey {
    fn clone(&self) -> (r: Self)
        ensures
            r@ == self@,
    {
        VaultKey { bytes: copy_bytes(&self.bytes) }
    }
}

impl VaultKey {
    /// The identifier with these bytes.
    pub fn new(bytes: Vec<u8>) -> (r: Self)
        ensures
            r@ == bytes@,
    {
        VaultKey { bytes }
    }

    /// The identifier's bytes.
    pub fn as_bytes(&self) -> (r: &Vec<u8>)
        ensures
            r@ == self@,
    {
        &self.bytes
    }

    /// Whether the two identifiers have the same bytes.
    pub fn same(&self, other: &VaultKey) -> (r: bool)
        ensures
            r == (self@ == other@),
    {
        bytes_eq(&self.bytes, &other.bytes)
    }
}

/// Identifier of one record inside a vault's chain, chosen by the chain provider.
#[derive(Debug, PartialEq, Eq, Hash)]
pub struct RecordId {
    bytes: Vec<u8>,
}

impl View for RecordId {
    type V = Seq<u8>;

    closed spec fn view(&self) -> Seq<u8> {
        self.bytes@
    }
}

impl Clone for RecordId {
    fn clone(&self) -> (r: Self)
        ensures
            r@ == self@,
    {
        RecordId { bytes: copy_bytes(&self.bytes) }
    }
}

impl RecordId {
    /// The identifier with these bytes.
    pub fn new(bytes: Vec<u8>) -> (r: Self)
        ensures
            r@ == bytes@,
    {
        RecordId { bytes }
    }

    /// The identifier's bytes.
    pub fn as_bytes(&self) -> (r: &Vec<u8>)
        ensures
            r@ == self@,
    {
        &self.bytes
    }

    /// Whether the two identifiers have the same bytes.
    pub fn same(&self, other: &RecordId) -> (r: bool)
        ensures
            r == (self@ == other@),
    {
        bytes_eq(&self.bytes, &other.bytes)
    }
}

/// Identifier of the principal on whose behalf chain writes are made.
#[derive(Debug, PartialEq, Eq, Hash)]
pub struct OwnerId {
    bytes: Vec<u8>,
}

impl View for OwnerId {
    type V = Seq<u8>;

    closed spec fn view(&self) -> Seq<u8> {
        self.bytes@
    }
}

impl Clone for OwnerId {
    fn clone(&self) -> (r: Self)
        ensures
            r@ == self@,
    {
        OwnerId { bytes: copy_bytes(&self.bytes) }
    }
}

impl OwnerId {
    /// The identifier with these bytes.
    pub fn new(bytes: Vec<u8>) -> (r: Self)
        ensures
            r@ == bytes@,
    {
        OwnerId { bytes }
    }

    /// The identifier's bytes.
    pub fn as_bytes(&self) -> (r: &Vec<u8>)
        ensures
            r@ == self@,
    {
        &self.bytes
    }

    /// Whether the two identifiers have the same bytes.
    pub fn same(&self, other: &OwnerId) -> (r: bool)
        ensures
            r == (self@ == other@),
    {
        bytes_eq(&self.bytes, &other.bytes)
    }
}

} // verus!
