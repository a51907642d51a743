//! Addresses: the hash of a public key.

use vstd::prelude::*;
use crate::hash::blake3_digest;
use crate::signature::PublicKey;

verus! {

/// The address of the holder of a key.
#[derive(Clone, Copy, Debug, Hash, PartialOrd, Ord)]
pub struct Address(pub crate::hash::Hash);

impl View for Address {
    type V = Seq<u8>;

    open spec fn view(&self) -> Seq<u8> {
        self.0@
    }
}

impl PartialEq for Address {
    fn eq(&self, other: &Address) -> (r: bool) {
        self.0 == other.0
    }
}

impl Eq for Address {}

impl vstd::std_specs::cmp::PartialEqSpecImpl for Address {
    open spec fn obeys_eq_spec() -> bool {
        true
    }

    open spec fn eq_spec(&self, other: &Address) -> bool {
        *self == *other
    }
}

/// Two addresses with the same bytes are the same address.
pub proof fn lemma_address_eq(a: Address, b: Address)
    ensures
        (a@ == b@) <==> a == b,
{
    crate::hash::lemma_hash_eq(a.0, b.0);
}

impl Address {
    /// The address of a public key: the hash of its bytes.
    pub open spec fn spec_from_public_key(public_key: Seq<u8>) -> Seq<u8> {
        blake3_digest(public_key)
    }

    /// The address of a public key.
    pub fn from_public_key(public_key: &PublicKey) -> (r: Address)
        ensures
            r@ == Address::spec_from_public_key(public_key@),
    {
        let bytes = public_key.to_bytes();
        Address(crate::hash::Hash::compute_from(bytes.as_slice()))
    }

    /// The bytes of the address.
    pub fn to_bytes(&self) -> (r: &[u8; 32])
        ensures
            r@ == self@,
    {
        self.0.to_bytes()
    }
}

/// The addresses that a list holds, as a set of their bytes.
pub open spec fn address_set(list: Seq<Address>) -> Set<Seq<u8>> {
    Set::new(|a: Seq<u8>| exists|i: int| 0 <= i < list.len() && list[i]@ == a)
}

/// Whether no address occurs twice in a list.
pub open spec fn addresses_distinct(list: Seq<Address>) -> bool {
    forall|i: int, j: int| 0 <= i < j < list.len() ==> list[i]@ != list[j]@
}

/// Whether a list holds an address.
pub fn address_list_contains(list: &Vec<Address>, address: &Address) -> (r: bool)
    ensures
        r == address_set(list@).contains(address@),
{
    let mut i: usize = 0;
    while i < list.len()
        invariant
            i <= list@.len(),
            forall|j: int| 0 <= j < i ==> list@[j]@ != address@,
        decreases list@.len() - i,
    {
        if list[i] == *address {
            return true;
        }
        proof {
            lemma_address_eq(list@[i as int], *address);
        }
        i += 1;
    }
    false
}

/// Adds an address to a list that holds each address once, unless it is there.
pub fn address_list_insert(list: &mut Vec<Address>, address: Address)
    requires
        addresses_distinct(old(list)@),
    ensures
        addresses_distinct(final(list)@),
        address_set(final(list)@) == address_set(old(list)@).insert(address@),
{
    if !address_list_contains(list, &address) {
        list.push(address);
        assert forall|a: Seq<u8>|
            address_set(list@).contains(a) == address_set(old(list)@).insert(address@).contains(
                a,
            ) by {
            if address_set(list@).contains(a) {
                let i = choose|i: int| 0 <= i < list@.len() && list@[i]@ == a;
                if i < old(list)@.len() {
                    assert(old(list)@[i]@ == a);
                }
            }
            if address_set(old(list)@).contains(a) {
                let i = choose|i: int| 0 <= i < old(list)@.len() && old(list)@[i]@ == a;
                assert(list@[i]@ == a);
            }
            if a == address@ {
                assert(list@[list@.len() - 1]@ == a);
            }
        }
        assert(address_set(list@) =~= address_set(old(list)@).insert(address@));
    } else {
        assert(address_set(list@) =~= address_set(old(list)@).insert(address@));
    }
}

} // verus!
