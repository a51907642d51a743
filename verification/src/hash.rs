//! 32-byte content hashes.

use vstd::prelude::*;
use vstd::string::*;
use crate::base58::{bs58check_decode, bs58check_decoded, bs58check_encode, bs58check_encoded};
use crate::bytes::{array32_from_slice, eq32};

verus! {

/// Size of a hash, in bytes.
pub const HASH_SIZE_BYTES: usize = 32;

/// The BLAKE3 digest of `data`: what `blake3::hash(data)` returns, as its 32 bytes.
pub uninterp spec fn blake3_digest(data: Seq<u8>) -> Seq<u8>;

/// Calls `blake3::hash` and copies the 32 bytes of the digest out. The contract names
/// the digest; that it has 32 bytes is the outside type's own length.
#[verifier::external_body]
fn blake3_hash(data: &[u8]) -> (digest: [u8; 32])
    ensures
        digest@ == blake3_digest(data@),
{
    *blake3::hash(data).as_bytes()
}

/// Why a text could not be read as a hash.
#[derive(Clone, Copy, Debug, PartialEq, Eq)]
pub enum HashError {
    /// The text is not valid Base58Check.
    ParsingError,
    /// The decoded bytes are not exactly 32.
    WrongSize,
}

/// A 32-byte hash.
#[derive(Clone, Copy, Debug, Hash, PartialOrd, Ord)]
pub struct Hash {
    pub bytes: [u8; 32],
}

impl View for Hash {
    type V = Seq<u8>;

    open spec fn view(&self) -> Seq<u8> {
        self.bytes@
    }
}

impl PartialEq for Hash {
    fn eq(&self, other: &Hash) -> (r: bool) {
        eq32(&self.bytes, &other.bytes)
    }
}

impl Eq for Hash {}

impl vstd::std_specs::cmp::PartialEqSpecImpl for Hash {
    open spec fn obeys_eq_spec() -> bool {
        true
    }

    open spec fn eq_spec(&self, other: &Hash) -> bool {
        *self == *other
    }
}

/// Two hashes with the same bytes are the same hash.
pub proof fn lemma_hash_eq(a: Hash, b: Hash)
    ensures
        (a@ == b@) <==> a == b,
{
    if a@ == b@ {
        assert(a.bytes =~= b.bytes);
    }
}

impl Hash {
    /// The text that a hash is read from: valid Base58Check of exactly 32 bytes.
    pub open spec fn spec_from_bs58_check(text: Seq<u8>) -> Result<Seq<u8>, HashError> {
        match bs58check_decoded(text) {
            None => Err(HashError::ParsingError),
            Some(data) => if data.len() == 32 {
                Ok(data)
            } else {
                Err(HashError::WrongSize)
            },
        }
    }

    /// Hashes `data`.
    pub fn compute_from(data: &[u8]) -> (h: Hash)
        ensures
            h@ == blake3_digest(data@),
    {
        Hash { bytes: blake3_hash(data) }
    }

    /// The hash with the given bytes.
    pub fn from_bytes(data: &[u8; 32]) -> (h: Hash)
        ensures
            h@ == data@,
    {
        Hash { bytes: *data }
    }

    /// The bytes of the hash.
    pub fn to_bytes(&self) -> (r: &[u8; 32])
        ensures
            r@ == self@,
    {
        &self.bytes
    }

    /// The bytes of the hash, by value.
    pub fn into_bytes(self) -> (r: [u8; 32])
        ensures
            r@ == self@,
    {
        self.bytes
    }

    /// The Base58Check text of the hash.
    pub fn to_bs58_check(&self) -> (text: String)
        ensures
            text@ == bs58check_encoded(self@),
    {
        bs58check_encode(self.bytes.as_slice())
    }

    /// Reads a hash from the UTF-8 bytes of its Base58Check text.
    pub fn from_bs58_check_bytes(text: &[u8]) -> (r: Result<Hash, HashError>)
        ensures
            match Hash::spec_from_bs58_check(text@) {
                Ok(data) => r is Ok && r.unwrap()@ == data,
                Err(e) => r == Err::<Hash, HashError>(e),
            },
    {
        match bs58check_decode(text) {
            None => Err(HashError::ParsingError),
            Some(data) => {
                if data.len() == 32 {
                    Ok(Hash { bytes: array32_from_slice(data.as_slice()) })
                } else {
                    Err(HashError::WrongSize)
                }
            },
        }
    }

    /// Reads a hash from its Base58Check text.
    pub fn from_bs58_check(text: &str) -> (r: Result<Hash, HashError>)
        ensures
            match Hash::spec_from_bs58_check(text.spec_bytes()) {
                Ok(data) => r is Ok && r.unwrap()@ == data,
                Err(e) => r == Err::<Hash, HashError>(e),
            },
    {
        Hash::from_bs58_check_bytes(text.as_bytes())
    }
}

} // verus!
