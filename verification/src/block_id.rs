//! Block identifiers.

use vstd::prelude::*;
use vstd::string::*;
use crate::base58::bs58check_encoded;
use crate::bytes::lex_lt;
use crate::error::ModelsError;
use crate::hash::blake3_digest;

verus! {

/// Size of a block identifier, in bytes.
pub const BLOCK_ID_SIZE_BYTES: usize = 32;

/// The identifier of a block: the hash of its header.
#[derive(Clone, Copy, Debug, Hash, PartialOrd, Ord)]
pub struct BlockId(pub crate::hash::Hash);

impl View for BlockId {
    type V = Seq<u8>;

    open spec fn view(&self) -> Seq<u8> {
        self.0@
    }
}

impl PartialEq for BlockId {
    fn eq(&self, other: &BlockId) -> (r: bool) {
        self.0 == other.0
    }
}

impl Eq for BlockId {}

impl vstd::std_specs::cmp::PartialEqSpecImpl for BlockId {
    open spec fn obeys_eq_spec() -> bool {
        true
    }

    open spec fn eq_spec(&self, other: &BlockId) -> bool {
        *self == *other
    }
}

/// Two identifiers with the same bytes are the same identifier.
pub proof fn lemma_block_id_eq(a: BlockId, b: BlockId)
    ensures
        (a@ == b@) <==> a == b,
{
    crate::hash::lemma_hash_eq(a.0, b.0);
}

impl BlockId {
    /// The bytes of the identifier.
    pub fn to_bytes(&self) -> (r: [u8; 32])
        ensures
            r@ == self@,
    {
        self.0.into_bytes()
    }

    /// The bytes of the identifier, by value.
    pub fn into_bytes(self) -> (r: [u8; 32])
        ensures
            r@ == self@,
    {
        self.0.into_bytes()
    }

    /// The identifier with the given bytes. Every 32 bytes are an identifier.
    pub fn from_bytes(data: &[u8; 32]) -> (r: Result<BlockId, ModelsError>)
        ensures
            r is Ok,
            r.unwrap()@ == data@,
    {
        Ok(BlockId(crate::hash::Hash::from_bytes(data)))
    }

    /// Reads an identifier from its Base58Check text. Any text that is not the
    /// text of 32 bytes is refused with `HashError`.
    pub fn from_bs58_check(data: &str) -> (r: Result<BlockId, ModelsError>)
        ensures
            match crate::hash::Hash::spec_from_bs58_check(data.spec_bytes()) {
                Ok(bytes) => r is Ok && r.unwrap()@ == bytes,
                Err(_) => r == Err::<BlockId, _>(ModelsError::HashError),
            },
    {
        match crate::hash::Hash::from_bs58_check(data) {
            Ok(h) => Ok(BlockId(h)),
            Err(_) => Err(ModelsError::HashError),
        }
    }

    /// Reads an identifier from its text form.
    pub fn from_str(s: &str) -> (r: Result<BlockId, ModelsError>)
        ensures
            match crate::hash::Hash::spec_from_bs58_check(s.spec_bytes()) {
                Ok(bytes) => r is Ok && r.unwrap()@ == bytes,
                Err(_) => r == Err::<BlockId, _>(ModelsError::HashError),
            },
    {
        BlockId::from_bs58_check(s)
    }

    /// The text form of the identifier: the Base58Check text of its bytes.
    pub fn to_string(&self) -> (text: String)
        ensures
            text@ == bs58check_encoded(self@),
    {
        self.0.to_bs58_check()
    }

    /// The highest bit of the hash of the identifier.
    pub fn get_first_bit(&self) -> (r: bool)
        ensures
            r == (blake3_digest(self@)[0] >= 128),
    {
        let bytes = self.to_bytes();
        let digest = crate::hash::Hash::compute_from(bytes.as_slice());
        let first: u8 = digest.to_bytes()[0];
        assert((first >> 7u8 == 1u8) == (first >= 128u8)) by (bit_vector);
        first >> 7u8 == 1u8
    }

    /// Whether `self` comes strictly before `other`, byte by byte.
    pub fn is_before(&self, other: &BlockId) -> (r: bool)
        ensures
            r == lex_lt(self@, other@),
    {
        let a = self.0.to_bytes();
        let b = other.0.to_bytes();
        let mut i: usize = 0;
        assert(self@.subrange(0, 32) =~= self@ && other@.subrange(0, 32) =~= other@);
        while i < 32
            invariant
                i <= 32,
                a@ == self@,
                b@ == other@,
                forall|j: int| 0 <= j < i ==> a@[j] == b@[j],
                lex_lt(self@, other@) == lex_lt(
                    self@.subrange(i as int, 32),
                    other@.subrange(i as int, 32),
                ),
            decreases 32 - i,
        {
            let ghost sa = self@.subrange(i as int, 32);
            let ghost sb = other@.subrange(i as int, 32);
            assert(sa.drop_first() =~= self@.subrange(i + 1, 32));
            assert(sb.drop_first() =~= other@.subrange(i + 1, 32));
            assert(sa[0] == a@[i as int] && sb[0] == b@[i as int]);
            if a[i] != b[i] {
                return a[i] < b[i];
            }
            i += 1;
        }
        false
    }
}

} // verus!
