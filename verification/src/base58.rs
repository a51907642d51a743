//! Base58Check text encoding of byte strings.

use vstd::prelude::*;

verus! {

/// The Base58Check text of `data`: what `bs58::encode(data).with_check().into_string()`
/// returns.
pub uninterp spec fn bs58check_encoded(data: Seq<u8>) -> Seq<char>;

/// The bytes that a Base58Check text (given as its UTF-8 bytes) stands for, or `None`
/// where the text is rejected: what `bs58::decode(text).with_check(None).into_vec()`
/// returns, with the error dropped.
pub uninterp spec fn bs58check_decoded(text: Seq<u8>) -> Option<Seq<u8>>;

/// Calls `bs58::encode(..).with_check().into_string()`. The contract only names the
/// text that comes back; the alphabet and the checksum are the outside crate's.
#[verifier::external_body]
pub(crate) fn bs58check_encode(data: &[u8]) -> (text: String)
    ensures
        text@ == bs58check_encoded(data@),
{
    bs58::encode(data).with_check().into_string()
}

/// Calls `bs58::decode(..).with_check(None).into_vec()`. The contract only names the
/// outcome: `None` stands for every decoding error (bad character, bad checksum,
/// too short).
#[verifier::external_body]
pub(crate) fn bs58check_decode(text: &[u8]) -> (data: Option<Vec<u8>>)
    ensures
        data is Some <==> bs58check_decoded(text@) is Some,
        data is Some ==> data.unwrap()@ == bs58check_decoded(text@).unwrap(),
{
    bs58::decode(text).with_check(None).into_vec().ok()
}

} // verus!
