//! Schnorr keys and signatures over secp256k1, with their byte and text forms.
//!
//! A key is held as the bytes that stand for it. A value of `PrivateKey` or
//! `PublicKey` always holds bytes that the curve library accepts: there is no way
//! to build one from bytes that it rejects.

use vstd::prelude::*;
use vstd::slice::*;
use vstd::string::*;
use vstd::utf8::*;
use crate::base58::{bs58check_decode, bs58check_decoded, bs58check_encode, bs58check_encoded};
use crate::bytes::{array32_from_slice, eq32, eq64};
use crate::text::{
    body_part,
    bytes_eq,
    find_single_separator,
    has_single_separator,
    prefix_part,
    single_separator_at,
};

verus! {

/// Size of a private key, in bytes.
pub const PRIVATE_KEY_SIZE_BYTES: usize = 32;

/// Size of a public key, in bytes.
pub const PUBLIC_KEY_SIZE_BYTES: usize = 32;

/// Size of a signature, in bytes.
pub const SIGNATURE_SIZE_BYTES: usize = 64;

/// Whether the text forms carry a `PRI-`, `PUB-` or `SIG-` prefix.
pub const HASH_PREFIX: bool = false;

/// Whether `data` is a secret key: what `secp256k1::KeyPair::from_seckey_slice`
/// accepts.
pub uninterp spec fn secret_key_accepted(data: Seq<u8>) -> bool;

/// Whether `data` is an x-only public key: what `secp256k1::XOnlyPublicKey::from_slice`
/// accepts.
pub uninterp spec fn xonly_public_key_accepted(data: Seq<u8>) -> bool;

/// The serialized x-only public key of the key pair of `secret`: what
/// `secp256k1::KeyPair::public_key` returns, serialized.
pub uninterp spec fn xonly_public_key_of(secret: Seq<u8>) -> Seq<u8>;

/// Whether `signature` is a Schnorr signature of `message` under `public_key`: whether
/// `secp256k1::Secp256k1::verify_schnorr` returns `Ok`.
pub uninterp spec fn schnorr_verifies(
    signature: Seq<u8>,
    message: Seq<u8>,
    public_key: Seq<u8>,
) -> bool;

/// Calls `secp256k1::KeyPair::from_seckey_slice` and tells whether it accepted the
/// bytes. The contract only names the answer.
#[verifier::external_body]
fn secret_key_check(data: &[u8; 32]) -> (ok: bool)
    ensures
        ok == secret_key_accepted(data@),
{
    secp256k1::KeyPair::from_seckey_slice(secp256k1::SECP256K1, &data[..]).is_ok()
}

/// Calls `secp256k1::XOnlyPublicKey::from_slice` and tells whether it accepted the
/// bytes. The contract only names the answer.
#[verifier::external_body]
fn xonly_public_key_check(data: &[u8; 32]) -> (ok: bool)
    ensures
        ok == xonly_public_key_accepted(data@),
{
    secp256k1::XOnlyPublicKey::from_slice(&data[..]).is_ok()
}

/// Calls `secp256k1::KeyPair::public_key` on the key pair of `secret` and serializes
/// the result. The contract names the bytes, and claims that they are in turn
/// accepted as an x-only public key: the serialization is the x coordinate of a
/// point of the curve, which is what the parser asks for.
#[verifier::external_body]
fn xonly_public_key(secret: &[u8; 32]) -> (public: [u8; 32])
    requires
        secret_key_accepted(secret@),
    ensures
        public@ == xonly_public_key_of(secret@),
        xonly_public_key_accepted(public@),
{
    secp256k1::KeyPair::from_seckey_slice(secp256k1::SECP256K1, &secret[..])
        .expect("accepted secret key")
        .public_key()
        .serialize()
}

/// Calls `secp256k1::Secp256k1::sign_schnorr`, which draws auxiliary randomness, so
/// two calls may differ. The contract claims what holds of every signature that
/// comes back: it verifies against the message under the public key of the signing
/// key (the completeness of BIP-340 signing). The outside function aborts when the
/// derived nonce is zero, which takes a SHA-256 output that is a multiple of the
/// group order.
#[verifier::external_body]
fn schnorr_sign(message: &[u8; 32], secret: &[u8; 32]) -> (signature: [u8; 64])
    requires
        secret_key_accepted(secret@),
    ensures
        schnorr_verifies(signature@, message@, xonly_public_key_of(secret@)),
{
    let keypair = secp256k1::KeyPair::from_seckey_slice(secp256k1::SECP256K1, &secret[..])
        .expect("accepted secret key");
    let msg = secp256k1::Message::from_slice(&message[..]).expect("32-byte message");
    *secp256k1::SECP256K1.sign_schnorr(&msg, &keypair).as_ref()
}

/// Calls `secp256k1::Secp256k1::verify_schnorr`. The contract only names the answer.
#[verifier::external_body]
fn schnorr_verify(signature: &[u8; 64], message: &[u8; 32], public_key: &[u8; 32]) -> (ok: bool)
    requires
        xonly_public_key_accepted(public_key@),
    ensures
        ok == schnorr_verifies(signature@, message@, public_key@),
{
    let sig = secp256k1::schnorr::Signature::from_slice(&signature[..]).expect("64 bytes");
    let msg = secp256k1::Message::from_slice(&message[..]).expect("32-byte message");
    let key = secp256k1::XOnlyPublicKey::from_slice(&public_key[..]).expect("accepted key");
    secp256k1::SECP256K1.verify_schnorr(&sig, &msg, &key).is_ok()
}

/// Calls `secp256k1::schnorr::Signature::from_slice`, which accepts exactly the
/// slices of 64 bytes and keeps them as they are.
#[verifier::external_body]
fn schnorr_signature_from_slice(data: &[u8]) -> (signature: Option<[u8; 64]>)
    ensures
        signature is Some <==> data@.len() == 64,
        signature is Some ==> signature.unwrap()@ == data@,
{
    secp256k1::schnorr::Signature::from_slice(data).ok().map(|s| *s.as_ref())
}

/// Draws a secret key from the operating system's random source with
/// `secp256k1::SecretKey::new`. Of the outcome the contract claims only that it is
/// an accepted secret key. Aborts where the random source cannot be opened.
#[verifier::external_body]
fn random_secret_key() -> (secret: [u8; 32])
    ensures
        secret_key_accepted(secret@),
{
    let mut rng = secp256k1::rand::rngs::OsRng::new().expect("OsRng");
    let key = secp256k1::SecretKey::new(&mut rng);
    secp256k1::KeyPair::from_secret_key(secp256k1::SECP256K1, key).secret_bytes()
}

/// Why a key or a signature could not be read, or a signature not accepted.
#[derive(Clone, Debug)]
pub enum MassaSignatureError {
    /// The bytes or the text do not stand for a value of the type.
    ParsingError(String),
    /// The text has a prefix, and it is not the expected one: expected, found.
    WrongPrefix(String, String),
    /// The signature does not verify.
    SignatureError(String),
}

/// Why a deserializer refused a buffer.
#[derive(Clone, Copy, Debug, PartialEq, Eq)]
pub enum DeserializeErrorKind {
    /// The buffer does not have the length of the value.
    LengthValue,
    /// The bytes do not stand for a value of the type.
    Fail,
}

/// The prefix of the text form of a private key.
pub open spec fn private_key_prefix() -> Seq<u8> {
    seq![0x50u8, 0x52u8, 0x49u8]
}

/// The prefix of the text form of a public key.
pub open spec fn public_key_prefix() -> Seq<u8> {
    seq![0x50u8, 0x55u8, 0x42u8]
}

/// The prefix of the text form of a signature.
pub open spec fn signature_prefix() -> Seq<u8> {
    seq![0x53u8, 0x49u8, 0x47u8]
}

/// How a text is read when prefixes are in use: which part of it is decoded, or
/// `None` where its prefix is not `expected`.
pub open spec fn prefixed_body(text: Seq<u8>, expected: Seq<u8>) -> Option<Seq<u8>> {
    if !has_single_separator(text) {
        Some(text)
    } else if prefix_part(text) != expected {
        None
    } else {
        Some(body_part(text))
    }
}

/// Splits a text with a prefix: the part to decode, or the prefix found where it is
/// not the expected one.
fn split_prefixed<'a>(text: &'a str, expected: &[u8]) -> (r: Result<&'a [u8], String>)
    ensures
        match prefixed_body(text.spec_bytes(), expected@) {
            Some(body) => r is Ok && r.unwrap()@ == body,
            None => r is Err && encode_utf8(r->Err_0@) == prefix_part(text.spec_bytes()),
        },
{
    let bytes = text.as_bytes();
    match find_single_separator(bytes) {
        None => Ok(bytes),
        Some(i) => {
            assert(single_separator_at(bytes@, i as int));
            let n = bytes.len();
            let head = slice_subrange(bytes, 0, i);
            if bytes_eq(head, expected) {
                Ok(slice_subrange(bytes, i + 1, n))
            } else {
                proof {
                    encode_utf8_valid_utf8(text@);
                    is_char_boundary_iff_not_is_continuation_byte(text.spec_bytes(), i as int);
                }
                let (found, _) = text.split_at(i);
                Err(found.to_owned())
            }
        },
    }
}

/// A private key: 32 bytes that the curve library accepts as a secret key.
#[derive(Clone, Copy, Debug)]
pub struct PrivateKey {
    bytes: [u8; 32],
}

impl View for PrivateKey {
    type V = Seq<u8>;

    closed spec fn view(&self) -> Seq<u8> {
        self.bytes@
    }
}

impl PartialEq for PrivateKey {
    fn eq(&self, other: &PrivateKey) -> (r: bool) {
        eq32(&self.bytes, &other.bytes)
    }
}

impl Eq for PrivateKey {}

impl vstd::std_specs::cmp::PartialEqSpecImpl for PrivateKey {
    open spec fn obeys_eq_spec() -> bool {
        true
    }

    open spec fn eq_spec(&self, other: &PrivateKey) -> bool {
        self@ == other@
    }
}

impl PrivateKey {
    #[verifier::type_invariant]
    spec fn accepted(self) -> bool {
        secret_key_accepted(self.bytes@)
    }

    /// What reading a private key from bytes gives: the bytes, where they are an
    /// accepted secret key.
    pub open spec fn spec_from_bytes(data: Seq<u8>) -> Option<Seq<u8>> {
        if data.len() == 32 && secret_key_accepted(data) {
            Some(data)
        } else {
            None
        }
    }

    /// What reading a private key from the UTF-8 bytes of a Base58Check text gives.
    pub open spec fn spec_from_bs58_check(text: Seq<u8>) -> Option<Seq<u8>> {
        match bs58check_decoded(text) {
            None => None,
            Some(data) => PrivateKey::spec_from_bytes(data),
        }
    }

    /// The Base58Check text of the key.
    pub fn to_bs58_check(&self) -> (text: String)
        ensures
            text@ == bs58check_encoded(self@),
    {
        bs58check_encode(self.bytes.as_slice())
    }

    /// The bytes of the key. They are always bytes that `from_bytes` reads back.
    pub fn to_bytes(&self) -> (r: [u8; 32])
        ensures
            r@ == self@,
            PrivateKey::spec_from_bytes(r@) == Some(r@),
    {
        proof {
            use_type_invariant(self);
        }
        self.bytes
    }

    /// The bytes of the key, by value.
    pub fn into_bytes(self) -> (r: [u8; 32])
        ensures
            r@ == self@,
    {
        self.bytes
    }

    /// Reads a key from the UTF-8 bytes of its Base58Check text.
    pub fn from_bs58_check_bytes(text: &[u8]) -> (r: Result<PrivateKey, MassaSignatureError>)
        ensures
            match PrivateKey::spec_from_bs58_check(text@) {
                Some(data) => r is Ok && r.unwrap()@ == data,
                None => r matches Err(MassaSignatureError::ParsingError(_)),
            },
    {
        match bs58check_decode(text) {
            None => Err(
                MassaSignatureError::ParsingError("private key bs58_check parsing error".to_owned()),
            ),
            Some(data) => {
                if data.len() != 32 {
                    return Err(
                        MassaSignatureError::ParsingError(
                            "private key bs58_check parsing error".to_owned(),
                        ),
                    );
                }
                PrivateKey::from_bytes(&array32_from_slice(data.as_slice()))
            },
        }
    }

    /// Reads a key from its Base58Check text.
    pub fn from_bs58_check(data: &str) -> (r: Result<PrivateKey, MassaSignatureError>)
        ensures
            match PrivateKey::spec_from_bs58_check(data.spec_bytes()) {
                Some(key) => r is Ok && r.unwrap()@ == key,
                None => r matches Err(MassaSignatureError::ParsingError(_)),
            },
    {
        PrivateKey::from_bs58_check_bytes(data.as_bytes())
    }

    /// Reads a key from its bytes: they are kept where the curve library accepts them
    /// as a secret key, and refused otherwise.
    pub fn from_bytes(data: &[u8; 32]) -> (r: Result<PrivateKey, MassaSignatureError>)
        ensures
            match PrivateKey::spec_from_bytes(data@) {
                Some(key) => r is Ok && r.unwrap()@ == key,
                None => r matches Err(MassaSignatureError::ParsingError(_)),
            },
    {
        if secret_key_check(data) {
            Ok(PrivateKey { bytes: *data })
        } else {
            Err(MassaSignatureError::ParsingError("private key bytes parsing error".to_owned()))
        }
    }

    /// The text form of the key, with the `PRI-` prefix where `with_prefix` is set.
    pub fn to_string_prefixed(&self, with_prefix: bool) -> (text: String)
        ensures
            text@ == if with_prefix {
                "PRI-"@ + bs58check_encoded(self@)
            } else {
                bs58check_encoded(self@)
            },
    {
        let encoded = self.to_bs58_check();
        if with_prefix {
            "PRI-".to_owned().concat(encoded.as_str())
        } else {
            encoded
        }
    }

    /// The text form of the key.
    pub fn to_string(&self) -> (text: String)
        ensures
            text@ == if HASH_PREFIX {
                "PRI-"@ + bs58check_encoded(self@)
            } else {
                bs58check_encoded(self@)
            },
    {
        self.to_string_prefixed(HASH_PREFIX)
    }

    /// Reads a key from its text form. Where `with_prefix` is set and the text
    /// holds exactly one `-`, what stands before it must be `PRI` and what stands
    /// behind it is decoded; any other text is decoded whole.
    pub fn from_str_prefixed(s: &str, with_prefix: bool) -> (r: Result<
        PrivateKey,
        MassaSignatureError,
    >)
        ensures
            match (if with_prefix {
                prefixed_body(s.spec_bytes(), private_key_prefix())
            } else {
                Some(s.spec_bytes())
            }) {
                None => r matches Err(MassaSignatureError::WrongPrefix(_, found))
                    && encode_utf8(found@) == prefix_part(s.spec_bytes()),
                Some(body) => match PrivateKey::spec_from_bs58_check(body) {
                    Some(key) => r is Ok && r.unwrap()@ == key,
                    None => r matches Err(MassaSignatureError::ParsingError(_)),
                },
            },
    {
        if with_prefix {
            let expected: [u8; 3] = [0x50u8, 0x52u8, 0x49u8];
            assert(expected@ =~= private_key_prefix());
            match split_prefixed(s, expected.as_slice()) {
                Ok(body) => PrivateKey::from_bs58_check_bytes(body),
                Err(found) => Err(MassaSignatureError::WrongPrefix("PRI".to_owned(), found)),
            }
        } else {
            PrivateKey::from_bs58_check(s)
        }
    }

    /// Reads a key from its text form.
    pub fn from_str(s: &str) -> (r: Result<PrivateKey, MassaSignatureError>)
        ensures
            match (if HASH_PREFIX {
                prefixed_body(s.spec_bytes(), private_key_prefix())
            } else {
                Some(s.spec_bytes())
            }) {
                None => r matches Err(MassaSignatureError::WrongPrefix(_, found))
                    && encode_utf8(found@) == prefix_part(s.spec_bytes()),
                Some(body) => match PrivateKey::spec_from_bs58_check(body) {
                    Some(key) => r is Ok && r.unwrap()@ == key,
                    None => r matches Err(MassaSignatureError::ParsingError(_)),
                },
            },
    {
        PrivateKey::from_str_prefixed(s, HASH_PREFIX)
    }
}

/// A public key: 32 bytes that the curve library accepts as an x-only public key.
#[derive(Clone, Copy, Debug, Hash)]
pub struct PublicKey {
    bytes: [u8; 32],
}

impl View for PublicKey {
    type V = Seq<u8>;

    closed spec fn view(&self) -> Seq<u8> {
        self.bytes@
    }
}

impl PartialEq for PublicKey {
    fn eq(&self, other: &PublicKey) -> (r: bool) {
        eq32(&self.bytes, &other.bytes)
    }
}

impl Eq for PublicKey {}

impl vstd::std_specs::cmp::PartialEqSpecImpl for PublicKey {
    open spec fn obeys_eq_spec() -> bool {
        true
    }

    open spec fn eq_spec(&self, other: &PublicKey) -> bool {
        self@ == other@
    }
}

impl PublicKey {
    #[verifier::type_invariant]
    spec fn accepted(self) -> bool {
        xonly_public_key_accepted(self.bytes@)
    }

    /// What reading a public key from bytes gives: the bytes, where they are an
    /// accepted x-only public key.
    pub open spec fn spec_from_bytes(data: Seq<u8>) -> Option<Seq<u8>> {
        if data.len() == 32 && xonly_public_key_accepted(data) {
            Some(data)
        } else {
            None
        }
    }

    /// What reading a public key from the UTF-8 bytes of a Base58Check text gives.
    pub open spec fn spec_from_bs58_check(text: Seq<u8>) -> Option<Seq<u8>> {
        match bs58check_decoded(text) {
            None => None,
            Some(data) => PublicKey::spec_from_bytes(data),
        }
    }

    /// The Base58Check text of the key.
    pub fn to_bs58_check(&self) -> (text: String)
        ensures
            text@ == bs58check_encoded(self@),
    {
        bs58check_encode(self.bytes.as_slice())
    }

    /// The bytes of the key. They are always bytes that `from_bytes` reads back.
    pub fn to_bytes(&self) -> (r: [u8; 32])
        ensures
            r@ == self@,
            PublicKey::spec_from_bytes(r@) == Some(r@),
    {
        proof {
            use_type_invariant(self);
        }
        self.bytes
    }

    /// The bytes of the key, by value.
    pub fn into_bytes(self) -> (r: [u8; 32])
        ensures
            r@ == self@,
    {
        self.bytes
    }

    /// Reads a key from the UTF-8 bytes of its Base58Check text.
    pub fn from_bs58_check_bytes(text: &[u8]) -> (r: Result<PublicKey, MassaSignatureError>)
        ensures
            match PublicKey::spec_from_bs58_check(text@) {
                Some(data) => r is Ok && r.unwrap()@ == data,
                None => r matches Err(MassaSignatureError::ParsingError(_)),
            },
    {
        match bs58check_decode(text) {
            None => Err(
                MassaSignatureError::ParsingError("public key bs58_check parsing error".to_owned()),
            ),
            Some(data) => {
                if data.len() != 32 {
                    return Err(
                        MassaSignatureError::ParsingError(
                            "public key bs58_check parsing error".to_owned(),
                        ),
                    );
                }
                PublicKey::from_bytes(&array32_from_slice(data.as_slice()))
            },
        }
    }

    /// Reads a key from its Base58Check text.
    pub fn from_bs58_check(data: &str) -> (r: Result<PublicKey, MassaSignatureError>)
        ensures
            match PublicKey::spec_from_bs58_check(data.spec_bytes()) {
                Some(key) => r is Ok && r.unwrap()@ == key,
                None => r matches Err(MassaSignatureError::ParsingError(_)),
            },
    {
        PublicKey::from_bs58_check_bytes(data.as_bytes())
    }

    /// Reads a key from its bytes: they are kept where the curve library accepts them
    /// as an x-only public key, and refused otherwise.
    pub fn from_bytes(data: &[u8; 32]) -> (r: Result<PublicKey, MassaSignatureError>)
        ensures
            match PublicKey::spec_from_bytes(data@) {
                Some(key) => r is Ok && r.unwrap()@ == key,
                None => r matches Err(MassaSignatureError::ParsingError(_)),
            },
    {
        if xonly_public_key_check(data) {
            Ok(PublicKey { bytes: *data })
        } else {
            Err(MassaSignatureError::ParsingError("public key bytes parsing error".to_owned()))
        }
    }

    /// The text form of the key, with the `PUB-` prefix where `with_prefix` is set.
    pub fn to_string_prefixed(&self, with_prefix: bool) -> (text: String)
        ensures
            text@ == if with_prefix {
                "PUB-"@ + bs58check_encoded(self@)
            } else {
                bs58check_encoded(self@)
            },
    {
        let encoded = self.to_bs58_check();
        if with_prefix {
            "PUB-".to_owned().concat(encoded.as_str())
        } else {
            encoded
        }
    }

    /// The text form of the key.
    pub fn to_string(&self) -> (text: String)
        ensures
            text@ == if HASH_PREFIX {
                "PUB-"@ + bs58check_encoded(self@)
            } else {
                bs58check_encoded(self@)
            },
    {
        self.to_string_prefixed(HASH_PREFIX)
    }

    /// Reads a key from its text form. Where `with_prefix` is set and the text
    /// holds exactly one `-`, what stands before it must be `PUB` and what stands
    /// behind it is decoded; any other text is decoded whole.
    pub fn from_str_prefixed(s: &str, with_prefix: bool) -> (r: Result<
        PublicKey,
        MassaSignatureError,
    >)
        ensures
            match (if with_prefix {
                prefixed_body(s.spec_bytes(), public_key_prefix())
            } else {
                Some(s.spec_bytes())
            }) {
                None => r matches Err(MassaSignatureError::WrongPrefix(_, found))
                    && encode_utf8(found@) == prefix_part(s.spec_bytes()),
                Some(body) => match PublicKey::spec_from_bs58_check(body) {
                    Some(key) => r is Ok && r.unwrap()@ == key,
                    None => r matches Err(MassaSignatureError::ParsingError(_)),
                },
            },
    {
        if with_prefix {
            let expected: [u8; 3] = [0x50u8, 0x55u8, 0x42u8];
            assert(expected@ =~= public_key_prefix());
            match split_prefixed(s, expected.as_slice()) {
                Ok(body) => PublicKey::from_bs58_check_bytes(body),
                Err(found) => Err(MassaSignatureError::WrongPrefix("PUB".to_owned(), found)),
            }
        } else {
            PublicKey::from_bs58_check(s)
        }
    }

    /// Reads a key from its text form.
    pub fn from_str(s: &str) -> (r: Result<PublicKey, MassaSignatureError>)
        ensures
            match (if HASH_PREFIX {
                prefixed_body(s.spec_bytes(), public_key_prefix())
            } else {
                Some(s.spec_bytes())
            }) {
                None => r matches Err(MassaSignatureError::WrongPrefix(_, found))
                    && encode_utf8(found@) == prefix_part(s.spec_bytes()),
                Some(body) => match PublicKey::spec_from_bs58_check(body) {
                    Some(key) => r is Ok && r.unwrap()@ == key,
                    None => r matches Err(MassaSignatureError::ParsingError(_)),
                },
            },
    {
        PublicKey::from_str_prefixed(s, HASH_PREFIX)
    }
}

/// Reads a public key from a buffer that holds exactly its bytes.
#[derive(Clone, Copy, Debug, Default)]
pub struct PublicKeyDeserializer;

impl PublicKeyDeserializer {
    /// Creates a `PublicKeyDeserializer`.
    pub fn new() -> (r: PublicKeyDeserializer)
        ensures
            r == PublicKeyDeserializer,
    {
        PublicKeyDeserializer
    }

    /// Reads a public key from `buffer`. The buffer must hold exactly 32 bytes,
    /// else the error is `LengthValue`; they must be accepted as a key, else the
    /// error is `Fail`. What is left of the buffer behind the key comes back with
    /// the key, and is empty.
    pub fn deserialize<'a>(&self, buffer: &'a [u8]) -> (r: Result<
        (&'a [u8], PublicKey),
        DeserializeErrorKind,
    >)
        ensures
            buffer@.len() != 32 ==> r == Err::<(&[u8], PublicKey), _>(
                DeserializeErrorKind::LengthValue,
            ),
            buffer@.len() == 32 && !xonly_public_key_accepted(buffer@) ==> r == Err::<
                (&[u8], PublicKey),
                _,
            >(DeserializeErrorKind::Fail),
            buffer@.len() == 32 && xonly_public_key_accepted(buffer@) ==> r is Ok && r.unwrap().0@
                == Seq::<u8>::empty() && r.unwrap().1@ == buffer@,
    {
        if buffer.len() != PUBLIC_KEY_SIZE_BYTES {
            return Err(DeserializeErrorKind::LengthValue);
        }
        let data = array32_from_slice(buffer);
        match PublicKey::from_bytes(&data) {
            Ok(key) => Ok((slice_subrange(buffer, PUBLIC_KEY_SIZE_BYTES, buffer.len()), key)),
            Err(_) => Err(DeserializeErrorKind::Fail),
        }
    }
}

/// A Schnorr signature: 64 bytes.
#[derive(Clone, Copy, Debug)]
pub struct Signature {
    bytes: [u8; 64],
}

impl View for Signature {
    type V = Seq<u8>;

    closed spec fn view(&self) -> Seq<u8> {
        self.bytes@
    }
}

impl PartialEq for Signature {
    fn eq(&self, other: &Signature) -> (r: bool) {
        eq64(&self.bytes, &other.bytes)
    }
}

impl Eq for Signature {}

impl vstd::std_specs::cmp::PartialEqSpecImpl for Signature {
    open spec fn obeys_eq_spec() -> bool {
        true
    }

    open spec fn eq_spec(&self, other: &Signature) -> bool {
        self@ == other@
    }
}

impl Signature {
    /// What reading a signature from bytes gives: the bytes, where they are 64.
    pub open spec fn spec_from_bytes(data: Seq<u8>) -> Option<Seq<u8>> {
        if data.len() == 64 {
            Some(data)
        } else {
            None
        }
    }

    /// What reading a signature from the UTF-8 bytes of a Base58Check text gives.
    pub open spec fn spec_from_bs58_check(text: Seq<u8>) -> Option<Seq<u8>> {
        match bs58check_decoded(text) {
            None => None,
            Some(data) => Signature::spec_from_bytes(data),
        }
    }

    /// The Base58Check text of the signature.
    pub fn to_bs58_check(&self) -> (text: String)
        ensures
            text@ == bs58check_encoded(self@),
    {
        bs58check_encode(self.bytes.as_slice())
    }

    /// The bytes of the signature.
    pub fn to_bytes(&self) -> (r: &[u8; 64])
        ensures
            r@ == self@,
    {
        &self.bytes
    }

    /// The bytes of the signature, by value.
    pub fn into_bytes(self) -> (r: [u8; 64])
        ensures
            r@ == self@,
    {
        self.bytes
    }

    /// Reads a signature from a slice, which must hold exactly 64 bytes.
    pub fn from_slice(data: &[u8]) -> (r: Result<Signature, MassaSignatureError>)
        ensures
            match Signature::spec_from_bytes(data@) {
                Some(signature) => r is Ok && r.unwrap()@ == signature,
                None => r matches Err(MassaSignatureError::ParsingError(_)),
            },
    {
        match schnorr_signature_from_slice(data) {
            Some(bytes) => Ok(Signature { bytes }),
            None => Err(
                MassaSignatureError::ParsingError("signature bytes parsing error".to_owned()),
            ),
        }
    }

    /// Reads a signature from the UTF-8 bytes of its Base58Check text.
    pub fn from_bs58_check_bytes(text: &[u8]) -> (r: Result<Signature, MassaSignatureError>)
        ensures
            match Signature::spec_from_bs58_check(text@) {
                Some(data) => r is Ok && r.unwrap()@ == data,
                None => r matches Err(MassaSignatureError::ParsingError(_)),
            },
    {
        match bs58check_decode(text) {
            None => Err(
                MassaSignatureError::ParsingError("signature bs58_check parsing error".to_owned()),
            ),
            Some(data) => Signature::from_slice(data.as_slice()),
        }
    }

    /// Reads a signature from its Base58Check text.
    pub fn from_bs58_check(data: &str) -> (r: Result<Signature, MassaSignatureError>)
        ensures
            match Signature::spec_from_bs58_check(data.spec_bytes()) {
                Some(signature) => r is Ok && r.unwrap()@ == signature,
                None => r matches Err(MassaSignatureError::ParsingError(_)),
            },
    {
        Signature::from_bs58_check_bytes(data.as_bytes())
    }

    /// Reads a signature from its 64 bytes: every such array is a signature.
    pub fn from_bytes(data: &[u8; 64]) -> (r: Result<Signature, MassaSignatureError>)
        ensures
            r is Ok,
            r.unwrap()@ == data@,
    {
        Signature::from_slice(data.as_slice())
    }

    /// The text form of the signature, with the `SIG-` prefix where `with_prefix` is
    /// set.
    pub fn to_string_prefixed(&self, with_prefix: bool) -> (text: String)
        ensures
            text@ == if with_prefix {
                "SIG-"@ + bs58check_encoded(self@)
            } else {
                bs58check_encoded(self@)
            },
    {
        let encoded = self.to_bs58_check();
        if with_prefix {
            "SIG-".to_owned().concat(encoded.as_str())
        } else {
            encoded
        }
    }

    /// The text form of the signature.
    pub fn to_string(&self) -> (text: String)
        ensures
            text@ == if HASH_PREFIX {
                "SIG-"@ + bs58check_encoded(self@)
            } else {
                bs58check_encoded(self@)
            },
    {
        self.to_string_prefixed(HASH_PREFIX)
    }

    /// Reads a signature from its text form. Where `with_prefix` is set and the
    /// text holds exactly one `-`, what stands before it must be `SIG` and what
    /// stands behind it is decoded; any other text is decoded whole.
    pub fn from_str_prefixed(s: &str, with_prefix: bool) -> (r: Result<
        Signature,
        MassaSignatureError,
    >)
        ensures
            match (if with_prefix {
                prefixed_body(s.spec_bytes(), signature_prefix())
            } else {
                Some(s.spec_bytes())
            }) {
                None => r matches Err(MassaSignatureError::WrongPrefix(_, found))
                    && encode_utf8(found@) == prefix_part(s.spec_bytes()),
                Some(body) => match Signature::spec_from_bs58_check(body) {
                    Some(signature) => r is Ok && r.unwrap()@ == signature,
                    None => r matches Err(MassaSignatureError::ParsingError(_)),
                },
            },
    {
        if with_prefix {
            let expected: [u8; 3] = [0x53u8, 0x49u8, 0x47u8];
            assert(expected@ =~= signature_prefix());
            match split_prefixed(s, expected.as_slice()) {
                Ok(body) => Signature::from_bs58_check_bytes(body),
                Err(found) => Err(MassaSignatureError::WrongPrefix("SIG".to_owned(), found)),
            }
        } else {
            Signature::from_bs58_check(s)
        }
    }

    /// Reads a signature from its text form.
    pub fn from_str(s: &str) -> (r: Result<Signature, MassaSignatureError>)
        ensures
            match (if HASH_PREFIX {
                prefixed_body(s.spec_bytes(), signature_prefix())
            } else {
                Some(s.spec_bytes())
            }) {
                None => r matches Err(MassaSignatureError::WrongPrefix(_, found))
                    && encode_utf8(found@) == prefix_part(s.spec_bytes()),
                Some(body) => match Signature::spec_from_bs58_check(body) {
                    Some(signature) => r is Ok && r.unwrap()@ == signature,
                    None => r matches Err(MassaSignatureError::ParsingError(_)),
                },
            },
    {
        Signature::from_str_prefixed(s, HASH_PREFIX)
    }
}

/// Reads a signature from a buffer that holds exactly its bytes.
#[derive(Clone, Copy, Debug, Default)]
pub struct SignatureDeserializer;

impl SignatureDeserializer {
    /// Creates a `SignatureDeserializer`.
    pub fn new() -> (r: SignatureDeserializer)
        ensures
            r == SignatureDeserializer,
    {
        SignatureDeserializer
    }

    /// Reads a signature from `buffer`. The buffer must hold exactly 64 bytes, else
    /// the error is `LengthValue`. What is left of the buffer behind the signature
    /// comes back with it, and is empty.
    pub fn deserialize<'a>(&self, buffer: &'a [u8]) -> (r: Result<
        (&'a [u8], Signature),
        DeserializeErrorKind,
    >)
        ensures
            buffer@.len() != 64 ==> r == Err::<(&[u8], Signature), _>(
                DeserializeErrorKind::LengthValue,
            ),
            buffer@.len() == 64 ==> r is Ok && r.unwrap().0@ == Seq::<u8>::empty()
                && r.unwrap().1@ == buffer@,
    {
        if buffer.len() != SIGNATURE_SIZE_BYTES {
            return Err(DeserializeErrorKind::LengthValue);
        }
        match Signature::from_slice(buffer) {
            Ok(signature) => Ok(
                (slice_subrange(buffer, SIGNATURE_SIZE_BYTES, buffer.len()), signature),
            ),
            Err(_) => Err(DeserializeErrorKind::Fail),
        }
    }
}

/// The public key of a private key.
pub open spec fn spec_derive_public_key(private_key: Seq<u8>) -> Seq<u8> {
    xonly_public_key_of(private_key)
}

/// Whether `signature` is accepted for `hash` under `public_key`.
pub open spec fn spec_verify_signature(
    hash: Seq<u8>,
    signature: Seq<u8>,
    public_key: Seq<u8>,
) -> bool {
    schnorr_verifies(signature, hash, public_key)
}

/// Derives the public key of a private key.
pub fn derive_public_key(private_key: &PrivateKey) -> (public_key: PublicKey)
    ensures
        public_key@ == spec_derive_public_key(private_key@),
{
    proof {
        use_type_invariant(private_key);
    }
    PublicKey { bytes: xonly_public_key(&private_key.bytes) }
}

/// Signs a hash with a private key. Signing draws randomness, so two signatures of
/// one hash may differ; every one of them is accepted by `verify_signature` for the
/// same hash under the public key derived from the signing key.
pub fn sign(hash: &crate::hash::Hash, private_key: &PrivateKey) -> (r: Result<
    Signature,
    MassaSignatureError,
>)
    ensures
        r is Ok,
        spec_verify_signature(hash@, r.unwrap()@, spec_derive_public_key(private_key@)),
{
    proof {
        use_type_invariant(private_key);
    }
    Ok(Signature { bytes: schnorr_sign(hash.to_bytes(), &private_key.bytes) })
}

/// Checks that `signature` is a signature of `hash` by the private key that
/// `public_key` was derived from.
pub fn verify_signature(
    hash: &crate::hash::Hash,
    signature: &Signature,
    public_key: &PublicKey,
) -> (r: Result<(), MassaSignatureError>)
    ensures
        r is Ok <==> spec_verify_signature(hash@, signature@, public_key@),
        r is Err ==> r matches Err(MassaSignatureError::SignatureError(_)),
{
    proof {
        use_type_invariant(public_key);
    }
    if schnorr_verify(&signature.bytes, hash.to_bytes(), &public_key.bytes) {
        Ok(())
    } else {
        Err(MassaSignatureError::SignatureError("signature failed verification".to_owned()))
    }
}

/// Generates a random private key.
pub fn generate_random_private_key() -> (private_key: PrivateKey)
    ensures
        PrivateKey::spec_from_bytes(private_key@) == Some(private_key@),
{
    PrivateKey { bytes: random_secret_key() }
}

} // verus!
