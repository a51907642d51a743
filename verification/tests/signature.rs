use consensus_graph::signature::{
    derive_public_key, generate_random_private_key, sign, verify_signature, DeserializeErrorKind,
    MassaSignatureError, PrivateKey, PublicKey, PublicKeyDeserializer, Signature,
    SignatureDeserializer,
};

#[test]
fn test_example() {
    let private_key = generate_random_private_key();
    let public_key = derive_public_key(&private_key);
    let message = "Hello World!".as_bytes();
    let hash = consensus_graph::hash::Hash::compute_from(message);
    let signature = sign(&hash, &private_key).unwrap();
    assert!(verify_signature(&hash, &signature, &public_key).is_ok())
}

// What serde is handed for a key or a signature when the format is for people:
// its base58check text.
struct AsText<T>(T);

impl serde::Serialize for AsText<PrivateKey> {
    fn serialize<S: serde::Serializer>(&self, s: S) -> Result<S::Ok, S::Error> {
        s.collect_str(&self.0.to_bs58_check())
    }
}

impl<'de> serde::Deserialize<'de> for AsText<PrivateKey> {
    fn deserialize<D: serde::Deserializer<'de>>(d: D) -> Result<Self, D::Error> {
        let text = <String as serde::Deserialize>::deserialize(d)?;
        PrivateKey::from_bs58_check(&text)
            .map(AsText)
            .map_err(|e| <D::Error as serde::de::Error>::custom(format!("{:?}", e)))
    }
}

impl serde::Serialize for AsText<PublicKey> {
    fn serialize<S: serde::Serializer>(&self, s: S) -> Result<S::Ok, S::Error> {
        s.collect_str(&self.0.to_bs58_check())
    }
}

impl<'de> serde::Deserialize<'de> for AsText<PublicKey> {
    fn deserialize<D: serde::Deserializer<'de>>(d: D) -> Result<Self, D::Error> {
        let text = <String as serde::Deserialize>::deserialize(d)?;
        PublicKey::from_bs58_check(&text)
            .map(AsText)
            .map_err(|e| <D::Error as serde::de::Error>::custom(format!("{:?}", e)))
    }
}

impl serde::Serialize for AsText<Signature> {
    fn serialize<S: serde::Serializer>(&self, s: S) -> Result<S::Ok, S::Error> {
        s.collect_str(&self.0.to_bs58_check())
    }
}

impl<'de> serde::Deserialize<'de> for AsText<Signature> {
    fn deserialize<D: serde::Deserializer<'de>>(d: D) -> Result<Self, D::Error> {
        let text = <String as serde::Deserialize>::deserialize(d)?;
        Signature::from_bs58_check(&text)
            .map(AsText)
            .map_err(|e| <D::Error as serde::de::Error>::custom(format!("{:?}", e)))
    }
}

#[test]
fn test_serde_private_key() {
    let private_key = generate_random_private_key();
    let serialized =
        serde_json::to_string(&AsText(private_key)).expect("could not serialize private key");
    let deserialized: AsText<PrivateKey> =
        serde_json::from_str(&serialized).expect("could not deserialize private key");
    assert_eq!(private_key, deserialized.0);
}

#[test]
fn test_serde_public_key() {
    let private_key = generate_random_private_key();
    let public_key = derive_public_key(&private_key);
    let serialized =
        serde_json::to_string(&AsText(public_key)).expect("Could not serialize public key");
    let deserialized: AsText<PublicKey> =
        serde_json::from_str(&serialized).expect("could not deserialize public key");
    assert_eq!(public_key, deserialized.0);
}

#[test]
fn test_serde_signature() {
    let private_key = generate_random_private_key();
    let message = "Hello World!".as_bytes();
    let hash = consensus_graph::hash::Hash::compute_from(message);
    let signature = sign(&hash, &private_key).unwrap();
    let serialized =
        serde_json::to_string(&AsText(signature)).expect("could not serialize signature key");
    let deserialized: AsText<Signature> =
        serde_json::from_str(&serialized).expect("could not deserialize signature key");
    assert_eq!(signature, deserialized.0);
}

#[test]
fn tampered_hash_fails_verification() {
    let private_key = generate_random_private_key();
    let public_key = derive_public_key(&private_key);
    let hash = consensus_graph::hash::Hash::compute_from("Hello World!".as_bytes());
    let other = consensus_graph::hash::Hash::compute_from("Hello World?".as_bytes());
    let signature = sign(&hash, &private_key).unwrap();
    assert!(verify_signature(&hash, &signature, &public_key).is_ok());
    assert!(matches!(
        verify_signature(&other, &signature, &public_key),
        Err(MassaSignatureError::SignatureError(_))
    ));
}

#[test]
fn signature_of_another_key_fails_verification() {
    let key_a = generate_random_private_key();
    let key_b = generate_random_private_key();
    let hash = consensus_graph::hash::Hash::compute_from(b"payload");
    let signature = sign(&hash, &key_a).unwrap();
    assert!(verify_signature(&hash, &signature, &derive_public_key(&key_b)).is_err());
}

#[test]
fn known_secret_key_gives_known_public_key() {
    // BIP-340 test vector 0: secret key 3, and its x-only public key.
    let mut secret = [0u8; 32];
    secret[31] = 3;
    let private_key = PrivateKey::from_bytes(&secret).unwrap();
    let public_key = derive_public_key(&private_key);
    let expected: [u8; 32] = [
        0xF9, 0x30, 0x8A, 0x01, 0x92, 0x58, 0xC3, 0x10, 0x49, 0x34, 0x4F, 0x85, 0xF8, 0x9D, 0x52,
        0x29, 0xB5, 0x31, 0xC8, 0x45, 0x83, 0x6F, 0x99, 0xB0, 0x86, 0x01, 0xF1, 0x13, 0xBC, 0xE0,
        0x36, 0xF9,
    ];
    assert_eq!(public_key.to_bytes(), expected);
    assert_eq!(private_key.to_bytes(), secret);
    assert_eq!(private_key.into_bytes(), secret);
    assert_eq!(public_key.into_bytes(), expected);
}

#[test]
fn zero_is_not_a_private_key() {
    assert!(matches!(
        PrivateKey::from_bytes(&[0u8; 32]),
        Err(MassaSignatureError::ParsingError(_))
    ));
    // The group order itself is out of range too.
    let order: [u8; 32] = [
        0xFF, 0xFF, 0xFF, 0xFF, 0xFF, 0xFF, 0xFF, 0xFF, 0xFF, 0xFF, 0xFF, 0xFF, 0xFF, 0xFF, 0xFF,
        0xFE, 0xBA, 0xAE, 0xDC, 0xE6, 0xAF, 0x48, 0xA0, 0x3B, 0xBF, 0xD2, 0x5E, 0x8C, 0xD0, 0x36,
        0x41, 0x41,
    ];
    assert!(PrivateKey::from_bytes(&order).is_err());
}

#[test]
fn bytes_off_the_curve_are_not_a_public_key() {
    // x = 5 has no point on secp256k1.
    let mut data = [0u8; 32];
    data[31] = 5;
    assert!(matches!(PublicKey::from_bytes(&data), Err(MassaSignatureError::ParsingError(_))));
    assert!(PublicKey::from_bytes(&[0xFFu8; 32]).is_err());
}

#[test]
fn keys_round_trip_through_bytes_and_text() {
    let private_key = generate_random_private_key();
    let public_key = derive_public_key(&private_key);
    assert_eq!(PrivateKey::from_bytes(&private_key.to_bytes()).unwrap(), private_key);
    assert_eq!(PublicKey::from_bytes(&public_key.to_bytes()).unwrap(), public_key);
    assert_eq!(PrivateKey::from_str(&private_key.to_string()).unwrap(), private_key);
    assert_eq!(PublicKey::from_str(&public_key.to_string()).unwrap(), public_key);
    let signature = sign(&consensus_graph::hash::Hash::compute_from(b"x"), &private_key).unwrap();
    assert_eq!(Signature::from_bytes(signature.to_bytes()).unwrap(), signature);
    assert_eq!(Signature::from_bytes(&signature.into_bytes()).unwrap(), signature);
    assert_eq!(Signature::from_str(&signature.to_string()).unwrap(), signature);
}

#[test]
fn text_form_is_base58check_of_the_bytes() {
    let mut secret = [0u8; 32];
    secret[31] = 1;
    let private_key = PrivateKey::from_bytes(&secret).unwrap();
    let text = private_key.to_bs58_check();
    assert_eq!(text, bs58::encode(secret).with_check().into_string());
    assert_ne!(text.as_bytes(), &secret[..]);
    assert_eq!(private_key.to_string_prefixed(false), text);
    assert_eq!(private_key.to_string_prefixed(true), format!("PRI-{}", text));
    let public_key = derive_public_key(&private_key);
    assert_eq!(
        public_key.to_string_prefixed(true),
        format!("PUB-{}", public_key.to_bs58_check())
    );
    let signature = sign(&consensus_graph::hash::Hash::compute_from(b"x"), &private_key).unwrap();
    assert_eq!(
        signature.to_string_prefixed(true),
        format!("SIG-{}", signature.to_bs58_check())
    );
}

#[test]
fn prefixed_text_is_read_back() {
    let private_key = generate_random_private_key();
    let public_key = derive_public_key(&private_key);
    let signature = sign(&consensus_graph::hash::Hash::compute_from(b"x"), &private_key).unwrap();
    let pri = private_key.to_string_prefixed(true);
    let pubk = public_key.to_string_prefixed(true);
    let sig = signature.to_string_prefixed(true);
    assert_eq!(PrivateKey::from_str_prefixed(&pri, true).unwrap(), private_key);
    assert_eq!(PublicKey::from_str_prefixed(&pubk, true).unwrap(), public_key);
    assert_eq!(Signature::from_str_prefixed(&sig, true).unwrap(), signature);
    // Without a prefix the text is decoded whole.
    assert_eq!(
        PrivateKey::from_str_prefixed(&private_key.to_bs58_check(), true).unwrap(),
        private_key
    );
    // With prefixes off, the dash is not Base58.
    assert!(matches!(
        PrivateKey::from_str_prefixed(&pri, false),
        Err(MassaSignatureError::ParsingError(_))
    ));
}

#[test]
fn wrong_prefix_is_reported_with_what_was_found() {
    let private_key = generate_random_private_key();
    let text = format!("PUB-{}", private_key.to_bs58_check());
    match PrivateKey::from_str_prefixed(&text, true) {
        Err(MassaSignatureError::WrongPrefix(expected, found)) => {
            assert_eq!(expected, "PRI");
            assert_eq!(found, "PUB");
        }
        _ => panic!("expected a wrong prefix error"),
    }
    match PublicKey::from_str_prefixed("SIG-abc", true) {
        Err(MassaSignatureError::WrongPrefix(expected, found)) => {
            assert_eq!(expected, "PUB");
            assert_eq!(found, "SIG");
        }
        _ => panic!("expected a wrong prefix error"),
    }
    match Signature::from_str_prefixed("-abc", true) {
        Err(MassaSignatureError::WrongPrefix(expected, found)) => {
            assert_eq!(expected, "SIG");
            assert_eq!(found, "");
        }
        _ => panic!("expected a wrong prefix error"),
    }
    // Two dashes: no prefix is looked for, and the text does not decode.
    assert!(matches!(
        PrivateKey::from_str_prefixed("PRI-a-b", true),
        Err(MassaSignatureError::ParsingError(_))
    ));
}

#[test]
fn bad_text_is_a_parsing_error() {
    assert!(matches!(
        PrivateKey::from_bs58_check("not base58 0OIl"),
        Err(MassaSignatureError::ParsingError(_))
    ));
    // Valid Base58Check of the wrong length.
    let short = bs58::encode([1u8, 2, 3]).with_check().into_string();
    assert!(matches!(
        PrivateKey::from_bs58_check(&short),
        Err(MassaSignatureError::ParsingError(_))
    ));
    assert!(matches!(
        PublicKey::from_bs58_check(&short),
        Err(MassaSignatureError::ParsingError(_))
    ));
    assert!(matches!(
        Signature::from_bs58_check(&short),
        Err(MassaSignatureError::ParsingError(_))
    ));
    // A flipped character breaks the checksum.
    let key = generate_random_private_key();
    let mut text = key.to_bs58_check().into_bytes();
    let last = text.len() - 1;
    text[last] = if text[last] == b'1' { b'2' } else { b'1' };
    assert!(PrivateKey::from_bs58_check(std::str::from_utf8(&text).unwrap()).is_err());
}

#[test]
fn deserializers_ask_for_the_exact_length() {
    let private_key = generate_random_private_key();
    let public_key = derive_public_key(&private_key);
    let signature = sign(&consensus_graph::hash::Hash::compute_from(b"x"), &private_key).unwrap();

    let key_bytes = public_key.to_bytes();
    let (rest, key) = PublicKeyDeserializer::new().deserialize(&key_bytes).unwrap();
    assert!(rest.is_empty());
    assert_eq!(key, public_key);
    assert_eq!(
        PublicKeyDeserializer::new().deserialize(&key_bytes[..31]).unwrap_err(),
        DeserializeErrorKind::LengthValue
    );
    let mut long = key_bytes.to_vec();
    long.push(0);
    assert_eq!(
        PublicKeyDeserializer::new().deserialize(&long).unwrap_err(),
        DeserializeErrorKind::LengthValue
    );
    let mut off_curve = [0u8; 32];
    off_curve[31] = 5;
    assert_eq!(
        PublicKeyDeserializer::new().deserialize(&off_curve).unwrap_err(),
        DeserializeErrorKind::Fail
    );

    let sig_bytes = signature.into_bytes();
    let (rest, sig) = SignatureDeserializer::new().deserialize(&sig_bytes).unwrap();
    assert!(rest.is_empty());
    assert_eq!(sig, signature);
    assert_eq!(
        SignatureDeserializer::new().deserialize(&sig_bytes[..63]).unwrap_err(),
        DeserializeErrorKind::LengthValue
    );
    assert!(Signature::from_slice(&sig_bytes[..10]).is_err());
}

#[test]
fn hash_is_blake3() {
    // BLAKE3 of the empty input.
    let expected: [u8; 32] = [
        0xaf, 0x13, 0x49, 0xb9, 0xf5, 0xf9, 0xa1, 0xa6, 0xa0, 0x40, 0x4d, 0xea, 0x36, 0xdc, 0xc9,
        0x49, 0x9b, 0xcb, 0x25, 0xc9, 0xad, 0xc1, 0x12, 0xb7, 0xcc, 0x9a, 0x93, 0xca, 0xe4, 0x1f,
        0x32, 0x62,
    ];
    assert_eq!(consensus_graph::hash::Hash::compute_from(&[]).into_bytes(), expected);
    assert_ne!(consensus_graph::hash::Hash::compute_from(b"a"), consensus_graph::hash::Hash::compute_from(b"b"));
    let h = consensus_graph::hash::Hash::compute_from(b"abc");
    assert_eq!(consensus_graph::hash::Hash::from_bytes(h.to_bytes()), h);
    assert_eq!(consensus_graph::hash::Hash::from_bs58_check(&h.to_bs58_check()).unwrap(), h);
}
