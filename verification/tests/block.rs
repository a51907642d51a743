use consensus_graph::block::{Block, BlockHeader, BlockHeaderContent};
use consensus_graph::block_id::BlockId;
use consensus_graph::endorsement::{Endorsement, EndorsementContent};
use consensus_graph::error::ModelsError;
use consensus_graph::serialization::SerializationContext;
use consensus_graph::signature::{derive_public_key, generate_random_private_key, sign};
use consensus_graph::slot::Slot;

fn hash(data: &str) -> consensus_graph::hash::Hash {
    consensus_graph::hash::Hash::compute_from(data.as_bytes())
}

fn context() -> SerializationContext {
    SerializationContext {
        max_block_size: 1024 * 1024,
        max_block_operations: 1024,
        parent_count: 3,
        max_block_endorsements: 8,
        max_bootstrap_blocks: 100,
    }
}

fn sample_content() -> (consensus_graph::signature::PrivateKey, BlockHeaderContent) {
    let private_key = generate_random_private_key();
    let public_key = derive_public_key(&private_key);
    let content = BlockHeaderContent {
        creator: public_key,
        slot: Slot::new(1, 2),
        parents: vec![BlockId(hash("abc")), BlockId(hash("def")), BlockId(hash("ghi"))],
        operation_merkle_root: hash("mno"),
        endorsements: vec![
            Endorsement {
                content: EndorsementContent {
                    sender_public_key: public_key,
                    slot: Slot::new(1, 1),
                    index: 1,
                    endorsed_block: BlockId(hash("blk1")),
                },
                signature: sign(&hash("dta"), &private_key).unwrap(),
            },
            Endorsement {
                content: EndorsementContent {
                    sender_public_key: public_key,
                    slot: Slot::new(4, 0),
                    index: 3,
                    endorsed_block: BlockId(hash("blk2")),
                },
                signature: sign(&hash("dat"), &private_key).unwrap(),
            },
        ],
    };
    (private_key, content)
}

#[test]
fn test_block_serialization() {
    let ctx = context();
    let (private_key, content) = sample_content();

    // create block header
    let (orig_id, orig_header) = BlockHeader::new_signed(&private_key, content).unwrap();

    // create block
    let orig_block = Block { header: orig_header, operations: vec![] };

    // serialize block
    let orig_bytes = orig_block.to_bytes_compact().unwrap();

    // deserialize
    let (res_block, res_size) = Block::from_bytes_compact(&orig_bytes, &ctx).unwrap();
    assert_eq!(orig_bytes.len(), res_size);

    // check equality
    let res_id = res_block.header.compute_block_id().unwrap();
    let generated_res_id = res_block.header.compute_block_id().unwrap();
    assert_eq!(orig_id, res_id);
    assert_eq!(orig_id, generated_res_id);
    assert_eq!(res_block.header.signature, orig_block.header.signature);
}

#[test]
fn block_encode_decode_encode_is_byte_identical() {
    let ctx = context();
    let (private_key, content) = sample_content();
    let (_, header) = BlockHeader::new_signed(&private_key, content).unwrap();
    let block = Block { header, operations: vec![] };
    let bytes = block.to_bytes_compact().unwrap();
    let (decoded, size) = Block::from_bytes_compact(&bytes, &ctx).unwrap();
    assert_eq!(size, bytes.len());
    assert_eq!(decoded.to_bytes_compact().unwrap(), bytes);
    assert_eq!(block.bytes_count().unwrap(), bytes.len() as u64);
    // trailing bytes are left alone
    let mut longer = bytes.clone();
    longer.extend_from_slice(&[1, 2, 3]);
    let (_, size) = Block::from_bytes_compact(&longer, &ctx).unwrap();
    assert_eq!(size, bytes.len());
}

#[test]
fn header_layout_is_as_documented() {
    let (private_key, content) = sample_content();
    let creator = content.creator.to_bytes();
    let (_, header) = BlockHeader::new_signed(&private_key, content).unwrap();
    let bytes = header.to_bytes_compact().unwrap();
    // creator key
    assert_eq!(&bytes[0..32], &creator[..]);
    // slot: period on 8 bytes, highest first, then the thread
    assert_eq!(&bytes[32..41], &[0, 0, 0, 0, 0, 0, 0, 1, 2]);
    // parents follow
    assert_eq!(bytes[41], 1);
    assert_eq!(&bytes[42..74], &hash("abc").into_bytes()[..]);
    assert_eq!(&bytes[74..106], &hash("def").into_bytes()[..]);
    assert_eq!(&bytes[106..138], &hash("ghi").into_bytes()[..]);
    // root
    assert_eq!(&bytes[138..170], &hash("mno").into_bytes()[..]);
    // two endorsements
    assert_eq!(bytes[170], 2);
    // each endorsement: key 32, slot 9, index 1, block 32, signature 64
    assert_eq!(bytes.len(), 171 + 2 * (32 + 9 + 1 + 32 + 64) + 64);
    assert_eq!(&bytes[bytes.len() - 64..], &header.signature.to_bytes()[..]);
    assert_eq!(header.get_fitness(), 3);
}

#[test]
fn genesis_like_header_has_no_parents() {
    let ctx = context();
    let private_key = generate_random_private_key();
    let content = BlockHeaderContent {
        creator: derive_public_key(&private_key),
        slot: Slot::new(0, 1),
        parents: vec![],
        operation_merkle_root: hash(""),
        endorsements: vec![],
    };
    let (_, header) = BlockHeader::new_signed(&private_key, content).unwrap();
    let bytes = header.to_bytes_compact().unwrap();
    assert_eq!(bytes[41], 0);
    assert_eq!(bytes.len(), 32 + 9 + 1 + 32 + 1 + 64);
    let (decoded, n) = BlockHeader::from_bytes_compact(&bytes, &ctx).unwrap();
    assert_eq!(n, bytes.len());
    assert!(decoded.content.parents.is_empty());
    assert_eq!(decoded.get_fitness(), 1);
    assert!(decoded.check_signature().is_ok());
}

#[test]
fn signed_header_checks_and_tampering_fails() {
    let (private_key, content) = sample_content();
    let (id, mut header) = BlockHeader::new_signed(&private_key, content).unwrap();
    assert!(header.check_signature().is_ok());
    assert_eq!(header.compute_block_id().unwrap(), id);
    let content_hash = header.content.compute_hash().unwrap();
    assert!(header.verify_signature(&content_hash).is_ok());
    assert!(BlockHeader::verify_slot_hash_signature(
        &header.content.slot,
        &content_hash,
        &header.signature,
        &header.content.creator
    )
    .is_ok());
    // another slot: the signature no longer fits
    header.content.slot = Slot::new(1, 1);
    assert_eq!(header.check_signature(), Err(ModelsError::SignatureError));
    assert_ne!(header.compute_block_id().unwrap(), id);
}

#[test]
fn decoding_errors() {
    let ctx = context();
    let (private_key, content) = sample_content();
    let (_, header) = BlockHeader::new_signed(&private_key, content).unwrap();
    let block = Block { header, operations: vec![] };
    let bytes = block.to_bytes_compact().unwrap();

    // cut short
    assert_eq!(Block::from_bytes_compact(&bytes[..10], &ctx).unwrap_err(), ModelsError::BufferError);
    assert_eq!(
        Block::from_bytes_compact(&bytes[..bytes.len() - 1], &ctx).unwrap_err(),
        ModelsError::VarintError
    );
    assert_eq!(
        Block::from_bytes_compact(&bytes[..bytes.len() - 2], &ctx).unwrap_err(),
        ModelsError::BufferError
    );
    // a key that is not on the curve
    let mut bad = bytes.clone();
    for b in bad[0..32].iter_mut() {
        *b = 0xFF;
    }
    assert_eq!(Block::from_bytes_compact(&bad, &ctx).unwrap_err(), ModelsError::InvalidPublicKey);
    // a thread out of range
    let mut bad = bytes.clone();
    bad[40] = 3;
    assert_eq!(
        Block::from_bytes_compact(&bad, &ctx).unwrap_err(),
        ModelsError::ThreadOverflowError
    );
    // a bad flag
    let mut bad = bytes.clone();
    bad[41] = 2;
    assert_eq!(Block::from_bytes_compact(&bad, &ctx).unwrap_err(), ModelsError::BadParentsFlag);
    // too many endorsements
    let mut small = ctx;
    small.max_block_endorsements = 1;
    assert_eq!(Block::from_bytes_compact(&bytes, &small).unwrap_err(), ModelsError::LimitExceeded);
    // too large
    let mut small = ctx;
    small.max_block_size = 100;
    assert_eq!(Block::from_bytes_compact(&bytes, &small).unwrap_err(), ModelsError::BlockTooLarge);
    // too many operations announced
    let mut bad = bytes.clone();
    let last = bad.len() - 1;
    bad[last] = 0x7f;
    let mut small = ctx;
    small.max_block_operations = 10;
    assert_eq!(Block::from_bytes_compact(&bad, &small).unwrap_err(), ModelsError::LimitExceeded);
}

#[test]
fn block_id_text_and_bytes() {
    let id = BlockId(hash("abc"));
    assert_eq!(BlockId::from_bytes(&id.to_bytes()).unwrap(), id);
    assert_eq!(BlockId::from_bytes(&id.into_bytes()).unwrap(), id);
    let text = id.to_string();
    assert_eq!(text, bs58::encode(id.to_bytes()).with_check().into_string());
    assert_eq!(BlockId::from_bs58_check(&text).unwrap(), id);
    assert_eq!(BlockId::from_str(&text).unwrap(), id);
    assert_eq!(BlockId::from_bs58_check("0OIl").unwrap_err(), ModelsError::HashError);
    let short = bs58::encode([1u8, 2, 3]).with_check().into_string();
    assert_eq!(BlockId::from_bs58_check(&short).unwrap_err(), ModelsError::HashError);
    // first bit of the hash of the identifier
    let digest = consensus_graph::hash::Hash::compute_from(&id.to_bytes()).into_bytes();
    assert_eq!(id.get_first_bit(), digest[0] >> 7 == 1);
    // order is the order of the bytes
    let a = BlockId(consensus_graph::hash::Hash::from_bytes(&[1u8; 32]));
    let mut high = [1u8; 32];
    high[31] = 2;
    let b = BlockId(consensus_graph::hash::Hash::from_bytes(&high));
    assert!(a.is_before(&b));
    assert!(!b.is_before(&a));
    assert!(!a.is_before(&a));
}
