use consensus_graph::address::{address_list_contains, address_list_insert, Address};
use consensus_graph::amount::Amount;
use consensus_graph::block::{Block, BlockHeader, BlockHeaderContent};
use consensus_graph::block_id::BlockId;
use consensus_graph::bootstrap::{BootstrapableGraph, ExportActiveBlock};
use consensus_graph::bytes::{compare_bytes, Order};
use consensus_graph::endorsement::{Endorsement, EndorsementContent};
use consensus_graph::error::ModelsError;
use consensus_graph::operation::{Operation, OperationContent, OperationType};
use consensus_graph::serialization::{
    u32_from_varint_bounded, u64_from_be_bytes, u64_from_varint, u64_from_varint_bounded,
    u64_to_be_bytes, u64_to_varint, SerializationContext,
};
use consensus_graph::signature::{
    derive_public_key, generate_random_private_key, sign, PrivateKey,
};
use consensus_graph::slot::Slot;

fn hash(data: &str) -> consensus_graph::hash::Hash {
    consensus_graph::hash::Hash::compute_from(data.as_bytes())
}

fn context() -> SerializationContext {
    SerializationContext {
        max_block_size: 1024 * 1024,
        max_block_operations: 1024,
        parent_count: 2,
        max_block_endorsements: 8,
        max_bootstrap_blocks: 100,
    }
}

fn varint(v: u64) -> Vec<u8> {
    let mut out = Vec::new();
    u64_to_varint(v, &mut out);
    out
}

#[test]
fn varint_values() {
    assert_eq!(varint(0), vec![0]);
    assert_eq!(varint(1), vec![1]);
    assert_eq!(varint(127), vec![0x7F]);
    assert_eq!(varint(128), vec![0x80, 0x01]);
    assert_eq!(varint(300), vec![0xAC, 0x02]);
    assert_eq!(varint(16383), vec![0xFF, 0x7F]);
    assert_eq!(varint(16384), vec![0x80, 0x80, 0x01]);
    assert_eq!(
        varint(u64::MAX),
        vec![0xFF, 0xFF, 0xFF, 0xFF, 0xFF, 0xFF, 0xFF, 0xFF, 0xFF, 0x01]
    );
    // what is in the buffer stays
    let mut out = vec![9];
    u64_to_varint(1, &mut out);
    assert_eq!(out, vec![9, 1]);
}

#[test]
fn varint_reading() {
    for v in [0u64, 1, 127, 128, 300, 16384, 1 << 32, u64::MAX - 1, u64::MAX] {
        let mut bytes = varint(v);
        let n = bytes.len();
        bytes.push(0xFF);
        assert_eq!(u64_from_varint(&bytes), Ok((v, n)));
    }
    // cut short
    assert_eq!(u64_from_varint(&[]), Err(ModelsError::VarintError));
    assert_eq!(u64_from_varint(&[0x80]), Err(ModelsError::VarintError));
    // not the shortest form
    assert_eq!(u64_from_varint(&[0x80, 0x00]), Err(ModelsError::VarintError));
    assert_eq!(u64_from_varint(&[0xFF, 0x80, 0x00]), Err(ModelsError::VarintError));
    // one more than the largest value
    assert_eq!(
        u64_from_varint(&[0x80, 0x80, 0x80, 0x80, 0x80, 0x80, 0x80, 0x80, 0x80, 0x02]),
        Err(ModelsError::VarintError)
    );
    // too many bytes
    assert_eq!(u64_from_varint(&[0xFF; 20]), Err(ModelsError::VarintError));
    // bounds
    assert_eq!(u64_from_varint_bounded(&[0x05], 5), Ok((5, 1)));
    assert_eq!(u64_from_varint_bounded(&[0x06], 5), Err(ModelsError::LimitExceeded));
    assert_eq!(u32_from_varint_bounded(&[0xAC, 0x02], 300), Ok((300, 2)));
    assert_eq!(u32_from_varint_bounded(&[0xAC, 0x02], 299), Err(ModelsError::LimitExceeded));
    assert_eq!(
        u32_from_varint_bounded(&varint(1 << 32), u32::MAX),
        Err(ModelsError::LimitExceeded)
    );
}

#[test]
fn big_endian_words() {
    let mut out = vec![7];
    u64_to_be_bytes(0x0102030405060708, &mut out);
    assert_eq!(out, vec![7, 1, 2, 3, 4, 5, 6, 7, 8]);
    assert_eq!(u64_from_be_bytes(&out, 1), 0x0102030405060708);
    let mut out = Vec::new();
    u64_to_be_bytes(u64::MAX, &mut out);
    assert_eq!(out, vec![0xFF; 8]);
    assert_eq!(u64_from_be_bytes(&out, 0), u64::MAX);
    let mut out = Vec::new();
    u64_to_be_bytes(1, &mut out);
    assert_eq!(out, vec![0, 0, 0, 0, 0, 0, 0, 1]);
}

#[test]
fn slots_on_the_wire() {
    let slot = Slot::new(258, 3);
    assert_eq!(slot.to_bytes_key(), vec![0, 0, 0, 0, 0, 0, 1, 2, 3]);
    assert_eq!(Slot::from_bytes(&slot.to_bytes_key(), 4), Ok(slot));
    assert_eq!(Slot::from_bytes(&slot.to_bytes_key(), 3), Err(ModelsError::ThreadOverflowError));
    assert_eq!(Slot::from_bytes(&[0; 8], 4), Err(ModelsError::BufferError));
    // the bytes sort as the slots do
    let earlier = Slot::new(257, 200);
    assert!(earlier.to_bytes_key() < slot.to_bytes_key());
    assert!(earlier < slot);
    assert!(earlier.is_before(&slot));
    assert!(!slot.is_before(&earlier));
    assert!(!slot.is_before(&slot));
    assert!(slot.is_before_or_at(&slot));
    assert!(Slot::new(1, 0).is_before(&Slot::new(1, 1)));
}

#[test]
fn next_slot_and_cycle() {
    assert_eq!(Slot::new(1, 0).get_next_slot(2), Ok(Slot::new(1, 1)));
    assert_eq!(Slot::new(1, 1).get_next_slot(2), Ok(Slot::new(2, 0)));
    assert_eq!(Slot::new(1, 255).get_next_slot(255), Ok(Slot::new(2, 0)));
    assert_eq!(Slot::new(u64::MAX, 0).get_next_slot(2), Ok(Slot::new(u64::MAX, 1)));
    assert_eq!(
        Slot::new(u64::MAX, 1).get_next_slot(2),
        Err(ModelsError::PeriodOverflowError)
    );
    assert_eq!(Slot::new(0, 0).get_cycle(128), 0);
    assert_eq!(Slot::new(127, 1).get_cycle(128), 0);
    assert_eq!(Slot::new(128, 0).get_cycle(128), 1);
    assert_eq!(Slot::new(1000, 0).get_cycle(128), 7);
}

fn operation(key: &PrivateKey, op: OperationType) -> Operation {
    Operation {
        content: OperationContent {
            sender_public_key: derive_public_key(key),
            fee: Amount::from_raw(20),
            expire_period: 300,
            op,
        },
        signature: sign(&hash("op"), key).unwrap(),
    }
}

#[test]
fn operations_on_the_wire() {
    let key = generate_random_private_key();
    let recipient = Address(hash("recipient"));
    let ops = vec![
        operation(
            &key,
            OperationType::Transaction { recipient_address: recipient, amount: Amount::from_raw(128) },
        ),
        operation(&key, OperationType::RollBuy { roll_count: 5 }),
        operation(&key, OperationType::RollSell { roll_count: 0 }),
    ];
    let pk = derive_public_key(&key).to_bytes();
    for op in &ops {
        let bytes = op.to_bytes_compact().unwrap();
        // fee, last period, sender
        assert_eq!(&bytes[0..3], &[20, 0xAC, 0x02]);
        assert_eq!(&bytes[3..35], &pk[..]);
        assert_eq!(&bytes[bytes.len() - 64..], &op.signature.to_bytes()[..]);
        let mut longer = bytes.clone();
        longer.push(1);
        let (read, n) = Operation::from_bytes_compact(&longer).unwrap();
        assert_eq!(n, bytes.len());
        assert_eq!(read.to_bytes_compact().unwrap(), bytes);
        assert_eq!(read.get_operation_id().unwrap(), op.get_operation_id().unwrap());
        assert_eq!(
            op.get_operation_id().unwrap().0,
            consensus_graph::hash::Hash::compute_from(&bytes)
        );
    }
    let tx = ops[0].to_bytes_compact().unwrap();
    assert_eq!(tx[35], 0);
    assert_eq!(&tx[36..68], &recipient.to_bytes()[..]);
    assert_eq!(&tx[68..70], &[0x80, 0x01]);
    assert_eq!(tx.len(), 70 + 64);
    let buy = ops[1].to_bytes_compact().unwrap();
    assert_eq!(&buy[35..37], &[1, 5]);
    let sell = ops[2].to_bytes_compact().unwrap();
    assert_eq!(&sell[35..37], &[2, 0]);
    // an unknown kind
    let mut bad = buy.clone();
    bad[35] = 3;
    assert_eq!(Operation::from_bytes_compact(&bad).unwrap_err(), ModelsError::InvalidOperationType);
    // cut short
    assert_eq!(
        Operation::from_bytes_compact(&buy[..buy.len() - 1]).unwrap_err(),
        ModelsError::BufferError
    );
    // a sender that is no key
    let mut bad = buy.clone();
    for b in bad[3..35].iter_mut() {
        *b = 0xFF;
    }
    assert_eq!(Operation::from_bytes_compact(&bad).unwrap_err(), ModelsError::InvalidPublicKey);
}

#[test]
fn addresses_involved_in_operations() {
    let key = generate_random_private_key();
    let sender = Address::from_public_key(&derive_public_key(&key));
    assert_eq!(
        sender.to_bytes(),
        consensus_graph::hash::Hash::compute_from(&derive_public_key(&key).to_bytes()).to_bytes()
    );
    let recipient = Address(hash("recipient"));
    let target = Address(hash("creator"));
    let tx = operation(
        &key,
        OperationType::Transaction { recipient_address: recipient, amount: Amount::from_raw(1) },
    );
    let buy = operation(&key, OperationType::RollBuy { roll_count: 5 });
    assert_eq!(
        tx.get_ledger_involved_addresses(Some(target)).unwrap(),
        vec![target, sender, recipient]
    );
    assert_eq!(tx.get_ledger_involved_addresses(None).unwrap(), vec![sender, recipient]);
    assert_eq!(buy.get_ledger_involved_addresses(Some(sender)).unwrap(), vec![sender]);
    assert!(tx.get_roll_involved_addresses().unwrap().is_empty());
    assert_eq!(buy.get_roll_involved_addresses().unwrap(), vec![sender]);

    let mut list = vec![sender];
    address_list_insert(&mut list, sender);
    address_list_insert(&mut list, recipient);
    assert_eq!(list, vec![sender, recipient]);
    assert!(address_list_contains(&list, &recipient));
    assert!(!address_list_contains(&list, &target));
}

fn block_with(key: &PrivateKey, operations: Vec<Operation>) -> Block {
    let content = BlockHeaderContent {
        creator: derive_public_key(key),
        slot: Slot::new(3, 1),
        parents: vec![BlockId(hash("left")), BlockId(hash("right"))],
        operation_merkle_root: hash("root"),
        endorsements: vec![Endorsement {
            content: EndorsementContent {
                sender_public_key: derive_public_key(key),
                slot: Slot::new(2, 1),
                index: 200,
                endorsed_block: BlockId(hash("right")),
            },
            signature: sign(&hash("e"), key).unwrap(),
        }],
    };
    let (_, header) = BlockHeader::new_signed(key, content).unwrap();
    Block { header, operations }
}

#[test]
fn block_with_operations() {
    let ctx = context();
    let creator_key = generate_random_private_key();
    let key_a = generate_random_private_key();
    let key_b = generate_random_private_key();
    let a = Address::from_public_key(&derive_public_key(&key_a));
    let b = Address::from_public_key(&derive_public_key(&key_b));
    let creator = Address::from_public_key(&derive_public_key(&creator_key));
    let tx = operation(
        &key_a,
        OperationType::Transaction { recipient_address: b, amount: Amount::from_raw(1) },
    );
    let buy = operation(&key_b, OperationType::RollBuy { roll_count: 5 });
    let sell = operation(&key_a, OperationType::RollSell { roll_count: 1 });
    let other = operation(&key_a, OperationType::RollBuy { roll_count: 77 });
    let block = block_with(&creator_key, vec![tx, buy, sell]);

    // the wire
    let bytes = block.to_bytes_compact().unwrap();
    let (read, n) = Block::from_bytes_compact(&bytes, &ctx).unwrap();
    assert_eq!(n, bytes.len());
    assert_eq!(read.operations.len(), 3);
    assert_eq!(read.to_bytes_compact().unwrap(), bytes);
    assert_eq!(block.bytes_count().unwrap(), bytes.len() as u64);
    let header_len = block.header.to_bytes_compact().unwrap().len();
    assert_eq!(bytes[header_len], 3);
    // an endorsement with index 200 takes two bytes for it
    assert_eq!(header_len, 32 + 9 + 1 + 64 + 32 + 1 + (32 + 9 + 2 + 32 + 64) + 64);

    // limits
    let mut small = ctx;
    small.max_block_operations = 2;
    assert_eq!(Block::from_bytes_compact(&bytes, &small).unwrap_err(), ModelsError::LimitExceeded);
    let mut small = ctx;
    small.max_block_size = (bytes.len() - 1) as u32;
    assert_eq!(Block::from_bytes_compact(&bytes, &small).unwrap_err(), ModelsError::BlockTooLarge);
    let mut exact = ctx;
    exact.max_block_size = bytes.len() as u32;
    assert!(Block::from_bytes_compact(&bytes, &exact).is_ok());

    // what the block holds
    assert_eq!(block.contains_operation(&tx), Ok(true));
    assert_eq!(block.contains_operation(&sell), Ok(true));
    assert_eq!(block.contains_operation(&other), Ok(false));
    assert_eq!(block.get_roll_involved_addresses().unwrap(), vec![b, a]);
    let id = |op: &Operation| op.get_operation_id().unwrap();
    assert_eq!(
        block.involved_addresses().unwrap(),
        vec![
            (creator, vec![id(&tx), id(&buy), id(&sell)]),
            (a, vec![id(&tx), id(&sell)]),
            (b, vec![id(&tx), id(&buy)]),
        ]
    );
    let empty = block_with(&creator_key, vec![]);
    assert!(empty.involved_addresses().unwrap().is_empty());
    assert!(empty.get_roll_involved_addresses().unwrap().is_empty());
}

#[test]
fn snapshot_round_trip() {
    let ctx = context();
    let key = generate_random_private_key();
    let with_parents = ExportActiveBlock {
        block: block_with(&key, vec![operation(&key, OperationType::RollBuy { roll_count: 5 })]),
        parents: vec![(BlockId(hash("left")), 2), (BlockId(hash("right")), 300)],
        is_final: true,
    };
    let without = ExportActiveBlock { block: block_with(&key, vec![]), parents: vec![], is_final: false };
    let graph = BootstrapableGraph { final_blocks: vec![with_parents.clone(), without.clone()] };
    let bytes = graph.to_bytes_compact().unwrap();
    assert_eq!(bytes[0], 2);
    let (read, n) = BootstrapableGraph::from_bytes_compact(&bytes, &ctx).unwrap();
    assert_eq!(n, bytes.len());
    assert_eq!(read.final_blocks.len(), 2);
    assert_eq!(read.final_blocks[0].parents, with_parents.parents);
    assert!(read.final_blocks[0].is_final);
    assert!(read.final_blocks[1].parents.is_empty());
    assert!(!read.final_blocks[1].is_final);
    for (a, b) in read.final_blocks.iter().zip(graph.final_blocks.iter()) {
        assert_eq!(
            a.block.header.compute_block_id().unwrap(),
            b.block.header.compute_block_id().unwrap()
        );
    }
    assert_eq!(read.to_bytes_compact().unwrap(), bytes);

    // one block alone
    let mut one = Vec::new();
    with_parents.write_compact(&mut one).unwrap();
    let block_len = with_parents.block.to_bytes_compact().unwrap().len();
    assert_eq!(one[block_len], 1);
    assert_eq!(one.len(), block_len + 1 + (32 + 1) + (32 + 2) + 1);
    assert_eq!(*one.last().unwrap(), 1);
    let (e, n) = ExportActiveBlock::from_bytes_compact(&one, &ctx).unwrap();
    assert_eq!(n, one.len());
    assert_eq!(e.parents, with_parents.parents);

    // errors
    let mut bad = one.clone();
    bad[block_len] = 2;
    assert_eq!(
        ExportActiveBlock::from_bytes_compact(&bad, &ctx).unwrap_err(),
        ModelsError::BadParentsFlag
    );
    let mut bad = one.clone();
    let last = bad.len() - 1;
    bad[last] = 2;
    assert_eq!(ExportActiveBlock::from_bytes_compact(&bad, &ctx).unwrap_err(), ModelsError::BadFlag);
    assert_eq!(
        ExportActiveBlock::from_bytes_compact(&one[..one.len() - 1], &ctx).unwrap_err(),
        ModelsError::BufferError
    );
    let mut small = ctx;
    small.max_bootstrap_blocks = 1;
    assert_eq!(
        BootstrapableGraph::from_bytes_compact(&bytes, &small).unwrap_err(),
        ModelsError::LimitExceeded
    );
    let empty = BootstrapableGraph { final_blocks: vec![] };
    assert_eq!(empty.to_bytes_compact().unwrap(), vec![0]);
}

#[test]
fn byte_strings_compare_byte_by_byte() {
    assert_eq!(compare_bytes(&[], &[]), Order::Same);
    assert_eq!(compare_bytes(&[], &[0]), Order::Before);
    assert_eq!(compare_bytes(&[0], &[]), Order::After);
    assert_eq!(compare_bytes(&[1, 2], &[1, 3]), Order::Before);
    assert_eq!(compare_bytes(&[1, 2], &[1, 2]), Order::Same);
    assert_eq!(compare_bytes(&[2], &[1, 3]), Order::After);
    assert_eq!(compare_bytes(&[1], &[1, 0]), Order::Before);
}
