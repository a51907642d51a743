use consensus_graph::amount::Amount;
use consensus_graph::datastore::Datastore;
use consensus_graph::error::ModelsError;
use consensus_graph::ledger_entry::{
    LedgerEntry, LedgerEntryDeserializer, LedgerEntrySerializer, LedgerEntryUpdate, SetOrDelete,
    SetOrKeep,
};

fn sample() -> LedgerEntry {
    let mut store = Datastore::new();
    store.insert("hello world".as_bytes().to_vec(), vec![1, 2, 3]);
    LedgerEntry {
        parallel_balance: Amount::from_raw(1_000_000_000),
        sequential_balance: Amount::from_raw(1_000_000_000),
        bytecode: vec![1, 2, 3],
        datastore: store,
    }
}

#[test]
fn ledger_entry_round_trip() {
    let entry = sample();
    let mut serialized = Vec::new();
    let serializer = LedgerEntrySerializer::new();
    let deserializer = LedgerEntryDeserializer::new(10000, 255, 10000);
    serializer.serialize(&entry, &mut serialized).unwrap();
    let (rest, read) = deserializer.deserialize(&serialized).unwrap();
    assert!(rest.is_empty());
    assert_eq!(entry, read);
}

#[test]
fn ledger_entry_layout() {
    let mut store = Datastore::new();
    store.insert(vec![9], vec![7, 7]);
    store.insert(vec![1, 2], vec![]);
    let entry = LedgerEntry {
        sequential_balance: Amount::from_raw(300),
        parallel_balance: Amount::from_raw(5),
        bytecode: vec![0xAA, 0xBB],
        datastore: store,
    };
    let mut bytes = vec![0xEE];
    LedgerEntrySerializer::new().serialize(&entry, &mut bytes).unwrap();
    assert_eq!(
        bytes,
        vec![
            0xEE, // what was in the buffer stays
            0xAC, 0x02, // 300
            0x05, // 5
            0x02, 0xAA, 0xBB, // bytecode
            0x02, // two entries, in the order of the keys
            0x02, 0x01, 0x02, 0x00, // key [1, 2], empty value
            0x01, 0x09, 0x02, 0x07, 0x07, // key [9], value [7, 7]
        ]
    );
    let (rest, read) =
        LedgerEntryDeserializer::new(10, 10, 10).deserialize(&bytes[1..]).unwrap();
    assert!(rest.is_empty());
    assert_eq!(read, entry);
    // what follows the entry is handed back
    let mut longer = bytes[1..].to_vec();
    longer.extend_from_slice(&[4, 5]);
    let (rest, read) = LedgerEntryDeserializer::new(10, 10, 10).deserialize(&longer).unwrap();
    assert_eq!(rest, &[4, 5]);
    assert_eq!(read, entry);
}

#[test]
fn ledger_entry_limits() {
    let entry = sample();
    let mut bytes = Vec::new();
    LedgerEntrySerializer::new().serialize(&entry, &mut bytes).unwrap();
    // the key has 11 bytes
    assert_eq!(
        LedgerEntryDeserializer::new(10000, 10, 10000).deserialize(&bytes).unwrap_err(),
        ModelsError::LimitExceeded
    );
    assert!(LedgerEntryDeserializer::new(10000, 11, 10000).deserialize(&bytes).is_ok());
    // the bytecode and the value have 3 bytes
    assert_eq!(
        LedgerEntryDeserializer::new(10000, 255, 2).deserialize(&bytes).unwrap_err(),
        ModelsError::LimitExceeded
    );
    assert!(LedgerEntryDeserializer::new(10000, 255, 3).deserialize(&bytes).is_ok());
    // one entry
    assert_eq!(
        LedgerEntryDeserializer::new(0, 255, 10000).deserialize(&bytes).unwrap_err(),
        ModelsError::LimitExceeded
    );
    assert!(LedgerEntryDeserializer::new(1, 255, 10000).deserialize(&bytes).is_ok());
    // cut short
    assert_eq!(
        LedgerEntryDeserializer::new(10000, 255, 10000)
            .deserialize(&bytes[..bytes.len() - 1])
            .unwrap_err(),
        ModelsError::BufferError
    );
    assert_eq!(
        LedgerEntryDeserializer::new(10000, 255, 10000).deserialize(&[]).unwrap_err(),
        ModelsError::VarintError
    );
}

#[test]
fn entries_read_in_any_order_are_kept_in_the_order_of_the_keys() {
    // two entries, the higher key first, then the lower key twice
    let bytes = vec![
        0x00, 0x00, 0x00, // balances and empty bytecode
        0x03, // three entries
        0x01, 0x09, 0x01, 0x01, // [9] -> [1]
        0x01, 0x02, 0x01, 0x02, // [2] -> [2]
        0x01, 0x02, 0x01, 0x03, // [2] -> [3]
    ];
    let (_, entry) = LedgerEntryDeserializer::new(10, 10, 10).deserialize(&bytes).unwrap();
    assert_eq!(entry.datastore.entries, vec![(vec![2], vec![3]), (vec![9], vec![1])]);
}

#[test]
fn apply_update() {
    let mut entry = sample();
    entry.datastore.insert(vec![1], vec![1]);
    entry.datastore.insert(vec![2], vec![2]);
    let update = LedgerEntryUpdate {
        parallel_balance: SetOrKeep::Put(Amount::from_raw(7)),
        bytecode: SetOrKeep::Keep,
        datastore: vec![
            (vec![1], SetOrDelete::Delete),
            (vec![3], SetOrDelete::Put(vec![3])),
            (vec![2], SetOrDelete::Put(vec![9])),
            (vec![4], SetOrDelete::Put(vec![4])),
            (vec![4], SetOrDelete::Delete),
            (vec![5], SetOrDelete::Delete),
        ],
    };
    entry.apply(update);
    assert_eq!(entry.parallel_balance, Amount::from_raw(7));
    // the sequential balance is not touched
    assert_eq!(entry.sequential_balance, Amount::from_raw(1_000_000_000));
    assert_eq!(entry.bytecode, vec![1, 2, 3]);
    assert_eq!(
        entry.datastore.entries,
        vec![
            (vec![2], vec![9]),
            (vec![3], vec![3]),
            ("hello world".as_bytes().to_vec(), vec![1, 2, 3]),
        ]
    );
    let update = LedgerEntryUpdate {
        parallel_balance: SetOrKeep::Keep,
        bytecode: SetOrKeep::Put(vec![]),
        datastore: vec![],
    };
    let before = entry.datastore.clone();
    entry.apply(update);
    assert_eq!(entry.parallel_balance, Amount::from_raw(7));
    assert!(entry.bytecode.is_empty());
    assert_eq!(entry.datastore, before);
}

#[test]
fn datastore_keeps_keys_in_order() {
    let mut store = Datastore::new();
    assert_eq!(store.len(), 0);
    store.insert(vec![5], vec![50]);
    store.insert(vec![1, 0], vec![10]);
    store.insert(vec![1], vec![1]);
    store.insert(vec![], vec![0]);
    store.insert(vec![5], vec![55]);
    assert_eq!(
        store.entries,
        vec![
            (vec![], vec![0]),
            (vec![1], vec![1]),
            (vec![1, 0], vec![10]),
            (vec![5], vec![55]),
        ]
    );
    assert_eq!(store.get(&[5]), Some(&vec![55]));
    assert_eq!(store.get(&[1, 0]), Some(&vec![10]));
    assert_eq!(store.get(&[2]), None);
    assert_eq!(store.remove(&[1]), Some(vec![1]));
    assert_eq!(store.remove(&[1]), None);
    assert_eq!(store.len(), 3);
    assert_eq!(store.get(&[1]), None);
    assert_eq!(store.get(&[]), Some(&vec![0]));
}

#[test]
fn amounts() {
    let a = Amount::from_raw(5);
    assert_eq!(a.to_raw(), 5);
    assert!(!a.is_zero());
    assert!(Amount::from_raw(0).is_zero());
    assert_eq!(a.checked_add(Amount::from_raw(7)), Some(Amount::from_raw(12)));
    assert_eq!(a.checked_add(Amount::from_raw(u64::MAX)), None);
    assert_eq!(a.checked_add(Amount::from_raw(u64::MAX - 5)), Some(Amount::from_raw(u64::MAX)));
    assert_eq!(a.checked_sub(Amount::from_raw(5)), Some(Amount::from_raw(0)));
    assert_eq!(a.checked_sub(Amount::from_raw(6)), None);
}
