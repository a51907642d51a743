//! Entries of the ledger: what is held under an address.
//!
//! An entry is written as its sequential balance and its parallel balance, each
//! as a variable-length integer; its bytecode, as its length as a variable-length
//! integer and its bytes; and its store, as the number of its entries as a
//! variable-length integer and, for each entry in the order of the keys, the key
//! and the value, each as its length and its bytes.

use vstd::prelude::*;
use vstd::slice::*;
use crate::amount::Amount;
use crate::codec::{
    encode_seq,
    lemma_encode_seq_empty,
    lemma_encode_seq_push,
    lemma_parse_seq_error_stays,
    lemma_parse_seq_inverts,
    lemma_parse_seq_step,
    parse_seq,
    parser_inverts,
    write_bytes,
    Parsed,
};
use crate::datastore::{entries_with, entries_without, keys_ascending, Datastore};
use crate::error::ModelsError;
use crate::serialization::{
    lemma_varint_decode_encode,
    spec_u64_from_varint,
    spec_u64_from_varint_bounded,
    u64_from_varint,
    u64_from_varint_bounded,
    u64_to_varint,
    varint_encode,
};

verus! {

/// A change of a value: a new value, or none.
#[derive(Clone, Debug, PartialEq, Eq)]
pub enum SetOrKeep<T> {
    /// The value becomes this one.
    Put(T),
    /// The value stays as it is.
    Keep,
}

/// A change of an entry of a store: a new value, or its end.
#[derive(Clone, Debug, PartialEq, Eq)]
pub enum SetOrDelete<T> {
    /// The value becomes this one.
    Put(T),
    /// The entry is taken out.
    Delete,
}

/// A change of an entry of the ledger.
#[derive(Clone, Debug, PartialEq, Eq)]
pub struct LedgerEntryUpdate {
    /// Change of the parallel balance.
    pub parallel_balance: SetOrKeep<Amount>,
    /// Change of the bytecode.
    pub bytecode: SetOrKeep<Vec<u8>>,
    /// Changes of the store, which apply one after the other.
    pub datastore: Vec<(Vec<u8>, SetOrDelete<Vec<u8>>)>,
}

/// An entry of the ledger: what is held under an address.
#[derive(Clone, Debug, Default, PartialEq, Eq)]
pub struct LedgerEntry {
    /// The sequential balance.
    pub sequential_balance: Amount,
    /// The parallel balance.
    pub parallel_balance: Amount,
    /// Executable bytecode.
    pub bytecode: Vec<u8>,
    /// A store of bytes under keys of bytes.
    pub datastore: Datastore,
}

/// An entry of the ledger as plain values.
pub struct LedgerEntryView {
    pub sequential_balance: u64,
    pub parallel_balance: u64,
    pub bytecode: Seq<u8>,
    pub datastore: Seq<(Seq<u8>, Seq<u8>)>,
}

impl View for LedgerEntry {
    type V = LedgerEntryView;

    open spec fn view(&self) -> LedgerEntryView {
        LedgerEntryView {
            sequential_balance: self.sequential_balance.raw,
            parallel_balance: self.parallel_balance.raw,
            bytecode: self.bytecode@,
            datastore: self.datastore@,
        }
    }
}

/// A change of a store as plain values: the key, and the new value, if any.
pub open spec fn change_view(c: (Vec<u8>, SetOrDelete<Vec<u8>>)) -> (Seq<u8>, Option<Seq<u8>>) {
    (
        c.0@,
        match c.1 {
            SetOrDelete::Put(v) => Some(v@),
            SetOrDelete::Delete => None,
        },
    )
}

/// Changes of a store as plain values.
pub open spec fn changes_view(list: Seq<(Vec<u8>, SetOrDelete<Vec<u8>>)>) -> Seq<
    (Seq<u8>, Option<Seq<u8>>),
> {
    Seq::new(list.len(), |i: int| change_view(list[i]))
}

/// The entries of a store after changes, applied one after the other.
pub open spec fn entries_after(
    entries: Seq<(Seq<u8>, Seq<u8>)>,
    changes: Seq<(Seq<u8>, Option<Seq<u8>>)>,
) -> Seq<(Seq<u8>, Seq<u8>)>
    decreases changes.len(),
{
    if changes.len() == 0 {
        entries
    } else {
        let before = entries_after(entries, changes.drop_last());
        match changes.last().1 {
            Some(value) => entries_with(before, changes.last().0, value),
            None => entries_without(before, changes.last().0),
        }
    }
}

impl LedgerEntry {
    /// Whether the keys of the store of the entry go up strictly.
    pub open spec fn wf(&self) -> bool {
        self.datastore.wf()
    }

    /// Applies a change to the entry: the parallel balance and the bytecode become
    /// what the change sets, or stay; the changes of the store apply one after the
    /// other, each putting a value under its key or taking the entry of its key out.
    /// The sequential balance stays.
    pub fn apply(&mut self, update: LedgerEntryUpdate)
        requires
            old(self).wf(),
        ensures
            final(self).wf(),
            final(self).sequential_balance == old(self).sequential_balance,
            final(self).parallel_balance == match update.parallel_balance {
                SetOrKeep::Put(v) => v,
                SetOrKeep::Keep => old(self).parallel_balance,
            },
            final(self).bytecode@ == match update.bytecode {
                SetOrKeep::Put(v) => v@,
                SetOrKeep::Keep => old(self).bytecode@,
            },
            final(self).datastore@ == entries_after(
                old(self).datastore@,
                changes_view(update.datastore@),
            ),
    {
        let LedgerEntryUpdate { parallel_balance, bytecode, datastore } = update;
        match parallel_balance {
            SetOrKeep::Put(v) => {
                self.parallel_balance = v;
            },
            SetOrKeep::Keep => {},
        }
        match bytecode {
            SetOrKeep::Put(v) => {
                self.bytecode = v;
            },
            SetOrKeep::Keep => {},
        }
        let ghost all = changes_view(datastore@);
        let n = datastore.len();
        let mut changes = datastore;
        let mut rest: Vec<(Vec<u8>, SetOrDelete<Vec<u8>>)> = Vec::new();
        // take the changes from the end, to apply them from the start
        while changes.len() > 0
            invariant
                changes@.len() + rest@.len() == n,
                n == all.len(),
                forall|i: int| 0 <= i < changes@.len() ==> change_view(#[trigger] changes@[i]) == all[i],
                forall|i: int|
                    0 <= i < rest@.len() ==> change_view(#[trigger] rest@[i]) == all[n - 1 - i],
            decreases changes@.len(),
        {
            let ghost before = rest@;
            match changes.pop() {
                Some(c) => {
                    rest.push(c);
                },
                None => {},
            }
            proof {
                assert forall|i: int| 0 <= i < rest@.len() implies change_view(
                    #[trigger] rest@[i],
                ) == all[n - 1 - i] by {
                    if i < before.len() {
                        assert(rest@[i] == before[i]);
                    }
                }
            }
        }
        let mut done: usize = 0;
        proof {
            assert(all.subrange(0, 0) =~= Seq::<(Seq<u8>, Option<Seq<u8>>)>::empty());
        }
        while rest.len() > 0
            invariant
                done + rest@.len() == n,
                n == all.len(),
                self.datastore.wf(),
                self.sequential_balance == old(self).sequential_balance,
                self.parallel_balance == match parallel_balance {
                    SetOrKeep::Put(v) => v,
                    SetOrKeep::Keep => old(self).parallel_balance,
                },
                self.bytecode@ == match bytecode {
                    SetOrKeep::Put(v) => v@,
                    SetOrKeep::Keep => old(self).bytecode@,
                },
                forall|i: int|
                    0 <= i < rest@.len() ==> change_view(#[trigger] rest@[i]) == all[n - 1 - i],
                self.datastore@ == entries_after(old(self).datastore@, all.subrange(0, done as int)),
            decreases rest@.len(),
        {
            let ghost before = self.datastore@;
            let ghost rest_before = rest@;
            match rest.pop() {
                Some((key, change)) => {
                    proof {
                        let c = rest_before[rest_before.len() - 1];
                        assert(change_view(c) == all[done as int]);
                        assert(all.subrange(0, done + 1).drop_last() =~= all.subrange(
                            0,
                            done as int,
                        ));
                        assert(all.subrange(0, done + 1).last() == all[done as int]);
                    }
                    match change {
                        SetOrDelete::Put(v) => {
                            self.datastore.insert(key, v);
                        },
                        SetOrDelete::Delete => {
                            self.datastore.remove(key.as_slice());
                        },
                    }
                },
                None => {},
            }
            done = done + 1;
            proof {
                assert forall|i: int| 0 <= i < rest@.len() implies change_view(
                    #[trigger] rest@[i],
                ) == all[n - 1 - i] by {
                    assert(rest@[i] == rest_before[i]);
                }
            }
        }
        proof {
            assert(all.subrange(0, n as int) =~= all);
        }
    }
}

/// The bytes of a field of bytes: its length, and the bytes.
pub open spec fn field_bytes(b: Seq<u8>) -> Seq<u8> {
    varint_encode(b.len()) + b
}

/// What reading a field of at most `max` bytes from the start of `s` gives.
pub open spec fn parse_field(s: Seq<u8>, max: u64) -> Parsed<Seq<u8>> {
    match spec_u64_from_varint_bounded(s, max) {
        Err(e) => Err(e),
        Ok((len, n)) => if s.len() - n < len {
            Err(ModelsError::BufferError)
        } else {
            Ok((s.subrange(n as int, n + len), n + len as nat))
        },
    }
}

/// Reading the bytes of a field that is not too long gives it back, whatever
/// follows.
pub proof fn lemma_parse_field_bytes(b: Seq<u8>, max: u64, rest: Seq<u8>)
    requires
        b.len() <= max,
    ensures
        parse_field(field_bytes(b) + rest, max) == Ok::<_, ModelsError>((b, field_bytes(b).len())),
{
    let s = field_bytes(b) + rest;
    let l = varint_encode(b.len());
    assert(s =~= l + (b + rest));
    lemma_varint_decode_encode(b.len(), b + rest);
    assert(s.subrange(l.len() as int, (l.len() + b.len()) as int) =~= b);
}

/// The bytes of an entry of a store: the key, then the value.
pub open spec fn store_entry_bytes(e: (Seq<u8>, Seq<u8>)) -> Seq<u8> {
    field_bytes(e.0) + field_bytes(e.1)
}

/// What reading an entry of a store from the start of `s` gives, where keys have at
/// most `max_key` bytes and values at most `max_value`.
pub open spec fn parse_store_entry(s: Seq<u8>, max_key: u8, max_value: u64) -> Parsed<
    (Seq<u8>, Seq<u8>),
> {
    match parse_field(s, max_key as u64) {
        Err(e) => Err(e),
        Ok((key, a)) => match parse_field(s.subrange(a as int, s.len() as int), max_value) {
            Err(e) => Err(e),
            Ok((value, b)) => Ok(((key, value), a + b)),
        },
    }
}

/// The parser of an entry of a store.
pub open spec fn store_entry_parser(max_key: u8, max_value: u64) -> spec_fn(Seq<u8>) -> Parsed<
    (Seq<u8>, Seq<u8>),
> {
    |s: Seq<u8>| parse_store_entry(s, max_key, max_value)
}

/// The writer of an entry of a store.
pub open spec fn store_entry_writer() -> spec_fn((Seq<u8>, Seq<u8>)) -> Seq<u8> {
    |e: (Seq<u8>, Seq<u8>)| store_entry_bytes(e)
}

/// Whether the key and the value of an entry of a store are within the limits.
pub open spec fn is_valid_store_entry(max_key: u8, max_value: u64) -> spec_fn(
    (Seq<u8>, Seq<u8>),
) -> bool {
    |e: (Seq<u8>, Seq<u8>)| e.0.len() <= max_key && e.1.len() <= max_value
}

/// Entries of a store that are within the limits are read back.
pub proof fn lemma_store_entry_codec(max_key: u8, max_value: u64)
    ensures
        parser_inverts(
            store_entry_parser(max_key, max_value),
            store_entry_writer(),
            is_valid_store_entry(max_key, max_value),
        ),
{
    let parse = store_entry_parser(max_key, max_value);
    assert forall|item: (Seq<u8>, Seq<u8>), rest: Seq<u8>|
        is_valid_store_entry(max_key, max_value)(item) implies #[trigger] parse(
        store_entry_writer()(item) + rest,
    ) == Ok::<_, ModelsError>((item, store_entry_writer()(item).len())) by {
        let s = store_entry_bytes(item) + rest;
        let kb = field_bytes(item.0);
        let vb = field_bytes(item.1);
        assert(s =~= kb + (vb + rest));
        lemma_parse_field_bytes(item.0, max_key as u64, vb + rest);
        assert(s.subrange(kb.len() as int, s.len() as int) =~= vb + rest);
        lemma_parse_field_bytes(item.1, max_value, rest);
    }
}

/// The entries of a store into which the entries of a list were put, one after the
/// other.
pub open spec fn entries_from(list: Seq<(Seq<u8>, Seq<u8>)>) -> Seq<(Seq<u8>, Seq<u8>)>
    decreases list.len(),
{
    if list.len() == 0 {
        Seq::empty()
    } else {
        entries_with(entries_from(list.drop_last()), list.last().0, list.last().1)
    }
}

/// Putting entries whose keys go up strictly into a store, one after the other,
/// gives a store with those entries in that order.
pub proof fn lemma_entries_from_ascending(list: Seq<(Seq<u8>, Seq<u8>)>)
    requires
        keys_ascending(list),
    ensures
        entries_from(list) == list,
    decreases list.len(),
{
    if list.len() > 0 {
        let head = list.drop_last();
        assert(keys_ascending(head)) by {
            assert forall|i: int, j: int| 0 <= i < j < head.len() implies crate::bytes::lex_lt(
                #[trigger] head[i].0,
                #[trigger] head[j].0,
            ) by {
                assert(crate::bytes::lex_lt(list[i].0, list[j].0));
            }
        }
        lemma_entries_from_ascending(head);
        if head.len() > 0 {
            assert(crate::bytes::lex_lt(list[head.len() - 1].0, list[list.len() - 1].0));
            crate::bytes::lemma_lex_lt_irreflexive(list.last().0);
        }
        assert(head.push(list.last()) =~= list);
        assert(seq![list.last()] =~= head.push(list.last()) || head.len() > 0);
    } else {
        assert(list =~= Seq::<(Seq<u8>, Seq<u8>)>::empty());
    }
}

/// Writes entries of the ledger.
#[derive(Clone, Copy, Debug, Default)]
pub struct LedgerEntrySerializer;

/// Reads entries of the ledger, within limits.
#[derive(Clone, Copy, Debug)]
pub struct LedgerEntryDeserializer {
    /// Largest number of entries of a store.
    pub max_datastore_entry_count: u64,
    /// Largest length of a key of a store.
    pub max_datastore_key_length: u8,
    /// Largest length of a value of a store, and of a bytecode.
    pub max_datastore_value_length: u64,
}

/// The bytes of an entry of the ledger.
pub open spec fn ledger_entry_bytes(e: LedgerEntryView) -> Seq<u8> {
    varint_encode(e.sequential_balance as nat) + varint_encode(e.parallel_balance as nat)
        + field_bytes(e.bytecode) + varint_encode(e.datastore.len()) + encode_seq(
        e.datastore,
        store_entry_writer(),
    )
}

/// What reading an entry of the ledger from the start of `s` gives, within the
/// limits of `d`. The entries of the store are put into the store one after the
/// other, so that the last value read under a key is the one that stays.
pub open spec fn parse_ledger_entry(s: Seq<u8>, d: LedgerEntryDeserializer) -> Parsed<
    LedgerEntryView,
> {
    match spec_u64_from_varint(s) {
        Err(e) => Err(e),
        Ok((sequential_balance, a)) => {
            let s1 = s.subrange(a as int, s.len() as int);
            match spec_u64_from_varint(s1) {
                Err(e) => Err(e),
                Ok((parallel_balance, b)) => {
                    let s2 = s1.subrange(b as int, s1.len() as int);
                    match parse_field(s2, d.max_datastore_value_length) {
                        Err(e) => Err(e),
                        Ok((bytecode, c)) => {
                            let s3 = s2.subrange(c as int, s2.len() as int);
                            match spec_u64_from_varint_bounded(s3, d.max_datastore_entry_count) {
                                Err(e) => Err(e),
                                Ok((count, f)) => {
                                    let s4 = s3.subrange(f as int, s3.len() as int);
                                    match parse_seq(
                                        s4,
                                        count as nat,
                                        store_entry_parser(
                                            d.max_datastore_key_length,
                                            d.max_datastore_value_length,
                                        ),
                                        None,
                                    ) {
                                        Err(e) => Err(e),
                                        Ok((entries, g)) => Ok(
                                            (
                                                LedgerEntryView {
                                                    sequential_balance,
                                                    parallel_balance,
                                                    bytecode,
                                                    datastore: entries_from(entries),
                                                },
                                                a + b + c + f + g,
                                            ),
                                        ),
                                    }
                                },
                            }
                        },
                    }
                },
            }
        },
    }
}

/// Whether an entry of the ledger can be read back within the limits of `d`: the
/// keys of its store go up strictly, and its bytecode and its store are within the
/// limits.
pub open spec fn ledger_entry_valid(e: LedgerEntryView, d: LedgerEntryDeserializer) -> bool {
    &&& keys_ascending(e.datastore)
    &&& e.bytecode.len() <= d.max_datastore_value_length
    &&& e.datastore.len() <= d.max_datastore_entry_count
    &&& forall|i: int|
        0 <= i < e.datastore.len() ==> (#[trigger] e.datastore[i]).0.len()
            <= d.max_datastore_key_length && e.datastore[i].1.len()
            <= d.max_datastore_value_length
}

/// Reading the bytes of an entry of the ledger that is within the limits gives the
/// entry back, whatever follows.
pub proof fn lemma_parse_ledger_entry_bytes(
    e: LedgerEntryView,
    d: LedgerEntryDeserializer,
    rest: Seq<u8>,
)
    requires
        ledger_entry_valid(e, d),
    ensures
        parse_ledger_entry(ledger_entry_bytes(e) + rest, d) == Ok::<_, ModelsError>(
            (e, ledger_entry_bytes(e).len()),
        ),
{
    let s = ledger_entry_bytes(e) + rest;
    let sb = varint_encode(e.sequential_balance as nat);
    let pb = varint_encode(e.parallel_balance as nat);
    let bc = field_bytes(e.bytecode);
    let cnt = varint_encode(e.datastore.len());
    let ds = encode_seq(e.datastore, store_entry_writer());
    let t4 = ds + rest;
    let t3 = cnt + t4;
    let t2 = bc + t3;
    let t1 = pb + t2;
    assert(s =~= sb + t1);
    assert(spec_u64_from_varint(s) == Ok::<_, ModelsError>((e.sequential_balance, sb.len()))) by {
        lemma_varint_decode_encode(e.sequential_balance as nat, t1);
    }
    let s1 = s.subrange(sb.len() as int, s.len() as int);
    assert(s1 =~= t1);
    assert(spec_u64_from_varint(s1) == Ok::<_, ModelsError>((e.parallel_balance, pb.len()))) by {
        lemma_varint_decode_encode(e.parallel_balance as nat, t2);
    }
    let s2 = s1.subrange(pb.len() as int, s1.len() as int);
    assert(s2 =~= t2);
    assert(parse_field(s2, d.max_datastore_value_length) == Ok::<_, ModelsError>(
        (e.bytecode, bc.len()),
    )) by {
        lemma_parse_field_bytes(e.bytecode, d.max_datastore_value_length, t3);
    }
    let s3 = s2.subrange(bc.len() as int, s2.len() as int);
    assert(s3 =~= t3);
    assert(spec_u64_from_varint_bounded(s3, d.max_datastore_entry_count) == Ok::<_, ModelsError>(
        (e.datastore.len() as u64, cnt.len()),
    )) by {
        lemma_varint_decode_encode(e.datastore.len(), t4);
    }
    let s4 = s3.subrange(cnt.len() as int, s3.len() as int);
    assert(s4 =~= t4);
    let parser = store_entry_parser(d.max_datastore_key_length, d.max_datastore_value_length);
    assert(parse_seq(s4, e.datastore.len(), parser, None) == Ok::<_, ModelsError>(
        (e.datastore, ds.len()),
    )) by {
        lemma_store_entry_codec(d.max_datastore_key_length, d.max_datastore_value_length);
        assert forall|i: int| 0 <= i < e.datastore.len() implies is_valid_store_entry(
            d.max_datastore_key_length,
            d.max_datastore_value_length,
        )(#[trigger] e.datastore[i]) by {}
        lemma_parse_seq_inverts(
            e.datastore,
            rest,
            parser,
            store_entry_writer(),
            is_valid_store_entry(d.max_datastore_key_length, d.max_datastore_value_length),
            None,
        );
    }
    lemma_entries_from_ascending(e.datastore);
    assert(ledger_entry_bytes(e).len() == sb.len() + pb.len() + bc.len() + cnt.len() + ds.len());
}

/// Appends the bytes of a field of bytes to `buffer`.
fn write_field(data: &[u8], buffer: &mut Vec<u8>)
    ensures
        final(buffer)@ == old(buffer)@ + field_bytes(data@),
{
    u64_to_varint(data.len() as u64, buffer);
    write_bytes(data, buffer);
    assert(buffer@ =~= old(buffer)@ + field_bytes(data@));
}

/// Reads a field of at most `max` bytes from the start of `buffer`: the bytes, and
/// the number of bytes read.
fn read_field(buffer: &[u8], max: u64) -> (r: Result<(Vec<u8>, usize), ModelsError>)
    ensures
        match parse_field(buffer@, max) {
            Ok((b, n)) => r is Ok && r.unwrap().0@ == b && r.unwrap().1 == n && n <= buffer@.len(),
            Err(e) => r == Err::<(Vec<u8>, usize), _>(e),
        },
{
    let total = buffer.len();
    let (len, n) = match u64_from_varint_bounded(buffer, max) {
        Ok(v) => v,
        Err(e) => { return Err(e); },
    };
    if ((total - n) as u64) < len {
        return Err(ModelsError::BufferError);
    }
    let len = len as usize;
    let data = slice_to_vec(slice_subrange(buffer, n, n + len));
    Ok((data, n + len))
}

impl LedgerEntrySerializer {
    /// Creates a `LedgerEntrySerializer`.
    pub fn new() -> (r: LedgerEntrySerializer)
        ensures
            r == LedgerEntrySerializer,
    {
        LedgerEntrySerializer
    }

    /// Appends the bytes of an entry of the ledger to `buffer`.
    pub fn serialize(&self, value: &LedgerEntry, buffer: &mut Vec<u8>) -> (r: Result<
        (),
        ModelsError,
    >)
        ensures
            r is Ok,
            final(buffer)@ == old(buffer)@ + ledger_entry_bytes(value@),
    {
        u64_to_varint(value.sequential_balance.to_raw(), buffer);
        u64_to_varint(value.parallel_balance.to_raw(), buffer);
        write_field(value.bytecode.as_slice(), buffer);
        u64_to_varint(value.datastore.entries.len() as u64, buffer);
        let ghost base = buffer@;
        let mut i: usize = 0;
        proof {
            lemma_encode_seq_empty::<(Seq<u8>, Seq<u8>)>(store_entry_writer());
            assert(value.datastore@.subrange(0, 0) =~= Seq::<(Seq<u8>, Seq<u8>)>::empty());
            assert(buffer@ =~= base + Seq::<u8>::empty());
        }
        while i < value.datastore.entries.len()
            invariant
                i <= value.datastore.entries@.len(),
                value.datastore@.len() == value.datastore.entries@.len(),
                buffer@ == base + encode_seq(
                    value.datastore@.subrange(0, i as int),
                    store_entry_writer(),
                ),
            decreases value.datastore.entries@.len() - i,
        {
            let ghost before = buffer@;
            write_field(value.datastore.entries[i].0.as_slice(), buffer);
            write_field(value.datastore.entries[i].1.as_slice(), buffer);
            proof {
                let all = value.datastore@;
                assert(all[i as int] == (
                    value.datastore.entries@[i as int].0@,
                    value.datastore.entries@[i as int].1@,
                ));
                assert(buffer@ =~= before + store_entry_bytes(all[i as int]));
                assert(all.subrange(0, i + 1) =~= all.subrange(0, i as int).push(all[i as int]));
                lemma_encode_seq_push(all.subrange(0, i as int), all[i as int], store_entry_writer());
                assert(buffer@ =~= base + encode_seq(all.subrange(0, i + 1), store_entry_writer()));
            }
            i += 1;
        }
        proof {
            assert(value.datastore@.subrange(0, value.datastore@.len() as int)
                =~= value.datastore@);
            assert(buffer@ =~= old(buffer)@ + ledger_entry_bytes(value@));
        }
        Ok(())
    }
}

impl LedgerEntryDeserializer {
    /// Creates a `LedgerEntryDeserializer` that reads stores of at most
    /// `max_datastore_entry_count` entries, with keys of at most
    /// `max_datastore_key_length` bytes and values, as well as bytecodes, of at most
    /// `max_datastore_value_length` bytes.
    pub fn new(
        max_datastore_entry_count: u64,
        max_datastore_key_length: u8,
        max_datastore_value_length: u64,
    ) -> (r: LedgerEntryDeserializer)
        ensures
            r == (LedgerEntryDeserializer {
                max_datastore_entry_count,
                max_datastore_key_length,
                max_datastore_value_length,
            }),
    {
        LedgerEntryDeserializer {
            max_datastore_entry_count,
            max_datastore_key_length,
            max_datastore_value_length,
        }
    }

    /// Reads an entry of the ledger from the start of `buffer`: what is left of the
    /// buffer behind it, and the entry.
    #[verifier::loop_isolation(false)]
    pub fn deserialize<'a>(&self, buffer: &'a [u8]) -> (r: Result<
        (&'a [u8], LedgerEntry),
        ModelsError,
    >)
        ensures
            match parse_ledger_entry(buffer@, *self) {
                Ok((e, n)) => r is Ok && r.unwrap().1@ == e && n <= buffer@.len() && r.unwrap().0@
                    == buffer@.subrange(n as int, buffer@.len() as int) && r.unwrap().1.wf(),
                Err(e) => r == Err::<(&[u8], LedgerEntry), _>(e),
            },
    {
        let len = buffer.len();
        let (sequential_balance, a) = match u64_from_varint(buffer) {
            Ok(v) => v,
            Err(e) => { return Err(e); },
        };
        let s1 = slice_subrange(buffer, a, len);
        let (parallel_balance, b) = match u64_from_varint(s1) {
            Ok(v) => v,
            Err(e) => { return Err(e); },
        };
        let s2 = slice_subrange(s1, b, s1.len());
        let (bytecode, c) = match read_field(s2, self.max_datastore_value_length) {
            Ok(v) => v,
            Err(e) => { return Err(e); },
        };
        let s3 = slice_subrange(s2, c, s2.len());
        let (count, f) = match u64_from_varint_bounded(s3, self.max_datastore_entry_count) {
            Ok(v) => v,
            Err(e) => { return Err(e); },
        };
        let s4 = slice_subrange(s3, f, s3.len());
        let n4 = s4.len();
        let ghost parser = store_entry_parser(
            self.max_datastore_key_length,
            self.max_datastore_value_length,
        );
        let mut datastore = Datastore::new();
        let ghost mut read: Seq<(Seq<u8>, Seq<u8>)> = Seq::empty();
        let mut cursor: usize = 0;
        let mut i: u64 = 0;
        proof {
            lemma_parse_seq_step(s4@, 0, parser, None);
            assert(datastore@ =~= entries_from(read));
        }
        while i < count
            invariant
                i <= count,
                n4 == s4@.len(),
                parser == store_entry_parser(
                    self.max_datastore_key_length,
                    self.max_datastore_value_length,
                ),
                parse_seq(s4@, i as nat, parser, None) == Ok::<_, ModelsError>((read, cursor as nat)),
                cursor <= s4@.len(),
                datastore.wf(),
                datastore@ == entries_from(read),
            decreases count - i,
        {
            proof {
                lemma_parse_seq_step(s4@, i as nat, parser, None);
            }
            let t = slice_subrange(s4, cursor, n4);
            let (key, ka) = match read_field(t, self.max_datastore_key_length as u64) {
                Ok(v) => v,
                Err(e) => {
                    proof {
                        assert(parse_seq(s4@, (i + 1) as nat, parser, None) == Err::<
                            (Seq<(Seq<u8>, Seq<u8>)>, nat),
                            _,
                        >(e));
                        lemma_parse_seq_error_stays(s4@, (i + 1) as nat, count as nat, parser, None);
                    }
                    return Err(e);
                },
            };
            let (value, kb) = match read_field(
                slice_subrange(t, ka, t.len()),
                self.max_datastore_value_length,
            ) {
                Ok(v) => v,
                Err(e) => {
                    proof {
                        assert(parse_seq(s4@, (i + 1) as nat, parser, None) == Err::<
                            (Seq<(Seq<u8>, Seq<u8>)>, nat),
                            _,
                        >(e));
                        lemma_parse_seq_error_stays(s4@, (i + 1) as nat, count as nat, parser, None);
                    }
                    return Err(e);
                },
            };
            proof {
                let item = (key@, value@);
                assert(read.push(item).drop_last() =~= read);
                read = read.push(item);
            }
            datastore.insert(key, value);
            cursor = cursor + ka + kb;
            i += 1;
        }
        let total = a + b + c + f + cursor;
        Ok(
            (
                slice_subrange(buffer, total, len),
                LedgerEntry {
                    sequential_balance: Amount::from_raw(sequential_balance),
                    parallel_balance: Amount::from_raw(parallel_balance),
                    bytecode,
                    datastore,
                },
            ),
        )
    }
}

} // verus!
