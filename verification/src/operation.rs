//! Operations carried by a block.

use vstd::prelude::*;
use vstd::slice::*;
use crate::address::Address;
use crate::amount::Amount;
use crate::codec::{read32, read64, write_bytes, Parsed};
use crate::error::ModelsError;
use crate::hash::blake3_digest;
use crate::serialization::{
    lemma_varint_decode_encode,
    lemma_varint_encode_decode,
    spec_u64_from_varint,
    u64_from_varint,
    u64_to_varint,
    varint_decode,
    varint_encode,
};
use crate::signature::{xonly_public_key_accepted, PublicKey, Signature};

verus! {

/// The identifier of an operation: the hash of its bytes.
#[derive(Clone, Copy, Debug, Hash, PartialOrd, Ord)]
pub struct OperationId(pub crate::hash::Hash);

impl View for OperationId {
    type V = Seq<u8>;

    open spec fn view(&self) -> Seq<u8> {
        self.0@
    }
}

impl PartialEq for OperationId {
    fn eq(&self, other: &OperationId) -> (r: bool) {
        self.0 == other.0
    }
}

impl Eq for OperationId {}

impl vstd::std_specs::cmp::PartialEqSpecImpl for OperationId {
    open spec fn obeys_eq_spec() -> bool {
        true
    }

    open spec fn eq_spec(&self, other: &OperationId) -> bool {
        *self == *other
    }
}

/// Two operation identifiers with the same bytes are the same identifier.
pub proof fn lemma_operation_id_eq(a: OperationId, b: OperationId)
    ensures
        (a@ == b@) <==> a == b,
{
    crate::hash::lemma_hash_eq(a.0, b.0);
}

/// What an operation does.
#[derive(Clone, Copy, Debug)]
pub enum OperationType {
    /// Moves coins to an address.
    Transaction { recipient_address: Address, amount: Amount },
    /// Buys rolls for the sender.
    RollBuy { roll_count: u64 },
    /// Sells rolls of the sender.
    RollSell { roll_count: u64 },
}

/// What an operation says.
#[derive(Clone, Copy, Debug)]
pub struct OperationContent {
    /// Key of the sender.
    pub sender_public_key: PublicKey,
    /// Fee left to the creator of the block.
    pub fee: Amount,
    /// Last period in which the operation can be included.
    pub expire_period: u64,
    /// What the operation does.
    pub op: OperationType,
}

/// An operation, signed by its sender.
#[derive(Clone, Copy, Debug)]
pub struct Operation {
    pub content: OperationContent,
    pub signature: Signature,
}

/// What an operation does, as plain values.
pub enum OperationTypeView {
    Transaction { recipient_address: Seq<u8>, amount: u64 },
    RollBuy { roll_count: u64 },
    RollSell { roll_count: u64 },
}

/// An operation as plain values.
pub struct OperationView {
    pub sender_public_key: Seq<u8>,
    pub fee: u64,
    pub expire_period: u64,
    pub op: OperationTypeView,
    pub signature: Seq<u8>,
}

impl View for OperationType {
    type V = OperationTypeView;

    open spec fn view(&self) -> OperationTypeView {
        match *self {
            OperationType::Transaction { recipient_address, amount } => {
                OperationTypeView::Transaction {
                    recipient_address: recipient_address@,
                    amount: amount.raw,
                }
            },
            OperationType::RollBuy { roll_count } => OperationTypeView::RollBuy { roll_count },
            OperationType::RollSell { roll_count } => OperationTypeView::RollSell { roll_count },
        }
    }
}

impl View for Operation {
    type V = OperationView;

    open spec fn view(&self) -> OperationView {
        OperationView {
            sender_public_key: self.content.sender_public_key@,
            fee: self.content.fee.raw,
            expire_period: self.content.expire_period,
            op: self.content.op@,
            signature: self.signature@,
        }
    }
}

/// Whether what an operation does can be read back.
pub open spec fn operation_type_valid(op: OperationTypeView) -> bool {
    op matches OperationTypeView::Transaction { recipient_address, .. }
        ==> recipient_address.len() == 32
}

/// Whether an operation can be read back: its fields have their sizes and its key
/// is an accepted key.
pub open spec fn operation_valid(o: OperationView) -> bool {
    &&& o.sender_public_key.len() == 32
    &&& xonly_public_key_accepted(o.sender_public_key)
    &&& operation_type_valid(o.op)
    &&& o.signature.len() == 64
}

/// The bytes of what an operation does: its kind (0 for a transaction, 1 for a roll
/// buy, 2 for a roll sell) and its fields.
pub open spec fn operation_type_bytes(op: OperationTypeView) -> Seq<u8> {
    match op {
        OperationTypeView::Transaction { recipient_address, amount } => varint_encode(0)
            + recipient_address + varint_encode(amount as nat),
        OperationTypeView::RollBuy { roll_count } => varint_encode(1) + varint_encode(
            roll_count as nat,
        ),
        OperationTypeView::RollSell { roll_count } => varint_encode(2) + varint_encode(
            roll_count as nat,
        ),
    }
}

/// The bytes of an operation: the fee, the last period, the sender's key, what it
/// does, the signature.
pub open spec fn operation_bytes(o: OperationView) -> Seq<u8> {
    varint_encode(o.fee as nat) + varint_encode(o.expire_period as nat) + o.sender_public_key
        + operation_type_bytes(o.op) + o.signature
}

/// What reading what an operation does from the start of `s` gives.
pub open spec fn parse_operation_type(s: Seq<u8>) -> Parsed<OperationTypeView> {
    match spec_u64_from_varint(s) {
        Err(e) => Err(e),
        Ok((kind, k)) => {
            let t = s.subrange(k as int, s.len() as int);
            if kind == 0 {
                if t.len() < 32 {
                    Err(ModelsError::BufferError)
                } else {
                    match spec_u64_from_varint(t.subrange(32, t.len() as int)) {
                        Err(e) => Err(e),
                        Ok((amount, n)) => Ok(
                            (
                                OperationTypeView::Transaction {
                                    recipient_address: t.subrange(0, 32),
                                    amount,
                                },
                                k + 32 + n,
                            ),
                        ),
                    }
                }
            } else if kind == 1 {
                match spec_u64_from_varint(t) {
                    Err(e) => Err(e),
                    Ok((roll_count, n)) => Ok((OperationTypeView::RollBuy { roll_count }, k + n)),
                }
            } else if kind == 2 {
                match spec_u64_from_varint(t) {
                    Err(e) => Err(e),
                    Ok((roll_count, n)) => Ok((OperationTypeView::RollSell { roll_count }, k + n)),
                }
            } else {
                Err(ModelsError::InvalidOperationType)
            }
        },
    }
}

/// What reading an operation from the start of `s` gives.
pub open spec fn parse_operation(s: Seq<u8>) -> Parsed<OperationView> {
    match spec_u64_from_varint(s) {
        Err(e) => Err(e),
        Ok((fee, a)) => {
            let s1 = s.subrange(a as int, s.len() as int);
            match spec_u64_from_varint(s1) {
                Err(e) => Err(e),
                Ok((expire_period, b)) => {
                    let s2 = s1.subrange(b as int, s1.len() as int);
                    if s2.len() < 32 {
                        Err(ModelsError::BufferError)
                    } else if !xonly_public_key_accepted(s2.subrange(0, 32)) {
                        Err(ModelsError::InvalidPublicKey)
                    } else {
                        let s3 = s2.subrange(32, s2.len() as int);
                        match parse_operation_type(s3) {
                            Err(e) => Err(e),
                            Ok((op, c)) => {
                                let s4 = s3.subrange(c as int, s3.len() as int);
                                if c > s3.len() || s4.len() < 64 {
                                    Err(ModelsError::BufferError)
                                } else {
                                    Ok(
                                        (
                                            OperationView {
                                                sender_public_key: s2.subrange(0, 32),
                                                fee,
                                                expire_period,
                                                op,
                                                signature: s4.subrange(0, 64),
                                            },
                                            a + b + 32 + c + 64,
                                        ),
                                    )
                                }
                            },
                        }
                    }
                },
            }
        },
    }
}

/// Reading the bytes of what an operation does gives it back, whatever follows.
pub proof fn lemma_parse_operation_type_bytes(op: OperationTypeView, rest: Seq<u8>)
    requires
        operation_type_valid(op),
    ensures
        parse_operation_type(operation_type_bytes(op) + rest) == Ok::<_, ModelsError>(
            (op, operation_type_bytes(op).len()),
        ),
{
    let s = operation_type_bytes(op) + rest;
    match op {
        OperationTypeView::Transaction { recipient_address, amount } => {
            let tail = recipient_address + varint_encode(amount as nat) + rest;
            lemma_varint_decode_encode(0, tail);
            lemma_varint_decode_encode(amount as nat, rest);
            assert(s =~= varint_encode(0) + tail);
            let k = varint_encode(0).len();
            let t = s.subrange(k as int, s.len() as int);
            assert(t =~= tail);
            assert(t.subrange(32, t.len() as int) =~= varint_encode(amount as nat) + rest);
            assert(t.subrange(0, 32) =~= recipient_address);
        },
        OperationTypeView::RollBuy { roll_count } => {
            let tail = varint_encode(roll_count as nat) + rest;
            lemma_varint_decode_encode(1, tail);
            lemma_varint_decode_encode(roll_count as nat, rest);
            assert(s =~= varint_encode(1) + tail);
            let k = varint_encode(1).len();
            assert(s.subrange(k as int, s.len() as int) =~= tail);
        },
        OperationTypeView::RollSell { roll_count } => {
            let tail = varint_encode(roll_count as nat) + rest;
            lemma_varint_decode_encode(2, tail);
            lemma_varint_decode_encode(roll_count as nat, rest);
            assert(s =~= varint_encode(2) + tail);
            let k = varint_encode(2).len();
            assert(s.subrange(k as int, s.len() as int) =~= tail);
        },
    }
}

/// What an operation does, once read, is valid and is written back as the bytes it
/// was read from.
pub proof fn lemma_operation_type_bytes_parse(s: Seq<u8>)
    ensures
        parse_operation_type(s) matches Ok((op, n)) ==> n <= s.len() && operation_type_valid(op)
            && operation_type_bytes(op) == s.subrange(0, n as int),
{
    if let Ok((op, total)) = parse_operation_type(s) {
        lemma_varint_encode_decode(s);
        let (kind, k0) = spec_u64_from_varint(s).unwrap();
        let k = k0 as int;
        let t = s.subrange(k as int, s.len() as int);
        if kind == 0 {
            let u = t.subrange(32, t.len() as int);
            lemma_varint_encode_decode(u);
            let n = varint_decode(u).unwrap().1 as int;
            assert(u.subrange(0, n as int) =~= s.subrange(k + 32, k + 32 + n));
            assert(t.subrange(0, 32) =~= s.subrange(k as int, k + 32));
            assert(operation_type_bytes(op) =~= s.subrange(0, total as int));
        } else {
            lemma_varint_encode_decode(t);
            let n = varint_decode(t).unwrap().1 as int;
            assert(t.subrange(0, n as int) =~= s.subrange(k as int, k + n));
            assert(operation_type_bytes(op) =~= s.subrange(0, total as int));
        }
    }
}

/// Reading the bytes of a valid operation gives it back, whatever follows.
pub proof fn lemma_parse_operation_bytes(o: OperationView, rest: Seq<u8>)
    requires
        operation_valid(o),
    ensures
        parse_operation(operation_bytes(o) + rest) == Ok::<_, ModelsError>(
            (o, operation_bytes(o).len()),
        ),
{
    let s = operation_bytes(o) + rest;
    let fee = varint_encode(o.fee as nat);
    let exp = varint_encode(o.expire_period as nat);
    let ty = operation_type_bytes(o.op);
    let t3 = ty + (o.signature + rest);
    let t2 = o.sender_public_key + t3;
    let t1 = exp + t2;
    assert(s =~= fee + t1);
    assert(spec_u64_from_varint(s) == Ok::<_, ModelsError>((o.fee, fee.len()))) by {
        lemma_varint_decode_encode(o.fee as nat, t1);
    }
    let s1 = s.subrange(fee.len() as int, s.len() as int);
    assert(s1 =~= t1);
    assert(spec_u64_from_varint(s1) == Ok::<_, ModelsError>((o.expire_period, exp.len()))) by {
        lemma_varint_decode_encode(o.expire_period as nat, t2);
    }
    let s2 = s1.subrange(exp.len() as int, s1.len() as int);
    assert(s2 =~= t2);
    assert(s2.subrange(0, 32) =~= o.sender_public_key);
    let s3 = s2.subrange(32, s2.len() as int);
    assert(s3 =~= t3);
    assert(parse_operation_type(s3) == Ok::<_, ModelsError>((o.op, ty.len()))) by {
        lemma_parse_operation_type_bytes(o.op, o.signature + rest);
    }
    let s4 = s3.subrange(ty.len() as int, s3.len() as int);
    assert(s4 =~= o.signature + rest);
    assert(s4.subrange(0, 64) =~= o.signature);
    assert(operation_bytes(o).len() == fee.len() + exp.len() + 32 + ty.len() + 64);
}

/// An operation that was read is valid, and is written back as the bytes it was
/// read from.
pub proof fn lemma_operation_bytes_parse(s: Seq<u8>)
    ensures
        parse_operation(s) matches Ok((o, n)) ==> n <= s.len() && operation_valid(o)
            && operation_bytes(o) == s.subrange(0, n as int),
{
    if let Ok((o, total)) = parse_operation(s) {
        lemma_varint_encode_decode(s);
        let a = varint_decode(s).unwrap().1 as int;
        let s1 = s.subrange(a as int, s.len() as int);
        lemma_varint_encode_decode(s1);
        let b = varint_decode(s1).unwrap().1 as int;
        let s2 = s1.subrange(b as int, s1.len() as int);
        let s3 = s2.subrange(32, s2.len() as int);
        lemma_operation_type_bytes_parse(s3);
        let c = parse_operation_type(s3).unwrap().1 as int;
        let s4 = s3.subrange(c as int, s3.len() as int);
        assert(s1.subrange(0, b as int) =~= s.subrange(a as int, a + b));
        assert(s2.subrange(0, 32) =~= s.subrange(a + b, a + b + 32));
        assert(s3.subrange(0, c as int) =~= s.subrange(a + b + 32, a + b + 32 + c));
        assert(s4.subrange(0, 64) =~= s.subrange(a + b + 32 + c, a + b + 32 + c + 64));
        assert(operation_bytes(o) =~= s.subrange(0, total as int));
    }
}

/// The identifier of an operation: the hash of its bytes.
pub open spec fn spec_operation_id(o: OperationView) -> Seq<u8> {
    blake3_digest(operation_bytes(o))
}

/// The addresses whose rolls an operation touches: the sender of a roll buy or a
/// roll sell, none for a transaction.
pub open spec fn spec_roll_involved_addresses(o: OperationView) -> Set<Seq<u8>> {
    match o.op {
        OperationTypeView::Transaction { .. } => Set::empty(),
        _ => set![Address::spec_from_public_key(o.sender_public_key)],
    }
}

/// The addresses whose balance an operation touches: who gets the fee, if known,
/// the sender, and for a transaction its recipient.
pub open spec fn spec_ledger_involved_addresses(
    o: OperationView,
    fee_target: Option<Seq<u8>>,
) -> Set<Seq<u8>> {
    let base = match fee_target {
        Some(target) => set![target],
        None => Set::empty(),
    };
    let with_sender = base.insert(Address::spec_from_public_key(o.sender_public_key));
    match o.op {
        OperationTypeView::Transaction { recipient_address, .. } => with_sender.insert(
            recipient_address,
        ),
        _ => with_sender,
    }
}

impl OperationType {
    /// Appends the bytes of what the operation does to `buffer`.
    pub fn write_compact(&self, buffer: &mut Vec<u8>)
        ensures
            final(buffer)@ == old(buffer)@ + operation_type_bytes(self@),
            operation_type_valid(self@),
    {
        match self {
            OperationType::Transaction { recipient_address, amount } => {
                u64_to_varint(0, buffer);
                write_bytes(recipient_address.to_bytes().as_slice(), buffer);
                u64_to_varint(amount.to_raw(), buffer);
            },
            OperationType::RollBuy { roll_count } => {
                u64_to_varint(1, buffer);
                u64_to_varint(*roll_count, buffer);
            },
            OperationType::RollSell { roll_count } => {
                u64_to_varint(2, buffer);
                u64_to_varint(*roll_count, buffer);
            },
        }
        assert(buffer@ =~= old(buffer)@ + operation_type_bytes(self@));
    }

    /// Reads what an operation does from the start of `buffer`.
    pub fn from_bytes_compact(buffer: &[u8]) -> (r: Result<(OperationType, usize), ModelsError>)
        ensures
            match parse_operation_type(buffer@) {
                Ok((op, n)) => r is Ok && r.unwrap().0@ == op && r.unwrap().1 == n
                    && n <= buffer@.len(),
                Err(e) => r == Err::<(OperationType, usize), _>(e),
            },
    {
        let len = buffer.len();
        let (kind, k) = match u64_from_varint(buffer) {
            Ok(v) => v,
            Err(e) => { return Err(e); },
        };
        let t = slice_subrange(buffer, k, len);
        if kind == 0 {
            let recipient = match read32(t, 0) {
                Ok(v) => v,
                Err(e) => { return Err(e); },
            };
            let (amount, n) = match u64_from_varint(slice_subrange(t, 32, t.len())) {
                Ok(v) => v,
                Err(e) => { return Err(e); },
            };
            Ok(
                (
                    OperationType::Transaction {
                        recipient_address: Address(crate::hash::Hash::from_bytes(&recipient)),
                        amount: Amount::from_raw(amount),
                    },
                    k + 32 + n,
                ),
            )
        } else if kind == 1 {
            match u64_from_varint(t) {
                Ok((roll_count, n)) => Ok((OperationType::RollBuy { roll_count }, k + n)),
                Err(e) => Err(e),
            }
        } else if kind == 2 {
            match u64_from_varint(t) {
                Ok((roll_count, n)) => Ok((OperationType::RollSell { roll_count }, k + n)),
                Err(e) => Err(e),
            }
        } else {
            Err(ModelsError::InvalidOperationType)
        }
    }
}

impl Operation {
    /// Appends the bytes of the operation to `buffer`.
    pub fn write_compact(&self, buffer: &mut Vec<u8>)
        ensures
            final(buffer)@ == old(buffer)@ + operation_bytes(self@),
            operation_valid(self@),
    {
        u64_to_varint(self.content.fee.to_raw(), buffer);
        u64_to_varint(self.content.expire_period, buffer);
        let key = self.content.sender_public_key.to_bytes();
        write_bytes(key.as_slice(), buffer);
        self.content.op.write_compact(buffer);
        write_bytes(self.signature.to_bytes().as_slice(), buffer);
        assert(buffer@ =~= old(buffer)@ + operation_bytes(self@));
    }

    /// The bytes of the operation.
    pub fn to_bytes_compact(&self) -> (r: Result<Vec<u8>, ModelsError>)
        ensures
            r is Ok,
            r.unwrap()@ == operation_bytes(self@),
    {
        let mut out: Vec<u8> = Vec::new();
        self.write_compact(&mut out);
        assert(out@ =~= operation_bytes(self@));
        Ok(out)
    }

    /// Reads an operation from the start of `buffer`: the operation, and the number
    /// of bytes it takes.
    pub fn from_bytes_compact(buffer: &[u8]) -> (r: Result<(Operation, usize), ModelsError>)
        ensures
            match parse_operation(buffer@) {
                Ok((o, n)) => r is Ok && r.unwrap().0@ == o && r.unwrap().1 == n
                    && n <= buffer@.len(),
                Err(e) => r == Err::<(Operation, usize), _>(e),
            },
    {
        let len = buffer.len();
        let (fee, a) = match u64_from_varint(buffer) {
            Ok(v) => v,
            Err(e) => { return Err(e); },
        };
        let s1 = slice_subrange(buffer, a, len);
        let (expire_period, b) = match u64_from_varint(s1) {
            Ok(v) => v,
            Err(e) => { return Err(e); },
        };
        let s2 = slice_subrange(s1, b, s1.len());
        let key = match read32(s2, 0) {
            Ok(k) => k,
            Err(e) => { return Err(e); },
        };
        let sender_public_key = match PublicKey::from_bytes(&key) {
            Ok(k) => k,
            Err(_) => { return Err(ModelsError::InvalidPublicKey); },
        };
        let s3 = slice_subrange(s2, 32, s2.len());
        let (op, c) = match OperationType::from_bytes_compact(s3) {
            Ok(v) => v,
            Err(e) => { return Err(e); },
        };
        let s4 = slice_subrange(s3, c, s3.len());
        let sig = match read64(s4, 0) {
            Ok(v) => v,
            Err(e) => { return Err(e); },
        };
        let signature = match Signature::from_bytes(&sig) {
            Ok(v) => v,
            Err(_) => { return Err(ModelsError::SignatureError); },
        };
        Ok(
            (
                Operation {
                    content: OperationContent {
                        sender_public_key,
                        fee: Amount::from_raw(fee),
                        expire_period,
                        op,
                    },
                    signature,
                },
                a + b + 32 + c + 64,
            ),
        )
    }

    /// The identifier of the operation: the hash of its bytes.
    pub fn get_operation_id(&self) -> (r: Result<OperationId, ModelsError>)
        ensures
            r is Ok,
            r.unwrap()@ == spec_operation_id(self@),
    {
        let mut bytes: Vec<u8> = Vec::new();
        self.write_compact(&mut bytes);
        assert(bytes@ =~= operation_bytes(self@));
        Ok(OperationId(crate::hash::Hash::compute_from(bytes.as_slice())))
    }

    /// The addresses whose rolls the operation touches, each once.
    pub fn get_roll_involved_addresses(&self) -> (r: Result<Vec<Address>, ModelsError>)
        ensures
            r is Ok,
            crate::address::addresses_distinct(r.unwrap()@),
            crate::address::address_set(r.unwrap()@) == spec_roll_involved_addresses(self@),
    {
        let mut res: Vec<Address> = Vec::new();
        assert(crate::address::address_set(res@) =~= Set::<Seq<u8>>::empty());
        match self.content.op {
            OperationType::Transaction { .. } => {},
            _ => {
                crate::address::address_list_insert(
                    &mut res,
                    Address::from_public_key(&self.content.sender_public_key),
                );
            },
        }
        assert(crate::address::address_set(res@) =~= spec_roll_involved_addresses(self@));
        Ok(res)
    }

    /// The addresses whose balance the operation touches, each once: `fee_target`
    /// where it is given, the sender, and the recipient of a transaction.
    pub fn get_ledger_involved_addresses(&self, fee_target: Option<Address>) -> (r: Result<
        Vec<Address>,
        ModelsError,
    >)
        ensures
            r is Ok,
            crate::address::addresses_distinct(r.unwrap()@),
            crate::address::address_set(r.unwrap()@) == spec_ledger_involved_addresses(
                self@,
                match fee_target {
                    Some(a) => Some(a@),
                    None => None,
                },
            ),
    {
        let mut res: Vec<Address> = Vec::new();
        assert(crate::address::address_set(res@) =~= Set::<Seq<u8>>::empty());
        if let Some(target) = fee_target {
            crate::address::address_list_insert(&mut res, target);
        }
        crate::address::address_list_insert(
            &mut res,
            Address::from_public_key(&self.content.sender_public_key),
        );
        match self.content.op {
            OperationType::Transaction { recipient_address, .. } => {
                crate::address::address_list_insert(&mut res, recipient_address);
            },
            _ => {},
        }
        assert(crate::address::address_set(res@) =~= spec_ledger_involved_addresses(
            self@,
            match fee_target {
                Some(a) => Some(a@),
                None => None,
            },
        ));
        Ok(res)
    }
}

} // verus!
