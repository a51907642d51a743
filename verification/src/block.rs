//! Blocks and block headers, with their wire format.
//!
//! A header is written as the creator's key (32 bytes), the slot (9 bytes), a flag
//! that tells whether parents follow (1 byte), the parents (32 bytes each, as many
//! as there are threads), the root of the operations (32 bytes), the number of
//! endorsements as a variable-length integer, the endorsements, and the signature
//! (64 bytes). A block is written as its header, the number of operations as a
//! variable-length integer, and the operations.

use vstd::prelude::*;
use vstd::slice::*;
use crate::address::{address_set, addresses_distinct, lemma_address_eq, Address};
use crate::block_id::BlockId;
use crate::codec::{
    bytes32_parser,
    bytes_writer,
    encode_seq,
    is_bytes32,
    lemma_bytes32_codec,
    lemma_encode_seq_empty,
    lemma_encode_seq_push,
    lemma_parse_seq_error_stays,
    lemma_parse_seq_exact,
    lemma_parse_seq_inverts,
    lemma_parse_seq_step,
    parse_seq,
    parser_exact,
    parser_in_bounds,
    parser_inverts,
    read32,
    read64,
    write_bytes,
    Parsed,
};
use crate::endorsement::{
    endorsement_bytes,
    endorsement_valid,
    lemma_endorsement_bytes_parse,
    lemma_parse_endorsement_bytes,
    parse_endorsement,
    Endorsement,
    EndorsementView,
};
use crate::error::ModelsError;
use crate::hash::blake3_digest;
use crate::operation::{
    lemma_operation_bytes_parse,
    lemma_operation_id_eq,
    lemma_parse_operation_bytes,
    operation_bytes,
    operation_valid,
    parse_operation,
    spec_ledger_involved_addresses,
    spec_operation_id,
    spec_roll_involved_addresses,
    Operation,
    OperationId,
    OperationView,
};
use crate::serialization::{
    lemma_varint_decode_encode,
    lemma_varint_encode_decode,
    spec_u32_from_varint_bounded,
    u32_from_varint_bounded,
    u64_to_varint,
    varint_decode,
    varint_encode,
    SerializationContext,
};
use crate::signature::{
    sign,
    spec_derive_public_key,
    spec_verify_signature,
    verify_signature,
    xonly_public_key_accepted,
    PrivateKey,
    PublicKey,
    Signature,
};
use crate::slot::{lemma_slot_bytes_parse, lemma_slot_parse_bytes, Slot};

verus! {

/// What a block header says.
#[derive(Clone, Debug)]
pub struct BlockHeaderContent {
    /// Key of the creator of the block.
    pub creator: PublicKey,
    /// Slot of the block.
    pub slot: Slot,
    /// Parents of the block, one per thread; none for a genesis block.
    pub parents: Vec<BlockId>,
    /// Hash of all the operations of the block.
    pub operation_merkle_root: crate::hash::Hash,
    /// Endorsements of the parent in the block's own thread.
    pub endorsements: Vec<Endorsement>,
}

/// A block header, signed by the creator.
#[derive(Clone, Debug)]
pub struct BlockHeader {
    pub content: BlockHeaderContent,
    pub signature: Signature,
}

/// A block: a header and operations.
#[derive(Clone, Debug)]
pub struct Block {
    pub header: BlockHeader,
    pub operations: Vec<Operation>,
}

/// What a block header says, as plain values.
pub struct BlockHeaderContentView {
    pub creator: Seq<u8>,
    pub slot: Slot,
    pub parents: Seq<Seq<u8>>,
    pub operation_merkle_root: Seq<u8>,
    pub endorsements: Seq<EndorsementView>,
}

/// A block header as plain values.
pub struct BlockHeaderView {
    pub content: BlockHeaderContentView,
    pub signature: Seq<u8>,
}

/// A block as plain values.
pub struct BlockView {
    pub header: BlockHeaderView,
    pub operations: Seq<OperationView>,
}

/// Identifiers as their bytes.
pub open spec fn block_ids_view(ids: Seq<BlockId>) -> Seq<Seq<u8>> {
    Seq::new(ids.len(), |i: int| ids[i]@)
}

/// Endorsements as plain values.
pub open spec fn endorsements_view(list: Seq<Endorsement>) -> Seq<EndorsementView> {
    Seq::new(list.len(), |i: int| list[i]@)
}

/// Operations as plain values.
pub open spec fn operations_view(list: Seq<Operation>) -> Seq<OperationView> {
    Seq::new(list.len(), |i: int| list[i]@)
}

impl View for BlockHeaderContent {
    type V = BlockHeaderContentView;

    open spec fn view(&self) -> BlockHeaderContentView {
        BlockHeaderContentView {
            creator: self.creator@,
            slot: self.slot,
            parents: block_ids_view(self.parents@),
            operation_merkle_root: self.operation_merkle_root@,
            endorsements: endorsements_view(self.endorsements@),
        }
    }
}

impl View for BlockHeader {
    type V = BlockHeaderView;

    open spec fn view(&self) -> BlockHeaderView {
        BlockHeaderView { content: self.content@, signature: self.signature@ }
    }
}

impl View for Block {
    type V = BlockView;

    open spec fn view(&self) -> BlockView {
        BlockView { header: self.header@, operations: operations_view(self.operations@) }
    }
}

/// The parser of an endorsement when there are `thread_count` threads.
pub open spec fn endorsement_parser(thread_count: u8) -> spec_fn(Seq<u8>) -> Parsed<
    EndorsementView,
> {
    |s: Seq<u8>| parse_endorsement(s, thread_count)
}

/// The writer of an endorsement.
pub open spec fn endorsement_writer() -> spec_fn(EndorsementView) -> Seq<u8> {
    |e: EndorsementView| endorsement_bytes(e)
}

/// Whether an endorsement can be read back when there are `thread_count` threads.
pub open spec fn is_valid_endorsement(thread_count: u8) -> spec_fn(EndorsementView) -> bool {
    |e: EndorsementView| endorsement_valid(e, thread_count)
}

/// The parser of an operation.
pub open spec fn operation_parser() -> spec_fn(Seq<u8>) -> Parsed<OperationView> {
    |s: Seq<u8>| parse_operation(s)
}

/// The writer of an operation.
pub open spec fn operation_writer() -> spec_fn(OperationView) -> Seq<u8> {
    |o: OperationView| operation_bytes(o)
}

/// Whether an operation can be read back.
pub open spec fn is_valid_operation() -> spec_fn(OperationView) -> bool {
    |o: OperationView| operation_valid(o)
}

/// Endorsements are read back, and what is read is written back.
pub proof fn lemma_endorsement_codec(thread_count: u8)
    ensures
        parser_in_bounds(endorsement_parser(thread_count)),
        parser_inverts(
            endorsement_parser(thread_count),
            endorsement_writer(),
            is_valid_endorsement(thread_count),
        ),
        parser_exact(
            endorsement_parser(thread_count),
            endorsement_writer(),
            is_valid_endorsement(thread_count),
        ),
{
    let parse = endorsement_parser(thread_count);
    assert forall|s: Seq<u8>| #[trigger] parse(s) matches Ok((_, n)) ==> n <= s.len() by {
        lemma_endorsement_bytes_parse(s, thread_count);
    }
    assert forall|item: EndorsementView, rest: Seq<u8>|
        is_valid_endorsement(thread_count)(item) implies #[trigger] parse(
        endorsement_writer()(item) + rest,
    ) == Ok::<_, ModelsError>((item, endorsement_writer()(item).len())) by {
        lemma_parse_endorsement_bytes(item, thread_count, rest);
    }
    assert forall|s: Seq<u8>| #[trigger]
        parse(s) matches Ok((item, n)) ==> n <= s.len() && is_valid_endorsement(thread_count)(item)
            && endorsement_writer()(item) == s.subrange(0, n as int) by {
        lemma_endorsement_bytes_parse(s, thread_count);
    }
}

/// Operations are read back, and what is read is written back.
pub proof fn lemma_operation_codec()
    ensures
        parser_in_bounds(operation_parser()),
        parser_inverts(operation_parser(), operation_writer(), is_valid_operation()),
        parser_exact(operation_parser(), operation_writer(), is_valid_operation()),
{
    let parse = operation_parser();
    assert forall|s: Seq<u8>| #[trigger] parse(s) matches Ok((_, n)) ==> n <= s.len() by {
        lemma_operation_bytes_parse(s);
    }
    assert forall|item: OperationView, rest: Seq<u8>|
        is_valid_operation()(item) implies #[trigger] parse(operation_writer()(item) + rest)
        == Ok::<_, ModelsError>((item, operation_writer()(item).len())) by {
        lemma_parse_operation_bytes(item, rest);
    }
    assert forall|s: Seq<u8>| #[trigger]
        parse(s) matches Ok((item, n)) ==> n <= s.len() && is_valid_operation()(item)
            && operation_writer()(item) == s.subrange(0, n as int) by {
        lemma_operation_bytes_parse(s);
    }
}

/// Whether what a header says can be read back under `ctx`: sizes and keys are
/// right, the thread is in range, there are no parents or one per thread, and the
/// endorsements are valid and within the limit.
pub open spec fn header_content_valid(c: BlockHeaderContentView, ctx: SerializationContext) -> bool {
    &&& c.creator.len() == 32
    &&& xonly_public_key_accepted(c.creator)
    &&& c.slot.thread < ctx.parent_count
    &&& c.parents.len() == 0 || c.parents.len() == ctx.parent_count
    &&& forall|i: int| 0 <= i < c.parents.len() ==> (#[trigger] c.parents[i]).len() == 32
    &&& c.operation_merkle_root.len() == 32
    &&& c.endorsements.len() <= ctx.max_block_endorsements
    &&& forall|i: int|
        0 <= i < c.endorsements.len() ==> endorsement_valid(
            #[trigger] c.endorsements[i],
            ctx.parent_count,
        )
}

/// The bytes of what a header says.
pub open spec fn header_content_bytes(c: BlockHeaderContentView) -> Seq<u8> {
    c.creator + c.slot.spec_bytes() + seq![
        if c.parents.len() == 0 {
            0u8
        } else {
            1u8
        },
    ] + encode_seq(c.parents, bytes_writer()) + c.operation_merkle_root + varint_encode(
        c.endorsements.len(),
    ) + encode_seq(c.endorsements, endorsement_writer())
}

/// What reading what a header says from the start of `s` gives.
pub open spec fn parse_header_content(s: Seq<u8>, ctx: SerializationContext) -> Parsed<
    BlockHeaderContentView,
> {
    if s.len() < 32 {
        Err(ModelsError::BufferError)
    } else if !xonly_public_key_accepted(s.subrange(0, 32)) {
        Err(ModelsError::InvalidPublicKey)
    } else {
        match Slot::spec_parse(s.subrange(32, s.len() as int), ctx.parent_count) {
            Err(e) => Err(e),
            Ok(slot) => if s.len() < 42 {
                Err(ModelsError::BufferError)
            } else if s[41] > 1 {
                Err(ModelsError::BadParentsFlag)
            } else {
                let s1 = s.subrange(42, s.len() as int);
                match parse_seq(
                    s1,
                    if s[41] == 1 {
                        ctx.parent_count as nat
                    } else {
                        0
                    },
                    bytes32_parser(),
                    None,
                ) {
                    Err(e) => Err(e),
                    Ok((parents, a)) => {
                        let s2 = s1.subrange(a as int, s1.len() as int);
                        if a > s1.len() || s2.len() < 32 {
                            Err(ModelsError::BufferError)
                        } else {
                            let s3 = s2.subrange(32, s2.len() as int);
                            match spec_u32_from_varint_bounded(s3, ctx.max_block_endorsements) {
                                Err(e) => Err(e),
                                Ok((count, b)) => {
                                    let s4 = s3.subrange(b as int, s3.len() as int);
                                    match parse_seq(
                                        s4,
                                        count as nat,
                                        endorsement_parser(ctx.parent_count),
                                        None,
                                    ) {
                                        Err(e) => Err(e),
                                        Ok((endorsements, c)) => Ok(
                                            (
                                                BlockHeaderContentView {
                                                    creator: s.subrange(0, 32),
                                                    slot,
                                                    parents,
                                                    operation_merkle_root: s2.subrange(0, 32),
                                                    endorsements,
                                                },
                                                42 + a + 32 + b + c,
                                            ),
                                        ),
                                    }
                                },
                            }
                        }
                    },
                }
            },
        }
    }
}

/// Whether a header can be read back under `ctx`.
pub open spec fn header_valid(h: BlockHeaderView, ctx: SerializationContext) -> bool {
    header_content_valid(h.content, ctx) && h.signature.len() == 64
}

/// The bytes of a header: what it says, then the signature.
pub open spec fn header_bytes(h: BlockHeaderView) -> Seq<u8> {
    header_content_bytes(h.content) + h.signature
}

/// What reading a header from the start of `s` gives.
pub open spec fn parse_header(s: Seq<u8>, ctx: SerializationContext) -> Parsed<BlockHeaderView> {
    match parse_header_content(s, ctx) {
        Err(e) => Err(e),
        Ok((content, n)) => if n > s.len() || s.len() - n < 64 {
            Err(ModelsError::BufferError)
        } else {
            Ok((BlockHeaderView { content, signature: s.subrange(n as int, n + 64 as int) }, n + 64))
        },
    }
}

/// Whether a block can be read back under `ctx`: its header and operations are
/// valid, and their number and its size are within the limits.
pub open spec fn block_valid(b: BlockView, ctx: SerializationContext) -> bool {
    &&& header_valid(b.header, ctx)
    &&& b.operations.len() <= ctx.max_block_operations
    &&& forall|i: int| 0 <= i < b.operations.len() ==> operation_valid(#[trigger] b.operations[i])
    &&& block_bytes(b).len() <= ctx.max_block_size
}

/// The bytes of a block: the header, the number of operations, the operations.
pub open spec fn block_bytes(b: BlockView) -> Seq<u8> {
    header_bytes(b.header) + varint_encode(b.operations.len()) + encode_seq(
        b.operations,
        operation_writer(),
    )
}

/// What reading a block from the start of `s` gives. The block is refused as too
/// large as soon as a part of it ends behind the size limit.
pub open spec fn parse_block(s: Seq<u8>, ctx: SerializationContext) -> Parsed<BlockView> {
    match parse_header(s, ctx) {
        Err(e) => Err(e),
        Ok((header, a)) => if a > ctx.max_block_size {
            Err(ModelsError::BlockTooLarge)
        } else {
            let s1 = s.subrange(a as int, s.len() as int);
            match spec_u32_from_varint_bounded(s1, ctx.max_block_operations) {
                Err(e) => Err(e),
                Ok((count, b)) => if a + b > ctx.max_block_size {
                    Err(ModelsError::BlockTooLarge)
                } else {
                    let s2 = s1.subrange(b as int, s1.len() as int);
                    match parse_seq(
                        s2,
                        count as nat,
                        operation_parser(),
                        Some((ctx.max_block_size - a - b) as nat),
                    ) {
                        Err(e) => Err(e),
                        Ok((operations, c)) => Ok((BlockView { header, operations }, a + b + c)),
                    }
                },
            }
        },
    }
}

/// Reading the bytes of what a valid header says gives it back, whatever follows.
pub proof fn lemma_parse_header_content_bytes(
    c: BlockHeaderContentView,
    ctx: SerializationContext,
    rest: Seq<u8>,
)
    requires
        header_content_valid(c, ctx),
    ensures
        parse_header_content(header_content_bytes(c) + rest, ctx) == Ok::<_, ModelsError>(
            (c, header_content_bytes(c).len()),
        ),
{
    let s = header_content_bytes(c) + rest;
    let flag: u8 = if c.parents.len() == 0 {
        0u8
    } else {
        1u8
    };
    let pa = encode_seq(c.parents, bytes_writer());
    let cnt = varint_encode(c.endorsements.len());
    let en = encode_seq(c.endorsements, endorsement_writer());
    let t4 = en + rest;
    let t3 = cnt + t4;
    let t2 = c.operation_merkle_root + t3;
    let t1 = pa + t2;
    let t0 = c.slot.spec_bytes() + (seq![flag] + t1);
    assert(s =~= c.creator + t0);
    assert(s.subrange(0, 32) =~= c.creator);
    assert(s.subrange(32, s.len() as int) =~= t0);
    lemma_slot_parse_bytes(c.slot, ctx.parent_count, seq![flag] + t1);
    assert(s[41] == flag);
    let s1 = s.subrange(42, s.len() as int);
    assert(s1 =~= t1);
    let count: nat = if s[41] == 1 {
        ctx.parent_count as nat
    } else {
        0
    };
    assert(count == c.parents.len());
    assert(parse_seq(s1, count, bytes32_parser(), None) == Ok::<_, ModelsError>(
        (c.parents, pa.len()),
    )) by {
        lemma_bytes32_codec();
        assert forall|i: int| 0 <= i < c.parents.len() implies is_bytes32()(
            #[trigger] c.parents[i],
        ) by {}
        lemma_parse_seq_inverts(
            c.parents,
            t2,
            bytes32_parser(),
            bytes_writer(),
            is_bytes32(),
            None,
        );
    }
    let s2 = s1.subrange(pa.len() as int, s1.len() as int);
    assert(s2 =~= t2);
    assert(s2.subrange(0, 32) =~= c.operation_merkle_root);
    let s3 = s2.subrange(32, s2.len() as int);
    assert(s3 =~= t3);
    assert(spec_u32_from_varint_bounded(s3, ctx.max_block_endorsements) == Ok::<_, ModelsError>(
        (c.endorsements.len() as u32, cnt.len()),
    )) by {
        lemma_varint_decode_encode(c.endorsements.len(), t4);
    }
    let s4 = s3.subrange(cnt.len() as int, s3.len() as int);
    assert(s4 =~= t4);
    assert(parse_seq(s4, c.endorsements.len(), endorsement_parser(ctx.parent_count), None)
        == Ok::<_, ModelsError>((c.endorsements, en.len()))) by {
        lemma_endorsement_codec(ctx.parent_count);
        assert forall|i: int| 0 <= i < c.endorsements.len() implies is_valid_endorsement(
            ctx.parent_count,
        )(#[trigger] c.endorsements[i]) by {}
        lemma_parse_seq_inverts(
            c.endorsements,
            rest,
            endorsement_parser(ctx.parent_count),
            endorsement_writer(),
            is_valid_endorsement(ctx.parent_count),
            None,
        );
    }
    assert(header_content_bytes(c).len() == 42 + pa.len() + 32 + cnt.len() + en.len());
}

/// What a header says, once read, is valid and is written back as the bytes it was
/// read from.
pub proof fn lemma_header_content_bytes_parse(s: Seq<u8>, ctx: SerializationContext)
    requires
        ctx.parent_count > 0,
    ensures
        parse_header_content(s, ctx) matches Ok((c, n)) ==> n <= s.len() && header_content_valid(
            c,
            ctx,
        ) && header_content_bytes(c) == s.subrange(0, n as int),
{
    if let Ok((c, total)) = parse_header_content(s, ctx) {
        lemma_slot_bytes_parse(s.subrange(32, s.len() as int), ctx.parent_count);
        assert(s.subrange(32, s.len() as int).subrange(0, 9) =~= s.subrange(32, 41));
        let s1 = s.subrange(42, s.len() as int);
        let count: nat = if s[41] == 1 {
            ctx.parent_count as nat
        } else {
            0
        };
        lemma_bytes32_codec();
        lemma_parse_seq_exact(s1, count, bytes32_parser(), bytes_writer(), is_bytes32(), None);
        let a = parse_seq(s1, count, bytes32_parser(), None).unwrap().1 as int;
        let s2 = s1.subrange(a, s1.len() as int);
        let s3 = s2.subrange(32, s2.len() as int);
        lemma_varint_encode_decode(s3);
        let b = varint_decode(s3).unwrap().1 as int;
        let s4 = s3.subrange(b, s3.len() as int);
        let ecount = spec_u32_from_varint_bounded(s3, ctx.max_block_endorsements).unwrap().0 as nat;
        lemma_endorsement_codec(ctx.parent_count);
        lemma_parse_seq_exact(
            s4,
            ecount,
            endorsement_parser(ctx.parent_count),
            endorsement_writer(),
            is_valid_endorsement(ctx.parent_count),
            None,
        );
        let e = parse_seq(s4, ecount, endorsement_parser(ctx.parent_count), None);
        let cc = e.unwrap().1 as int;
        assert(c.endorsements == e.unwrap().0);
        assert forall|i: int| 0 <= i < c.parents.len() implies (#[trigger] c.parents[i]).len()
            == 32 by {
            assert(is_bytes32()(c.parents[i]));
        }
        assert forall|i: int| 0 <= i < c.endorsements.len() implies endorsement_valid(
            #[trigger] c.endorsements[i],
            ctx.parent_count,
        ) by {
            assert(is_valid_endorsement(ctx.parent_count)(c.endorsements[i]));
        }
        assert(s1.subrange(0, a) =~= s.subrange(42, 42 + a));
        assert(s2.subrange(0, 32) =~= s.subrange(42 + a, 42 + a + 32));
        assert(s3.subrange(0, b) =~= s.subrange(42 + a + 32, 42 + a + 32 + b));
        assert(s4.subrange(0, cc) =~= s.subrange(42 + a + 32 + b, 42 + a + 32 + b + cc));
        assert(seq![s[41]] =~= s.subrange(41, 42));
        assert(header_content_bytes(c) =~= s.subrange(0, total as int));
    }
}

/// Reading the bytes of a valid header gives it back, whatever follows.
pub proof fn lemma_parse_header_bytes(h: BlockHeaderView, ctx: SerializationContext, rest: Seq<u8>)
    requires
        header_valid(h, ctx),
    ensures
        parse_header(header_bytes(h) + rest, ctx) == Ok::<_, ModelsError>(
            (h, header_bytes(h).len()),
        ),
{
    let s = header_bytes(h) + rest;
    let cb = header_content_bytes(h.content);
    assert(s =~= cb + (h.signature + rest));
    lemma_parse_header_content_bytes(h.content, ctx, h.signature + rest);
    assert(s.subrange(cb.len() as int, cb.len() + 64 as int) =~= h.signature);
}

/// A header that was read is valid, and is written back as the bytes it was read
/// from.
pub proof fn lemma_header_bytes_parse(s: Seq<u8>, ctx: SerializationContext)
    requires
        ctx.parent_count > 0,
    ensures
        parse_header(s, ctx) matches Ok((h, n)) ==> n <= s.len() && header_valid(h, ctx)
            && header_bytes(h) == s.subrange(0, n as int),
{
    if let Ok((h, total)) = parse_header(s, ctx) {
        lemma_header_content_bytes_parse(s, ctx);
        let n = parse_header_content(s, ctx).unwrap().1 as int;
        assert(s.subrange(0, n) + s.subrange(n, n + 64) =~= s.subrange(0, total as int));
    }
}

/// Reading the bytes of a valid block gives the block back, whatever follows: a
/// block that is written, read and written again gives the same bytes twice.
pub proof fn lemma_parse_block_bytes(b: BlockView, ctx: SerializationContext, rest: Seq<u8>)
    requires
        block_valid(b, ctx),
    ensures
        parse_block(block_bytes(b) + rest, ctx) == Ok::<_, ModelsError>((b, block_bytes(b).len())),
{
    let s = block_bytes(b) + rest;
    let hb = header_bytes(b.header);
    let cnt = varint_encode(b.operations.len());
    let ops = encode_seq(b.operations, operation_writer());
    let t2 = ops + rest;
    let t1 = cnt + t2;
    assert(s =~= hb + t1);
    assert(parse_header(s, ctx) == Ok::<_, ModelsError>((b.header, hb.len()))) by {
        lemma_parse_header_bytes(b.header, ctx, t1);
    }
    assert(block_bytes(b).len() == hb.len() + cnt.len() + ops.len());
    let s1 = s.subrange(hb.len() as int, s.len() as int);
    assert(s1 =~= t1);
    assert(spec_u32_from_varint_bounded(s1, ctx.max_block_operations) == Ok::<_, ModelsError>(
        (b.operations.len() as u32, cnt.len()),
    )) by {
        lemma_varint_decode_encode(b.operations.len(), t2);
    }
    let s2 = s1.subrange(cnt.len() as int, s1.len() as int);
    assert(s2 =~= t2);
    let limit = Some((ctx.max_block_size - hb.len() - cnt.len()) as nat);
    assert(parse_seq(s2, b.operations.len(), operation_parser(), limit) == Ok::<_, ModelsError>(
        (b.operations, ops.len()),
    )) by {
        lemma_operation_codec();
        assert forall|i: int| 0 <= i < b.operations.len() implies is_valid_operation()(
            #[trigger] b.operations[i],
        ) by {}
        lemma_parse_seq_inverts(
            b.operations,
            rest,
            operation_parser(),
            operation_writer(),
            is_valid_operation(),
            limit,
        );
    }
}

/// A block that was read is valid, and is written back as the bytes it was read
/// from.
pub proof fn lemma_block_bytes_parse(s: Seq<u8>, ctx: SerializationContext)
    requires
        ctx.parent_count > 0,
    ensures
        parse_block(s, ctx) matches Ok((b, n)) ==> n <= s.len() && block_valid(b, ctx)
            && block_bytes(b) == s.subrange(0, n as int),
{
    if let Ok((blk, total)) = parse_block(s, ctx) {
        lemma_header_bytes_parse(s, ctx);
        let a = parse_header(s, ctx).unwrap().1 as int;
        let s1 = s.subrange(a, s.len() as int);
        lemma_varint_encode_decode(s1);
        let b = varint_decode(s1).unwrap().1 as int;
        let s2 = s1.subrange(b, s1.len() as int);
        let limit = Some((ctx.max_block_size - a - b) as nat);
        let count = spec_u32_from_varint_bounded(s1, ctx.max_block_operations).unwrap().0 as nat;
        lemma_operation_codec();
        lemma_parse_seq_exact(
            s2,
            count,
            operation_parser(),
            operation_writer(),
            is_valid_operation(),
            limit,
        );
        let r = parse_seq(s2, count, operation_parser(), limit);
        let c = r.unwrap().1 as int;
        assert(blk.operations == r.unwrap().0);
        assert forall|i: int| 0 <= i < blk.operations.len() implies operation_valid(
            #[trigger] blk.operations[i],
        ) by {
            assert(is_valid_operation()(blk.operations[i]));
        }
        assert(s1.subrange(0, b) =~= s.subrange(a, a + b));
        assert(s2.subrange(0, c) =~= s.subrange(a + b, a + b + c));
        assert(block_bytes(blk) =~= s.subrange(0, total as int));
    }
}

/// The hash that a header's signature is made over: the hash of the slot's bytes
/// followed by the hash of what the header says.
pub open spec fn spec_signature_message(slot: Slot, hash: Seq<u8>) -> Seq<u8> {
    blake3_digest(slot.spec_bytes() + hash)
}

/// The hash of what a header says.
pub open spec fn spec_content_hash(c: BlockHeaderContentView) -> Seq<u8> {
    blake3_digest(header_content_bytes(c))
}

/// The identifier of a block: the hash of the bytes of its header.
pub open spec fn spec_block_id(h: BlockHeaderView) -> Seq<u8> {
    blake3_digest(header_bytes(h))
}

/// Whether the signature of a header is the creator's signature of what it says.
pub open spec fn spec_header_signed(h: BlockHeaderView) -> bool {
    spec_verify_signature(
        spec_signature_message(h.content.slot, spec_content_hash(h.content)),
        h.signature,
        h.content.creator,
    )
}

impl BlockHeaderContent {
    /// Appends the bytes of what the header says to `buffer`. Fails, leaving what
    /// was written so far, where the endorsements are too many to count.
    pub fn write_compact(&self, buffer: &mut Vec<u8>) -> (r: Result<(), ModelsError>)
        ensures
            self@.endorsements.len() <= u32::MAX ==> r is Ok && final(buffer)@ == old(buffer)@
                + header_content_bytes(self@),
            self@.endorsements.len() > u32::MAX ==> r == Err::<(), _>(ModelsError::TooManyItems),
            self@.creator.len() == 32,
            xonly_public_key_accepted(self@.creator),
            self@.operation_merkle_root.len() == 32,
            forall|i: int| 0 <= i < self@.parents.len() ==> (#[trigger] self@.parents[i]).len() == 32,
    {
        let key = self.creator.to_bytes();
        if self.endorsements.len() > u32::MAX as usize {
            return Err(ModelsError::TooManyItems);
        }
        write_bytes(key.as_slice(), buffer);
        self.slot.write_bytes(buffer);
        if self.parents.len() == 0 {
            buffer.push(0u8);
        } else {
            buffer.push(1u8);
        }
        let ghost base = buffer@;
        let mut i: usize = 0;
        proof {
            lemma_encode_seq_empty::<Seq<u8>>(bytes_writer());
            assert(block_ids_view(self.parents@).subrange(0, 0) =~= Seq::<Seq<u8>>::empty());
            assert(buffer@ =~= base + Seq::<u8>::empty());
        }
        while i < self.parents.len()
            invariant
                i <= self.parents@.len(),
                buffer@ == base + encode_seq(
                    block_ids_view(self.parents@).subrange(0, i as int),
                    bytes_writer(),
                ),
            decreases self.parents@.len() - i,
        {
            let id = self.parents[i].to_bytes();
            write_bytes(id.as_slice(), buffer);
            proof {
                let all = block_ids_view(self.parents@);
                assert(all.subrange(0, i + 1) =~= all.subrange(0, i as int).push(all[i as int]));
                lemma_encode_seq_push(all.subrange(0, i as int), all[i as int], bytes_writer());
                assert(buffer@ =~= base + encode_seq(all.subrange(0, i + 1), bytes_writer()));
            }
            i += 1;
        }
        assert(block_ids_view(self.parents@).subrange(0, self.parents@.len() as int)
            =~= block_ids_view(self.parents@));
        write_bytes(self.operation_merkle_root.to_bytes().as_slice(), buffer);
        u64_to_varint(self.endorsements.len() as u64, buffer);
        let ghost base2 = buffer@;
        let mut j: usize = 0;
        proof {
            lemma_encode_seq_empty::<EndorsementView>(endorsement_writer());
            assert(endorsements_view(self.endorsements@).subrange(0, 0)
                =~= Seq::<EndorsementView>::empty());
            assert(buffer@ =~= base2 + Seq::<u8>::empty());
        }
        while j < self.endorsements.len()
            invariant
                j <= self.endorsements@.len(),
                buffer@ == base2 + encode_seq(
                    endorsements_view(self.endorsements@).subrange(0, j as int),
                    endorsement_writer(),
                ),
            decreases self.endorsements@.len() - j,
        {
            self.endorsements[j].write_compact(buffer);
            proof {
                let all = endorsements_view(self.endorsements@);
                assert(all.subrange(0, j + 1) =~= all.subrange(0, j as int).push(all[j as int]));
                lemma_encode_seq_push(
                    all.subrange(0, j as int),
                    all[j as int],
                    endorsement_writer(),
                );
                assert(buffer@ =~= base2 + encode_seq(all.subrange(0, j + 1), endorsement_writer()));
            }
            j += 1;
        }
        assert(endorsements_view(self.endorsements@).subrange(
            0,
            self.endorsements@.len() as int,
        ) =~= endorsements_view(self.endorsements@));
        assert(buffer@ =~= old(buffer)@ + header_content_bytes(self@));
        Ok(())
    }

    /// The bytes of what the header says.
    pub fn to_bytes_compact(&self) -> (r: Result<Vec<u8>, ModelsError>)
        ensures
            self@.endorsements.len() <= u32::MAX ==> r is Ok && r.unwrap()@
                == header_content_bytes(self@),
            self@.endorsements.len() > u32::MAX ==> r == Err::<Vec<u8>, _>(
                ModelsError::TooManyItems,
            ),
    {
        let mut out: Vec<u8> = Vec::new();
        match self.write_compact(&mut out) {
            Ok(()) => {
                assert(out@ =~= header_content_bytes(self@));
                Ok(out)
            },
            Err(e) => Err(e),
        }
    }

    /// The hash of what the header says.
    pub fn compute_hash(&self) -> (r: Result<crate::hash::Hash, ModelsError>)
        ensures
            self@.endorsements.len() <= u32::MAX ==> r is Ok && r.unwrap()@ == spec_content_hash(
                self@,
            ),
            self@.endorsements.len() > u32::MAX ==> r == Err::<crate::hash::Hash, _>(
                ModelsError::TooManyItems,
            ),
    {
        match self.to_bytes_compact() {
            Ok(bytes) => Ok(crate::hash::Hash::compute_from(bytes.as_slice())),
            Err(e) => Err(e),
        }
    }

    /// Reads what a header says from the start of `buffer`: the value, and the
    /// number of bytes it takes.
    pub fn from_bytes_compact(buffer: &[u8], ctx: &SerializationContext) -> (r: Result<
        (BlockHeaderContent, usize),
        ModelsError,
    >)
        ensures
            match parse_header_content(buffer@, *ctx) {
                Ok((c, n)) => r is Ok && r.unwrap().0@ == c && r.unwrap().1 == n
                    && n <= buffer@.len(),
                Err(e) => r == Err::<(BlockHeaderContent, usize), _>(e),
            },
    {
        let len = buffer.len();
        let key = match read32(buffer, 0) {
            Ok(k) => k,
            Err(e) => { return Err(e); },
        };
        let creator = match PublicKey::from_bytes(&key) {
            Ok(k) => k,
            Err(_) => { return Err(ModelsError::InvalidPublicKey); },
        };
        let slot = match Slot::from_bytes(slice_subrange(buffer, 32, len), ctx.parent_count) {
            Ok(s) => s,
            Err(e) => { return Err(e); },
        };
        if len < 42 {
            return Err(ModelsError::BufferError);
        }
        let flag = buffer[41];
        if flag > 1 {
            return Err(ModelsError::BadParentsFlag);
        }
        let s1 = slice_subrange(buffer, 42, len);
        let count: usize = if flag == 1 {
            ctx.parent_count as usize
        } else {
            0
        };
        let parents = match read_block_ids(s1, count) {
            Ok(v) => v,
            Err(e) => { return Err(e); },
        };
        let a: usize = 32 * count;
        let s2 = slice_subrange(s1, a, s1.len());
        let root = match read32(s2, 0) {
            Ok(v) => v,
            Err(e) => { return Err(e); },
        };
        let s3 = slice_subrange(s2, 32, s2.len());
        let (ecount, b) = match u32_from_varint_bounded(s3, ctx.max_block_endorsements) {
            Ok(v) => v,
            Err(e) => { return Err(e); },
        };
        let s4 = slice_subrange(s3, b, s3.len());
        let (endorsements, c) = match read_endorsements(s4, ecount, ctx.parent_count) {
            Ok(v) => v,
            Err(e) => { return Err(e); },
        };
        Ok(
            (
                BlockHeaderContent {
                    creator,
                    slot,
                    parents,
                    operation_merkle_root: crate::hash::Hash::from_bytes(&root),
                    endorsements,
                },
                42 + a + 32 + b + c,
            ),
        )
    }
}

/// Reads `count` identifiers of 32 bytes each from the start of `buffer`.
fn read_block_ids(buffer: &[u8], count: usize) -> (r: Result<Vec<BlockId>, ModelsError>)
    requires
        count <= 255,
    ensures
        match parse_seq(buffer@, count as nat, bytes32_parser(), None) {
            Ok((ids, n)) => r is Ok && block_ids_view(r.unwrap()@) == ids && n == 32 * count
                && n <= buffer@.len(),
            Err(e) => r == Err::<Vec<BlockId>, _>(e),
        },
{
    let mut out: Vec<BlockId> = Vec::new();
    let mut i: usize = 0;
    proof {
        lemma_bytes32_codec();
        assert(block_ids_view(out@) =~= Seq::<Seq<u8>>::empty());
        lemma_parse_seq_step(buffer@, 0, bytes32_parser(), None);
    }
    while i < count
        invariant
            i <= count <= 255,
            parse_seq(buffer@, i as nat, bytes32_parser(), None) == Ok::<_, ModelsError>(
                (block_ids_view(out@), (32 * i) as nat),
            ),
            32 * i <= buffer@.len(),
        decreases count - i,
    {
        let ghost before = block_ids_view(out@);
        let ghost t = buffer@.subrange(32 * i, buffer@.len() as int);
        proof {
            lemma_parse_seq_step(buffer@, i as nat, bytes32_parser(), None);
        }
        match read32(buffer, 32 * i) {
            Err(e) => {
                proof {
                    assert(parse_seq(buffer@, (i + 1) as nat, bytes32_parser(), None) == Err::<
                        (Seq<Seq<u8>>, nat),
                        _,
                    >(ModelsError::BufferError));
                    lemma_parse_seq_error_stays(
                        buffer@,
                        (i + 1) as nat,
                        count as nat,
                        bytes32_parser(),
                        None,
                    );
                }
                return Err(e);
            },
            Ok(id) => {
                out.push(BlockId(crate::hash::Hash::from_bytes(&id)));
                proof {
                    assert(t.subrange(0, 32) =~= buffer@.subrange(32 * i, 32 * i + 32));
                    assert(block_ids_view(out@) =~= before.push(id@));
                }
            },
        }
        i += 1;
    }
    Ok(out)
}

/// Reads `count` endorsements from the start of `buffer`: the endorsements, and the
/// number of bytes they take.
fn read_endorsements(buffer: &[u8], count: u32, thread_count: u8) -> (r: Result<
    (Vec<Endorsement>, usize),
    ModelsError,
>)
    ensures
        match parse_seq(buffer@, count as nat, endorsement_parser(thread_count), None) {
            Ok((list, n)) => r is Ok && endorsements_view(r.unwrap().0@) == list && r.unwrap().1
                == n && n <= buffer@.len(),
            Err(e) => r == Err::<(Vec<Endorsement>, usize), _>(e),
        },
{
    let mut out: Vec<Endorsement> = Vec::new();
    let mut cursor: usize = 0;
    let mut i: u32 = 0;
    let len = buffer.len();
    proof {
        assert(endorsements_view(out@) =~= Seq::<EndorsementView>::empty());
        lemma_parse_seq_step(buffer@, 0, endorsement_parser(thread_count), None);
    }
    while i < count
        invariant
            i <= count,
            len == buffer@.len(),
            parse_seq(buffer@, i as nat, endorsement_parser(thread_count), None) == Ok::<
                _,
                ModelsError,
            >((endorsements_view(out@), cursor as nat)),
            cursor <= buffer@.len(),
        decreases count - i,
    {
        let ghost before = endorsements_view(out@);
        proof {
            lemma_parse_seq_step(buffer@, i as nat, endorsement_parser(thread_count), None);
        }
        match Endorsement::from_bytes_compact(slice_subrange(buffer, cursor, len), thread_count) {
            Err(e) => {
                proof {
                    assert(parse_seq(
                        buffer@,
                        (i + 1) as nat,
                        endorsement_parser(thread_count),
                        None,
                    ) == Err::<(Seq<EndorsementView>, nat), _>(e));
                    lemma_parse_seq_error_stays(
                        buffer@,
                        (i + 1) as nat,
                        count as nat,
                        endorsement_parser(thread_count),
                        None,
                    );
                }
                return Err(e);
            },
            Ok((item, n)) => {
                out.push(item);
                proof {
                    assert(endorsements_view(out@) =~= before.push(item@));
                }
                cursor = cursor + n;
            },
        }
        i += 1;
    }
    Ok((out, cursor))
}

/// Reads `count` operations from the start of `buffer`, none of which may end
/// behind `limit` bytes: the operations, and the number of bytes they take.
fn read_operations(buffer: &[u8], count: u32, limit: usize) -> (r: Result<
    (Vec<Operation>, usize),
    ModelsError,
>)
    ensures
        match parse_seq(buffer@, count as nat, operation_parser(), Some(limit as nat)) {
            Ok((list, n)) => r is Ok && operations_view(r.unwrap().0@) == list && r.unwrap().1 == n
                && n <= buffer@.len() && n <= limit,
            Err(e) => r == Err::<(Vec<Operation>, usize), _>(e),
        },
{
    let mut out: Vec<Operation> = Vec::new();
    let mut cursor: usize = 0;
    let mut i: u32 = 0;
    let len = buffer.len();
    proof {
        assert(operations_view(out@) =~= Seq::<OperationView>::empty());
        lemma_parse_seq_step(buffer@, 0, operation_parser(), Some(limit as nat));
    }
    while i < count
        invariant
            i <= count,
            len == buffer@.len(),
            parse_seq(buffer@, i as nat, operation_parser(), Some(limit as nat)) == Ok::<
                _,
                ModelsError,
            >((operations_view(out@), cursor as nat)),
            cursor <= buffer@.len(),
            i > 0 ==> cursor <= limit,
        decreases count - i,
    {
        let ghost before = operations_view(out@);
        proof {
            lemma_parse_seq_step(buffer@, i as nat, operation_parser(), Some(limit as nat));
        }
        match Operation::from_bytes_compact(slice_subrange(buffer, cursor, len)) {
            Err(e) => {
                proof {
                    assert(parse_seq(
                        buffer@,
                        (i + 1) as nat,
                        operation_parser(),
                        Some(limit as nat),
                    ) == Err::<(Seq<OperationView>, nat), _>(e));
                    lemma_parse_seq_error_stays(
                        buffer@,
                        (i + 1) as nat,
                        count as nat,
                        operation_parser(),
                        Some(limit as nat),
                    );
                }
                return Err(e);
            },
            Ok((item, n)) => {
                if cursor + n > limit {
                    proof {
                        assert(parse_seq(
                            buffer@,
                            (i + 1) as nat,
                            operation_parser(),
                            Some(limit as nat),
                        ) == Err::<(Seq<OperationView>, nat), _>(ModelsError::BlockTooLarge));
                        lemma_parse_seq_error_stays(
                            buffer@,
                            (i + 1) as nat,
                            count as nat,
                            operation_parser(),
                            Some(limit as nat),
                        );
                    }
                    return Err(ModelsError::BlockTooLarge);
                }
                out.push(item);
                proof {
                    assert(operations_view(out@) =~= before.push(item@));
                }
                cursor = cursor + n;
            },
        }
        i += 1;
    }
    proof {
        if count == 0 {
            assert(cursor == 0);
        }
    }
    Ok((out, cursor))
}

impl BlockHeader {
    /// Appends the bytes of the header to `buffer`. Fails where the endorsements
    /// are too many to count.
    pub fn write_compact(&self, buffer: &mut Vec<u8>) -> (r: Result<(), ModelsError>)
        ensures
            self@.content.endorsements.len() <= u32::MAX ==> r is Ok && final(buffer)@ == old(
                buffer,
            )@ + header_bytes(self@),
            self@.content.endorsements.len() > u32::MAX ==> r == Err::<(), _>(
                ModelsError::TooManyItems,
            ),
            self@.signature.len() == 64,
    {
        let sig = self.signature.to_bytes();
        match self.content.write_compact(buffer) {
            Ok(()) => {},
            Err(e) => { return Err(e); },
        }
        write_bytes(sig.as_slice(), buffer);
        assert(buffer@ =~= old(buffer)@ + header_bytes(self@));
        Ok(())
    }

    /// The bytes of the header.
    pub fn to_bytes_compact(&self) -> (r: Result<Vec<u8>, ModelsError>)
        ensures
            self@.content.endorsements.len() <= u32::MAX ==> r is Ok && r.unwrap()@
                == header_bytes(self@),
            self@.content.endorsements.len() > u32::MAX ==> r == Err::<Vec<u8>, _>(
                ModelsError::TooManyItems,
            ),
    {
        let mut out: Vec<u8> = Vec::new();
        match self.write_compact(&mut out) {
            Ok(()) => {
                assert(out@ =~= header_bytes(self@));
                Ok(out)
            },
            Err(e) => Err(e),
        }
    }

    /// Reads a header from the start of `buffer`: the header, and the number of
    /// bytes it takes.
    pub fn from_bytes_compact(buffer: &[u8], ctx: &SerializationContext) -> (r: Result<
        (BlockHeader, usize),
        ModelsError,
    >)
        ensures
            match parse_header(buffer@, *ctx) {
                Ok((h, n)) => r is Ok && r.unwrap().0@ == h && r.unwrap().1 == n
                    && n <= buffer@.len(),
                Err(e) => r == Err::<(BlockHeader, usize), _>(e),
            },
    {
        let len = buffer.len();
        let (content, n) = match BlockHeaderContent::from_bytes_compact(buffer, ctx) {
            Ok(v) => v,
            Err(e) => { return Err(e); },
        };
        let sig = match read64(buffer, n) {
            Ok(v) => v,
            Err(e) => { return Err(e); },
        };
        let signature = match Signature::from_bytes(&sig) {
            Ok(v) => v,
            Err(_) => { return Err(ModelsError::SignatureError); },
        };
        Ok((BlockHeader { content, signature }, n + 64))
    }

    /// The hash that the signature of a header at `slot` is made over, where `hash`
    /// is the hash of what the header says.
    pub fn get_signature_message(slot: &Slot, hash: &crate::hash::Hash) -> (r: crate::hash::Hash)
        ensures
            r@ == spec_signature_message(*slot, hash@),
    {
        let mut res: Vec<u8> = slot.to_bytes_key();
        write_bytes(hash.to_bytes().as_slice(), &mut res);
        crate::hash::Hash::compute_from(res.as_slice())
    }

    /// Checks that `signature` is the signature by `public_key` of the pair of
    /// `slot` and `hash`.
    pub fn verify_slot_hash_signature(
        slot: &Slot,
        hash: &crate::hash::Hash,
        signature: &Signature,
        public_key: &PublicKey,
    ) -> (r: Result<(), ModelsError>)
        ensures
            spec_verify_signature(spec_signature_message(*slot, hash@), signature@, public_key@)
                ==> r is Ok,
            !spec_verify_signature(spec_signature_message(*slot, hash@), signature@, public_key@)
                ==> r == Err::<(), _>(ModelsError::SignatureError),
    {
        let message = BlockHeader::get_signature_message(slot, hash);
        match verify_signature(&message, signature, public_key) {
            Ok(()) => Ok(()),
            Err(_) => Err(ModelsError::SignatureError),
        }
    }

    /// Checks the signature of the header against `hash`, the hash of what it says.
    pub fn verify_signature(&self, hash: &crate::hash::Hash) -> (r: Result<(), ModelsError>)
        ensures
            spec_verify_signature(
                spec_signature_message(self@.content.slot, hash@),
                self@.signature,
                self@.content.creator,
            ) ==> r is Ok,
            !spec_verify_signature(
                spec_signature_message(self@.content.slot, hash@),
                self@.signature,
                self@.content.creator,
            ) ==> r == Err::<(), _>(ModelsError::SignatureError),
    {
        BlockHeader::verify_slot_hash_signature(
            &self.content.slot,
            hash,
            &self.signature,
            &self.content.creator,
        )
    }

    /// Checks that the header is signed by its creator.
    pub fn check_signature(&self) -> (r: Result<(), ModelsError>)
        ensures
            self@.content.endorsements.len() > u32::MAX ==> r == Err::<(), _>(
                ModelsError::TooManyItems,
            ),
            self@.content.endorsements.len() <= u32::MAX && spec_header_signed(self@) ==> r is Ok,
            self@.content.endorsements.len() <= u32::MAX && !spec_header_signed(self@) ==> r
                == Err::<(), _>(ModelsError::SignatureError),
    {
        let hash = match self.content.compute_hash() {
            Ok(h) => h,
            Err(e) => { return Err(e); },
        };
        self.verify_signature(&hash)
    }

    /// The identifier of the block of this header: the hash of the header's bytes.
    /// The signature is not checked.
    pub fn compute_block_id(&self) -> (r: Result<BlockId, ModelsError>)
        ensures
            self@.content.endorsements.len() <= u32::MAX ==> r is Ok && r.unwrap()@
                == spec_block_id(self@),
            self@.content.endorsements.len() > u32::MAX ==> r == Err::<BlockId, _>(
                ModelsError::TooManyItems,
            ),
    {
        match self.to_bytes_compact() {
            Ok(bytes) => Ok(BlockId(crate::hash::Hash::compute_from(bytes.as_slice()))),
            Err(e) => Err(e),
        }
    }

    /// Signs what a header says with `private_key`: the identifier of the block, and
    /// the signed header. The signature is accepted under the public key of
    /// `private_key`, whatever key the content names as creator.
    pub fn new_signed(private_key: &PrivateKey, content: BlockHeaderContent) -> (r: Result<
        (BlockId, BlockHeader),
        ModelsError,
    >)
        ensures
            content@.endorsements.len() > u32::MAX ==> r == Err::<(BlockId, BlockHeader), _>(
                ModelsError::TooManyItems,
            ),
            content@.endorsements.len() <= u32::MAX ==> r is Ok && r.unwrap().1@.content
                == content@ && r.unwrap().0@ == spec_block_id(r.unwrap().1@)
                && spec_verify_signature(
                spec_signature_message(content@.slot, spec_content_hash(content@)),
                r.unwrap().1@.signature,
                spec_derive_public_key(private_key@),
            ),
    {
        let hash = match content.compute_hash() {
            Ok(h) => h,
            Err(e) => { return Err(e); },
        };
        let message = BlockHeader::get_signature_message(&content.slot, &hash);
        let signature = match sign(&message, private_key) {
            Ok(s) => s,
            Err(_) => { return Err(ModelsError::SignatureError); },
        };
        let header = BlockHeader { content, signature };
        let block_id = match header.compute_block_id() {
            Ok(id) => id,
            Err(e) => { return Err(e); },
        };
        Ok((block_id, header))
    }
}

/// A header signed with the key that its content names as creator is accepted by
/// `check_signature`.
pub proof fn lemma_signed_by_creator_checks(h: BlockHeaderView, private_key: Seq<u8>)
    requires
        h.content.creator == spec_derive_public_key(private_key),
        spec_verify_signature(
            spec_signature_message(h.content.slot, spec_content_hash(h.content)),
            h.signature,
            spec_derive_public_key(private_key),
        ),
    ensures
        spec_header_signed(h),
{
}

/// The addresses whose rolls some operation among `ops` touches.
pub open spec fn spec_block_roll_involved_addresses(ops: Seq<OperationView>) -> Set<Seq<u8>> {
    Set::new(
        |a: Seq<u8>|
            exists|i: int| 0 <= i < ops.len() && spec_roll_involved_addresses(ops[i]).contains(a),
    )
}

impl BlockHeader {
    /// The fitness of a block with `endorsements` endorsements: one, plus one per
    /// endorsement, and no more than fits.
    pub open spec fn spec_fitness(endorsements: nat) -> u64 {
        if 1 + endorsements > u64::MAX {
            u64::MAX
        } else {
            (1 + endorsements) as u64
        }
    }

    /// The fitness of the block of this header: one, plus one per endorsement.
    pub fn get_fitness(&self) -> (r: u64)
        ensures
            r == BlockHeader::spec_fitness(self@.content.endorsements.len()),
    {
        let n = self.content.endorsements.len();
        if n as u128 >= u64::MAX as u128 {
            u64::MAX
        } else {
            1 + n as u64
        }
    }
}

impl Block {
    /// Appends the bytes of the block to `buffer`. Fails where the endorsements or
    /// the operations are too many to count.
    pub fn write_compact(&self, buffer: &mut Vec<u8>) -> (r: Result<(), ModelsError>)
        ensures
            self@.header.content.endorsements.len() <= u32::MAX && self@.operations.len()
                <= u32::MAX ==> r is Ok && final(buffer)@ == old(buffer)@ + block_bytes(self@),
            self@.header.content.endorsements.len() > u32::MAX || self@.operations.len()
                > u32::MAX ==> r == Err::<(), _>(ModelsError::TooManyItems),
    {
        match self.header.write_compact(buffer) {
            Ok(()) => {},
            Err(e) => { return Err(e); },
        }
        if self.operations.len() > u32::MAX as usize {
            return Err(ModelsError::TooManyItems);
        }
        u64_to_varint(self.operations.len() as u64, buffer);
        let ghost base = buffer@;
        let mut i: usize = 0;
        proof {
            lemma_encode_seq_empty::<OperationView>(operation_writer());
            assert(operations_view(self.operations@).subrange(0, 0) =~= Seq::<OperationView>::empty());
            assert(buffer@ =~= base + Seq::<u8>::empty());
        }
        while i < self.operations.len()
            invariant
                i <= self.operations@.len(),
                buffer@ == base + encode_seq(
                    operations_view(self.operations@).subrange(0, i as int),
                    operation_writer(),
                ),
            decreases self.operations@.len() - i,
        {
            self.operations[i].write_compact(buffer);
            proof {
                let all = operations_view(self.operations@);
                assert(all.subrange(0, i + 1) =~= all.subrange(0, i as int).push(all[i as int]));
                lemma_encode_seq_push(all.subrange(0, i as int), all[i as int], operation_writer());
                assert(buffer@ =~= base + encode_seq(all.subrange(0, i + 1), operation_writer()));
            }
            i += 1;
        }
        assert(operations_view(self.operations@).subrange(0, self.operations@.len() as int)
            =~= operations_view(self.operations@));
        assert(buffer@ =~= old(buffer)@ + block_bytes(self@));
        Ok(())
    }

    /// The bytes of the block.
    pub fn to_bytes_compact(&self) -> (r: Result<Vec<u8>, ModelsError>)
        ensures
            self@.header.content.endorsements.len() <= u32::MAX && self@.operations.len()
                <= u32::MAX ==> r is Ok && r.unwrap()@ == block_bytes(self@),
            self@.header.content.endorsements.len() > u32::MAX || self@.operations.len()
                > u32::MAX ==> r == Err::<Vec<u8>, _>(ModelsError::TooManyItems),
    {
        let mut out: Vec<u8> = Vec::new();
        match self.write_compact(&mut out) {
            Ok(()) => {
                assert(out@ =~= block_bytes(self@));
                Ok(out)
            },
            Err(e) => Err(e),
        }
    }

    /// Reads a block from the start of `buffer`: the block, and the number of bytes
    /// it takes.
    pub fn from_bytes_compact(buffer: &[u8], ctx: &SerializationContext) -> (r: Result<
        (Block, usize),
        ModelsError,
    >)
        ensures
            match parse_block(buffer@, *ctx) {
                Ok((b, n)) => r is Ok && r.unwrap().0@ == b && r.unwrap().1 == n
                    && n <= buffer@.len(),
                Err(e) => r == Err::<(Block, usize), _>(e),
            },
    {
        let len = buffer.len();
        let max = ctx.max_block_size as usize;
        let (header, a) = match BlockHeader::from_bytes_compact(buffer, ctx) {
            Ok(v) => v,
            Err(e) => { return Err(e); },
        };
        if a > max {
            return Err(ModelsError::BlockTooLarge);
        }
        let s1 = slice_subrange(buffer, a, len);
        let (count, b) = match u32_from_varint_bounded(s1, ctx.max_block_operations) {
            Ok(v) => v,
            Err(e) => { return Err(e); },
        };
        if a + b > max {
            return Err(ModelsError::BlockTooLarge);
        }
        let s2 = slice_subrange(s1, b, s1.len());
        let (operations, c) = match read_operations(s2, count, max - a - b) {
            Ok(v) => v,
            Err(e) => { return Err(e); },
        };
        Ok((Block { header, operations }, a + b + c))
    }

    /// The number of bytes of the block.
    pub fn bytes_count(&self) -> (r: Result<u64, ModelsError>)
        ensures
            self@.header.content.endorsements.len() <= u32::MAX && self@.operations.len()
                <= u32::MAX ==> r is Ok && r.unwrap() == block_bytes(self@).len(),
            self@.header.content.endorsements.len() > u32::MAX || self@.operations.len()
                > u32::MAX ==> r == Err::<u64, _>(ModelsError::TooManyItems),
    {
        match self.to_bytes_compact() {
            Ok(bytes) => Ok(bytes.len() as u64),
            Err(e) => Err(e),
        }
    }

    /// Whether the block holds an operation with the identifier of `op`.
    pub fn contains_operation(&self, op: &Operation) -> (r: Result<bool, ModelsError>)
        ensures
            r is Ok,
            r.unwrap() == exists|i: int|
                0 <= i < self@.operations.len() && spec_operation_id(self@.operations[i])
                    == spec_operation_id(op@),
    {
        let op_id = match op.get_operation_id() {
            Ok(id) => id,
            Err(e) => { return Err(e); },
        };
        let mut i: usize = 0;
        while i < self.operations.len()
            invariant
                i <= self.operations@.len(),
                op_id@ == spec_operation_id(op@),
                forall|j: int|
                    0 <= j < i ==> spec_operation_id(#[trigger] self@.operations[j])
                        != spec_operation_id(op@),
            decreases self.operations@.len() - i,
        {
            let found = match self.operations[i].get_operation_id() {
                Ok(id) => {
                    proof {
                        lemma_operation_id_eq(id, op_id);
                    }
                    id == op_id
                },
                Err(_) => false,
            };
            assert(self@.operations[i as int] == self.operations@[i as int]@);
            if found {
                return Ok(true);
            }
            i += 1;
        }
        Ok(false)
    }

    /// The addresses whose rolls the operations of the block touch, each once.
    pub fn get_roll_involved_addresses(&self) -> (r: Result<Vec<Address>, ModelsError>)
        ensures
            r is Ok,
            addresses_distinct(r.unwrap()@),
            address_set(r.unwrap()@) == spec_block_roll_involved_addresses(self@.operations),
    {
        let mut res: Vec<Address> = Vec::new();
        let mut i: usize = 0;
        assert(address_set(res@) =~= spec_block_roll_involved_addresses(
            self@.operations.subrange(0, 0),
        ));
        while i < self.operations.len()
            invariant
                i <= self.operations@.len(),
                addresses_distinct(res@),
                address_set(res@) == spec_block_roll_involved_addresses(
                    self@.operations.subrange(0, i as int),
                ),
            decreases self.operations@.len() - i,
        {
            let addrs = match self.operations[i].get_roll_involved_addresses() {
                Ok(a) => a,
                Err(e) => { return Err(e); },
            };
            let ghost before = address_set(res@);
            let mut j: usize = 0;
            while j < addrs.len()
                invariant
                    j <= addrs@.len(),
                    addresses_distinct(res@),
                    address_set(res@) == before.union(address_set(addrs@.subrange(0, j as int))),
                decreases addrs@.len() - j,
            {
                let ghost prev = address_set(res@);
                crate::address::address_list_insert(&mut res, addrs[j]);
                proof {
                    let part = addrs@.subrange(0, j as int);
                    let next = addrs@.subrange(0, j + 1);
                    assert forall|a: Seq<u8>|
                        address_set(next).contains(a) == (address_set(part).contains(a) || a
                            == addrs@[j as int]@) by {
                        if address_set(next).contains(a) {
                            let k = choose|k: int| 0 <= k < next.len() && next[k]@ == a;
                            if k < j {
                                assert(part[k]@ == a);
                            }
                        }
                        if address_set(part).contains(a) {
                            let k = choose|k: int| 0 <= k < part.len() && part[k]@ == a;
                            assert(next[k]@ == a);
                        }
                        if a == addrs@[j as int]@ {
                            assert(next[j as int]@ == a);
                        }
                    }
                    assert(address_set(res@) =~= before.union(address_set(next)));
                }
                j += 1;
            }
            proof {
                assert(addrs@.subrange(0, addrs@.len() as int) =~= addrs@);
                let part = self@.operations.subrange(0, i as int);
                let next = self@.operations.subrange(0, i + 1);
                let op = self.operations@[i as int]@;
                assert(self@.operations[i as int] == op);
                assert forall|a: Seq<u8>|
                    spec_block_roll_involved_addresses(next).contains(a) == (
                    spec_block_roll_involved_addresses(part).contains(a)
                        || spec_roll_involved_addresses(op).contains(a)) by {
                    if spec_block_roll_involved_addresses(next).contains(a) {
                        let k = choose|k: int|
                            0 <= k < next.len() && spec_roll_involved_addresses(next[k]).contains(
                                a,
                            );
                        if k < i {
                            assert(part[k] == next[k]);
                        }
                    }
                    if spec_block_roll_involved_addresses(part).contains(a) {
                        let k = choose|k: int|
                            0 <= k < part.len() && spec_roll_involved_addresses(part[k]).contains(
                                a,
                            );
                        assert(next[k] == part[k]);
                    }
                    if spec_roll_involved_addresses(op).contains(a) {
                        assert(next[i as int] == op);
                    }
                }
                assert(address_set(res@) =~= spec_block_roll_involved_addresses(next));
            }
            i += 1;
        }
        assert(self@.operations.subrange(0, self@.operations.len() as int) =~= self@.operations);
        Ok(res)
    }
}

/// Whether a list of addresses with operations has an entry for the address `a`.
pub open spec fn involves_address(list: Seq<(Address, Vec<OperationId>)>, a: Seq<u8>) -> bool {
    exists|i: int| 0 <= i < list.len() && (#[trigger] list[i]).0@ == a
}

/// Whether a list of addresses with operations has the operation `x` under the
/// address `a`.
pub open spec fn involves(list: Seq<(Address, Vec<OperationId>)>, a: Seq<u8>, x: Seq<u8>) -> bool {
    exists|i: int, k: int|
        0 <= i < list.len() && (#[trigger] list[i]).0@ == a && 0 <= k < list[i].1@.len()
            && (#[trigger] list[i].1@[k])@ == x
}

/// Whether a list of addresses with operations has each address once, and each
/// operation once under an address.
pub open spec fn involvement_distinct(list: Seq<(Address, Vec<OperationId>)>) -> bool {
    &&& forall|i: int, j: int| 0 <= i < j < list.len() ==> (#[trigger] list[i]).0@ != (#[trigger] list[j]).0@
    &&& forall|i: int, k: int, m: int|
        0 <= i < list.len() && 0 <= k < m < list[i].1@.len() ==> (#[trigger] list[i].1@[k])@
            != (#[trigger] list[i].1@[m])@
}

/// Whether `a` is one of the first `k` addresses of a list.
pub open spec fn is_listed(addrs: Seq<Address>, k: int, a: Seq<u8>) -> bool {
    exists|m: int| 0 <= m < k && (#[trigger] addrs[m])@ == a
}

/// Puts the operation `id` under the address `addr`.
fn involve(out: &mut Vec<(Address, Vec<OperationId>)>, addr: Address, id: OperationId)
    requires
        involvement_distinct(old(out)@),
    ensures
        involvement_distinct(final(out)@),
        forall|a: Seq<u8>|
            involves_address(final(out)@, a) <==> involves_address(old(out)@, a) || a == addr@,
        forall|a: Seq<u8>, x: Seq<u8>|
            involves(final(out)@, a, x) <==> involves(old(out)@, a, x) || (a == addr@ && x == id@),
{
    let n = out.len();
    let mut i: usize = 0;
    while i < n
        invariant
            i <= n,
            n == out@.len(),
            out@ == old(out)@,
            involvement_distinct(out@),
            forall|j: int| 0 <= j < i ==> (#[trigger] out@[j]).0@ != addr@,
        decreases n - i,
    {
        if out[i].0 == addr {
            proof {
                lemma_address_eq(out@[i as int].0, addr);
            }
            // is the operation there?
            let mut k: usize = 0;
            let mut found = false;
            while k < out[i].1.len()
                invariant
                    i < n,
                    n == out@.len(),
                    out@ == old(out)@,
                    k <= out@[i as int].1@.len(),
                    found <==> exists|m: int| 0 <= m < k && (#[trigger] out@[i as int].1@[m])@ == id@,
                decreases out@[i as int].1@.len() - k,
            {
                if out[i].1[k] == id {
                    proof {
                        lemma_operation_id_eq(out@[i as int].1@[k as int], id);
                    }
                    found = true;
                } else {
                    proof {
                        lemma_operation_id_eq(out@[i as int].1@[k as int], id);
                    }
                }
                k += 1;
            }
            if !found {
                out[i].1.push(id);
            }
            proof {
                let before = old(out)@;
                let after = out@;
                assert forall|j: int| 0 <= j < n && j != i implies after[j] == before[j] by {}
                assert(after[i as int].0 == before[i as int].0);
                assert forall|a: Seq<u8>|
                    involves_address(after, a) <==> involves_address(before, a) || a == addr@ by {
                    if involves_address(after, a) {
                        let j = choose|j: int| 0 <= j < after.len() && (#[trigger] after[j]).0@ == a;
                        assert(before[j].0@ == a);
                    }
                    if involves_address(before, a) {
                        let j = choose|j: int|
                            0 <= j < before.len() && (#[trigger] before[j]).0@ == a;
                        assert(after[j].0@ == a);
                    }
                    if a == addr@ {
                        assert(after[i as int].0@ == a);
                    }
                }
                assert forall|a: Seq<u8>, x: Seq<u8>|
                    involves(after, a, x) <==> involves(before, a, x) || (a == addr@ && x
                        == id@) by {
                    if involves(after, a, x) {
                        let (j, k2) = choose|j: int, k2: int|
                            0 <= j < after.len() && (#[trigger] after[j]).0@ == a && 0 <= k2
                                < after[j].1@.len() && (#[trigger] after[j].1@[k2])@ == x;
                        if j != i || k2 < before[i as int].1@.len() {
                            assert(before[j].0@ == a && before[j].1@[k2]@ == x);
                        }
                    }
                    if involves(before, a, x) {
                        let (j, k2) = choose|j: int, k2: int|
                            0 <= j < before.len() && (#[trigger] before[j]).0@ == a && 0 <= k2
                                < before[j].1@.len() && (#[trigger] before[j].1@[k2])@ == x;
                        assert(after[j].0@ == a && after[j].1@[k2]@ == x);
                    }
                    if a == addr@ && x == id@ {
                        if found {
                            let m = choose|m: int|
                                0 <= m < before[i as int].1@.len() && (#[trigger] before[i as int].1@[m])@
                                    == id@;
                            assert(after[i as int].0@ == a && after[i as int].1@[m]@ == x);
                        } else {
                            let m = after[i as int].1@.len() - 1;
                            assert(after[i as int].0@ == a && after[i as int].1@[m]@ == x);
                        }
                    }
                }
                assert forall|j: int, k2: int, m: int|
                    0 <= j < after.len() && 0 <= k2 < m < after[j].1@.len() implies (#[trigger] after[j].1@[k2])@
                    != (#[trigger] after[j].1@[m])@ by {
                    if j == i && m == before[i as int].1@.len() {
                        assert(!found);
                        assert(before[i as int].1@[k2]@ != id@);
                    } else {
                        assert(before[j].1@[k2]@ != before[j].1@[m]@);
                    }
                }
                assert forall|a: int, b: int| 0 <= a < b < after.len() implies (#[trigger] after[a]).0@
                    != (#[trigger] after[b]).0@ by {
                    assert(before[a].0@ != before[b].0@);
                }
            }
            return ;
        } else {
            proof {
                lemma_address_eq(out@[i as int].0, addr);
            }
        }
        i += 1;
    }
    let mut ids: Vec<OperationId> = Vec::new();
    ids.push(id);
    out.push((addr, ids));
    proof {
        let before = old(out)@;
        let after = out@;
        let last = before.len() as int;
        assert forall|a: Seq<u8>|
            involves_address(after, a) <==> involves_address(before, a) || a == addr@ by {
            if involves_address(after, a) {
                let j = choose|j: int| 0 <= j < after.len() && (#[trigger] after[j]).0@ == a;
                if j < last {
                    assert(before[j].0@ == a);
                }
            }
            if involves_address(before, a) {
                let j = choose|j: int| 0 <= j < before.len() && (#[trigger] before[j]).0@ == a;
                assert(after[j].0@ == a);
            }
            if a == addr@ {
                assert(after[last].0@ == a);
            }
        }
        assert forall|a: Seq<u8>, x: Seq<u8>|
            involves(after, a, x) <==> involves(before, a, x) || (a == addr@ && x == id@) by {
            if involves(after, a, x) {
                let (j, k2) = choose|j: int, k2: int|
                    0 <= j < after.len() && (#[trigger] after[j]).0@ == a && 0 <= k2
                        < after[j].1@.len() && (#[trigger] after[j].1@[k2])@ == x;
                if j < last {
                    assert(before[j].0@ == a && before[j].1@[k2]@ == x);
                }
            }
            if involves(before, a, x) {
                let (j, k2) = choose|j: int, k2: int|
                    0 <= j < before.len() && (#[trigger] before[j]).0@ == a && 0 <= k2
                        < before[j].1@.len() && (#[trigger] before[j].1@[k2])@ == x;
                assert(after[j].0@ == a && after[j].1@[k2]@ == x);
            }
            if a == addr@ && x == id@ {
                assert(after[last].0@ == a && after[last].1@[0]@ == x);
            }
        }
        assert forall|j: int, k2: int, m: int|
            0 <= j < after.len() && 0 <= k2 < m < after[j].1@.len() implies (#[trigger] after[j].1@[k2])@
            != (#[trigger] after[j].1@[m])@ by {
            if j < last {
                assert(before[j].1@[k2]@ != before[j].1@[m]@);
            }
        }
        assert forall|a: int, b: int| 0 <= a < b < after.len() implies (#[trigger] after[a]).0@
            != (#[trigger] after[b]).0@ by {
            if b < last {
                assert(before[a].0@ != before[b].0@);
            } else {
                assert(before[a].0@ != addr@);
            }
        }
    }
}

impl Block {
    /// For each address whose balance an operation of the block touches, the
    /// operations that touch it. The fee of each operation goes to the creator of the
    /// block, whose address is thereby involved in every operation.
    pub fn involved_addresses(&self) -> (r: Result<Vec<(Address, Vec<OperationId>)>, ModelsError>)
        ensures
            r is Ok,
            involvement_distinct(r.unwrap()@),
            forall|a: Seq<u8>|
                involves_address(r.unwrap()@, a) <==> exists|j: int|
                    0 <= j < self@.operations.len() && spec_ledger_involved_addresses(
                        #[trigger] self@.operations[j],
                        Some(Address::spec_from_public_key(self@.header.content.creator)),
                    ).contains(a),
            forall|a: Seq<u8>, x: Seq<u8>|
                involves(r.unwrap()@, a, x) <==> exists|j: int|
                    0 <= j < self@.operations.len() && spec_operation_id(
                        #[trigger] self@.operations[j],
                    ) == x && spec_ledger_involved_addresses(
                        self@.operations[j],
                        Some(Address::spec_from_public_key(self@.header.content.creator)),
                    ).contains(a),
    {
        let creator = Address::from_public_key(&self.header.content.creator);
        let ghost target = Some(Address::spec_from_public_key(self@.header.content.creator));
        let mut out: Vec<(Address, Vec<OperationId>)> = Vec::new();
        let mut i: usize = 0;
        while i < self.operations.len()
            invariant
                i <= self.operations@.len(),
                creator@ == Address::spec_from_public_key(self@.header.content.creator),
                target == Some(Address::spec_from_public_key(self@.header.content.creator)),
                involvement_distinct(out@),
                forall|a: Seq<u8>|
                    involves_address(out@, a) <==> exists|j: int|
                        0 <= j < i && spec_ledger_involved_addresses(
                            #[trigger] self@.operations[j],
                            target,
                        ).contains(a),
                forall|a: Seq<u8>, x: Seq<u8>|
                    involves(out@, a, x) <==> exists|j: int|
                        0 <= j < i && spec_operation_id(#[trigger] self@.operations[j]) == x
                            && spec_ledger_involved_addresses(self@.operations[j], target).contains(
                            a,
                        ),
            decreases self.operations@.len() - i,
        {
            let op = &self.operations[i];
            let ghost opv = self@.operations[i as int];
            assert(opv == op@);
            let addrs = match op.get_ledger_involved_addresses(Some(creator)) {
                Ok(a) => a,
                Err(e) => { return Err(e); },
            };
            let id = match op.get_operation_id() {
                Ok(id) => id,
                Err(e) => { return Err(e); },
            };
            let ghost start = out@;
            let mut k: usize = 0;
            while k < addrs.len()
                invariant
                    k <= addrs@.len(),
                    involvement_distinct(out@),
                    forall|a: Seq<u8>|
                        #![trigger involves_address(out@, a)]
                        involves_address(out@, a) <==> involves_address(start, a) || is_listed(
                            addrs@,
                            k as int,
                            a,
                        ),
                    forall|a: Seq<u8>, x: Seq<u8>|
                        #![trigger involves(out@, a, x)]
                        involves(out@, a, x) <==> involves(start, a, x) || (x == id@ && is_listed(
                            addrs@,
                            k as int,
                            a,
                        )),
                decreases addrs@.len() - k,
            {
                let ghost prev = out@;
                involve(&mut out, addrs[k], id);
                proof {
                    assert forall|a: Seq<u8>|
                        is_listed(addrs@, k + 1, a) <==> is_listed(addrs@, k as int, a) || a
                            == addrs@[k as int]@ by {
                        if is_listed(addrs@, k as int, a) {
                            let m = choose|m: int| 0 <= m < k && (#[trigger] addrs@[m])@ == a;
                            assert(0 <= m < k + 1);
                        }
                        if is_listed(addrs@, k + 1, a) {
                            let m = choose|m: int| 0 <= m < k + 1 && (#[trigger] addrs@[m])@ == a;
                            if m < k {
                                assert(is_listed(addrs@, k as int, a));
                            }
                        }
                        if a == addrs@[k as int]@ {
                            assert(addrs@[k as int]@ == a);
                        }
                    }
                    assert forall|a: Seq<u8>|
                        #![trigger involves_address(out@, a)]
                        involves_address(out@, a) <==> involves_address(start, a) || is_listed(
                            addrs@,
                            k + 1,
                            a,
                        ) by {
                        assert(involves_address(prev, a) <==> involves_address(start, a)
                            || is_listed(addrs@, k as int, a));
                        assert(is_listed(addrs@, k + 1, a) <==> is_listed(addrs@, k as int, a) || a
                            == addrs@[k as int]@);
                    }
                    assert forall|a: Seq<u8>, x: Seq<u8>|
                        #![trigger involves(out@, a, x)]
                        involves(out@, a, x) <==> involves(start, a, x) || (x == id@ && is_listed(
                            addrs@,
                            k + 1,
                            a,
                        )) by {
                        assert(involves(prev, a, x) <==> involves(start, a, x) || (x == id@
                            && is_listed(addrs@, k as int, a)));
                        assert(is_listed(addrs@, k + 1, a) <==> is_listed(addrs@, k as int, a) || a
                            == addrs@[k as int]@);
                    }
                }
                k += 1;
            }
            proof {
                let inv = spec_ledger_involved_addresses(opv, target);
                assert forall|a: Seq<u8>|
                    inv.contains(a) <==> is_listed(addrs@, addrs@.len() as int, a) by {
                    assert(address_set(addrs@).contains(a) == inv.contains(a));
                }
                assert forall|a: Seq<u8>|
                    #![trigger involves_address(out@, a)]
                    involves_address(out@, a) <==> involves_address(start, a) || inv.contains(
                        a,
                    ) by {
                    assert(inv.contains(a) <==> is_listed(addrs@, addrs@.len() as int, a));
                }
                assert forall|a: Seq<u8>, x: Seq<u8>|
                    #![trigger involves(out@, a, x)]
                    involves(out@, a, x) <==> involves(start, a, x) || (x == id@ && inv.contains(
                        a,
                    )) by {
                    assert(inv.contains(a) <==> is_listed(addrs@, addrs@.len() as int, a));
                }
                assert forall|a: Seq<u8>|
                    involves_address(out@, a) <==> exists|j: int|
                        0 <= j < i + 1 && spec_ledger_involved_addresses(
                            #[trigger] self@.operations[j],
                            target,
                        ).contains(a) by {
                    if involves_address(start, a) {
                        let j = choose|j: int|
                            0 <= j < i && spec_ledger_involved_addresses(
                                #[trigger] self@.operations[j],
                                target,
                            ).contains(a);
                        assert(0 <= j < i + 1);
                    }
                    if exists|j: int|
                        0 <= j < i + 1 && spec_ledger_involved_addresses(
                            #[trigger] self@.operations[j],
                            target,
                        ).contains(a) {
                        let j = choose|j: int|
                            0 <= j < i + 1 && spec_ledger_involved_addresses(
                                #[trigger] self@.operations[j],
                                target,
                            ).contains(a);
                        if j < i {
                            assert(involves_address(start, a));
                        } else {
                            assert(inv.contains(a));
                        }
                    }
                    if inv.contains(a) {
                        assert(spec_ledger_involved_addresses(
                            self@.operations[i as int],
                            target,
                        ).contains(a));
                    }
                }
                assert forall|a: Seq<u8>, x: Seq<u8>|
                    involves(out@, a, x) <==> exists|j: int|
                        0 <= j < i + 1 && spec_operation_id(#[trigger] self@.operations[j]) == x
                            && spec_ledger_involved_addresses(self@.operations[j], target).contains(
                            a,
                        ) by {
                    if involves(start, a, x) {
                        let j = choose|j: int|
                            0 <= j < i && spec_operation_id(#[trigger] self@.operations[j]) == x
                                && spec_ledger_involved_addresses(
                                self@.operations[j],
                                target,
                            ).contains(a);
                        assert(0 <= j < i + 1);
                    }
                    if exists|j: int|
                        0 <= j < i + 1 && spec_operation_id(#[trigger] self@.operations[j]) == x
                            && spec_ledger_involved_addresses(self@.operations[j], target).contains(
                            a,
                        ) {
                        let j = choose|j: int|
                            0 <= j < i + 1 && spec_operation_id(#[trigger] self@.operations[j])
                                == x && spec_ledger_involved_addresses(
                                self@.operations[j],
                                target,
                            ).contains(a);
                        if j < i {
                            assert(involves(start, a, x));
                        } else {
                            assert(inv.contains(a) && x == id@);
                        }
                    }
                    if x == id@ && inv.contains(a) {
                        assert(spec_operation_id(self@.operations[i as int]) == x
                            && spec_ledger_involved_addresses(
                            self@.operations[i as int],
                            target,
                        ).contains(a));
                    }
                }
            }
            i += 1;
        }
        Ok(out)
    }
}

} // verus!
