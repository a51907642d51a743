//! The wire format of snapshots.
//!
//! A block of a snapshot is written as the block, a flag that tells whether parents
//! follow (1 byte), the parents (each as 32 bytes and its period as a
//! variable-length integer, as many as there are threads), and a flag that tells
//! whether it is final (1 byte). A snapshot is written as the number of its blocks
//! as a variable-length integer, and the blocks.

use vstd::prelude::*;
use vstd::slice::*;
use crate::block::{
    block_bytes,
    block_valid,
    lemma_block_bytes_parse,
    lemma_parse_block_bytes,
    parse_block,
    Block,
    BlockView,
};
use crate::block_id::BlockId;
use crate::bootstrap::{BootstrapableGraph, ExportActiveBlock};
use crate::codec::{
    encode_seq,
    lemma_encode_seq_empty,
    lemma_encode_seq_push,
    lemma_parse_seq_error_stays,
    lemma_parse_seq_exact,
    lemma_parse_seq_inverts,
    lemma_parse_seq_step,
    parse_seq,
    parser_exact,
    parser_in_bounds,
    parser_inverts,
    read32,
    write_bytes,
    Parsed,
};
use crate::error::ModelsError;
use crate::serialization::{
    lemma_varint_decode_encode,
    lemma_varint_encode_decode,
    spec_u32_from_varint_bounded,
    spec_u64_from_varint,
    u32_from_varint_bounded,
    u64_from_varint,
    u64_to_varint,
    varint_decode,
    varint_encode,
    SerializationContext,
};

verus! {

/// A block of a snapshot as plain values.
pub struct ExportActiveBlockView {
    pub block: BlockView,
    pub parents: Seq<(Seq<u8>, u64)>,
    pub is_final: bool,
}

/// A snapshot as plain values.
pub struct BootstrapableGraphView {
    pub final_blocks: Seq<ExportActiveBlockView>,
}

/// Parents as plain values.
pub open spec fn parents_view(list: Seq<(BlockId, u64)>) -> Seq<(Seq<u8>, u64)> {
    Seq::new(list.len(), |i: int| (list[i].0@, list[i].1))
}

/// Blocks of a snapshot as plain values.
pub open spec fn export_blocks_view(list: Seq<ExportActiveBlock>) -> Seq<ExportActiveBlockView> {
    Seq::new(list.len(), |i: int| list[i]@)
}

impl View for ExportActiveBlock {
    type V = ExportActiveBlockView;

    open spec fn view(&self) -> ExportActiveBlockView {
        ExportActiveBlockView {
            block: self.block@,
            parents: parents_view(self.parents@),
            is_final: self.is_final,
        }
    }
}

impl View for BootstrapableGraph {
    type V = BootstrapableGraphView;

    open spec fn view(&self) -> BootstrapableGraphView {
        BootstrapableGraphView { final_blocks: export_blocks_view(self.final_blocks@) }
    }
}

/// The bytes of a parent: its identifier and its period.
pub open spec fn parent_bytes(p: (Seq<u8>, u64)) -> Seq<u8> {
    p.0 + varint_encode(p.1 as nat)
}

/// What reading a parent from the start of `s` gives.
pub open spec fn parse_parent(s: Seq<u8>) -> Parsed<(Seq<u8>, u64)> {
    if s.len() < 32 {
        Err(ModelsError::BufferError)
    } else {
        match spec_u64_from_varint(s.subrange(32, s.len() as int)) {
            Err(e) => Err(e),
            Ok((period, n)) => Ok(((s.subrange(0, 32), period), 32 + n)),
        }
    }
}

/// The parser of a parent.
pub open spec fn parent_parser() -> spec_fn(Seq<u8>) -> Parsed<(Seq<u8>, u64)> {
    |s: Seq<u8>| parse_parent(s)
}

/// The writer of a parent.
pub open spec fn parent_writer() -> spec_fn((Seq<u8>, u64)) -> Seq<u8> {
    |p: (Seq<u8>, u64)| parent_bytes(p)
}

/// Whether a parent can be read back: its identifier has 32 bytes.
pub open spec fn is_valid_parent() -> spec_fn((Seq<u8>, u64)) -> bool {
    |p: (Seq<u8>, u64)| p.0.len() == 32
}

/// Parents are read back, and what is read is written back.
pub proof fn lemma_parent_codec()
    ensures
        parser_in_bounds(parent_parser()),
        parser_inverts(parent_parser(), parent_writer(), is_valid_parent()),
        parser_exact(parent_parser(), parent_writer(), is_valid_parent()),
{
    let parse = parent_parser();
    assert forall|s: Seq<u8>| #[trigger]
        parse(s) matches Ok((item, n)) ==> n <= s.len() && is_valid_parent()(item)
            && parent_writer()(item) == s.subrange(0, n as int) by {
        if let Ok((item, n)) = parse(s) {
            let t = s.subrange(32, s.len() as int);
            lemma_varint_encode_decode(t);
            let m = varint_decode(t).unwrap().1 as int;
            assert(t.subrange(0, m) =~= s.subrange(32, 32 + m));
            assert(parent_bytes(item) =~= s.subrange(0, n as int));
        }
    }
    assert forall|item: (Seq<u8>, u64), rest: Seq<u8>|
        is_valid_parent()(item) implies #[trigger] parse(parent_writer()(item) + rest) == Ok::<
        _,
        ModelsError,
    >((item, parent_writer()(item).len())) by {
        let s = parent_bytes(item) + rest;
        lemma_varint_decode_encode(item.1 as nat, rest);
        assert(s.subrange(0, 32) =~= item.0);
        assert(s.subrange(32, s.len() as int) =~= varint_encode(item.1 as nat) + rest);
    }
}

/// Whether a block of a snapshot can be read back under `ctx`: its block can, and it
/// has no parents or one per thread, each with an identifier of 32 bytes.
pub open spec fn export_block_valid(e: ExportActiveBlockView, ctx: SerializationContext) -> bool {
    &&& block_valid(e.block, ctx)
    &&& e.parents.len() == 0 || e.parents.len() == ctx.parent_count
    &&& forall|i: int| 0 <= i < e.parents.len() ==> (#[trigger] e.parents[i]).0.len() == 32
}

/// The bytes of a block of a snapshot.
pub open spec fn export_block_bytes(e: ExportActiveBlockView) -> Seq<u8> {
    block_bytes(e.block) + seq![
        if e.parents.len() == 0 {
            0u8
        } else {
            1u8
        },
    ] + encode_seq(e.parents, parent_writer()) + seq![
        if e.is_final {
            1u8
        } else {
            0u8
        },
    ]
}

/// What reading a block of a snapshot from the start of `s` gives.
pub open spec fn parse_export_block(s: Seq<u8>, ctx: SerializationContext) -> Parsed<
    ExportActiveBlockView,
> {
    match parse_block(s, ctx) {
        Err(e) => Err(e),
        Ok((block, a)) => if a >= s.len() {
            Err(ModelsError::BufferError)
        } else if s[a as int] > 1 {
            Err(ModelsError::BadParentsFlag)
        } else {
            let s1 = s.subrange(a + 1 as int, s.len() as int);
            match parse_seq(
                s1,
                if s[a as int] == 1 {
                    ctx.parent_count as nat
                } else {
                    0
                },
                parent_parser(),
                None,
            ) {
                Err(e) => Err(e),
                Ok((parents, b)) => if b >= s1.len() {
                    Err(ModelsError::BufferError)
                } else if s1[b as int] > 1 {
                    Err(ModelsError::BadFlag)
                } else {
                    Ok(
                        (
                            ExportActiveBlockView { block, parents, is_final: s1[b as int] == 1 },
                            a + 1 + b + 1,
                        ),
                    )
                },
            }
        },
    }
}

/// Reading the bytes of a valid block of a snapshot gives it back, whatever
/// follows.
pub proof fn lemma_parse_export_block_bytes(
    e: ExportActiveBlockView,
    ctx: SerializationContext,
    rest: Seq<u8>,
)
    requires
        export_block_valid(e, ctx),
    ensures
        parse_export_block(export_block_bytes(e) + rest, ctx) == Ok::<_, ModelsError>(
            (e, export_block_bytes(e).len()),
        ),
{
    let s = export_block_bytes(e) + rest;
    let bb = block_bytes(e.block);
    let flag: u8 = if e.parents.len() == 0 {
        0u8
    } else {
        1u8
    };
    let fin: u8 = if e.is_final {
        1u8
    } else {
        0u8
    };
    let pa = encode_seq(e.parents, parent_writer());
    let t2 = seq![fin] + rest;
    let t1 = pa + t2;
    let t0 = seq![flag] + t1;
    assert(s =~= bb + t0);
    assert(parse_block(s, ctx) == Ok::<_, ModelsError>((e.block, bb.len()))) by {
        lemma_parse_block_bytes(e.block, ctx, t0);
    }
    let a = bb.len() as int;
    assert(s[a] == flag);
    let s1 = s.subrange(a + 1, s.len() as int);
    assert(s1 =~= t1);
    let count: nat = if s[a] == 1 {
        ctx.parent_count as nat
    } else {
        0
    };
    assert(count == e.parents.len());
    assert(parse_seq(s1, count, parent_parser(), None) == Ok::<_, ModelsError>(
        (e.parents, pa.len()),
    )) by {
        lemma_parent_codec();
        assert forall|i: int| 0 <= i < e.parents.len() implies is_valid_parent()(
            #[trigger] e.parents[i],
        ) by {}
        lemma_parse_seq_inverts(
            e.parents,
            t2,
            parent_parser(),
            parent_writer(),
            is_valid_parent(),
            None,
        );
    }
    assert(s1[pa.len() as int] == fin);
    assert(export_block_bytes(e).len() == bb.len() + 1 + pa.len() + 1);
}

/// A block of a snapshot that was read is valid, and is written back as the bytes
/// it was read from.
pub proof fn lemma_export_block_bytes_parse(s: Seq<u8>, ctx: SerializationContext)
    requires
        ctx.parent_count > 0,
    ensures
        parse_export_block(s, ctx) matches Ok((e, n)) ==> n <= s.len() && export_block_valid(e, ctx)
            && export_block_bytes(e) == s.subrange(0, n as int),
{
    if let Ok((e, total)) = parse_export_block(s, ctx) {
        lemma_block_bytes_parse(s, ctx);
        let a = parse_block(s, ctx).unwrap().1 as int;
        let s1 = s.subrange(a + 1, s.len() as int);
        let count: nat = if s[a] == 1 {
            ctx.parent_count as nat
        } else {
            0
        };
        lemma_parent_codec();
        lemma_parse_seq_exact(s1, count, parent_parser(), parent_writer(), is_valid_parent(), None);
        let b = parse_seq(s1, count, parent_parser(), None).unwrap().1 as int;
        assert forall|i: int| 0 <= i < e.parents.len() implies (#[trigger] e.parents[i]).0.len()
            == 32 by {
            assert(is_valid_parent()(e.parents[i]));
        }
        assert(s1.subrange(0, b) =~= s.subrange(a + 1, a + 1 + b));
        assert(seq![s[a]] =~= s.subrange(a, a + 1));
        assert(seq![s1[b]] =~= s.subrange(a + 1 + b, a + 1 + b + 1));
        assert(export_block_bytes(e) =~= s.subrange(0, total as int));
    }
}

/// The parser of a block of a snapshot under `ctx`.
pub open spec fn export_block_parser(ctx: SerializationContext) -> spec_fn(Seq<u8>) -> Parsed<
    ExportActiveBlockView,
> {
    |s: Seq<u8>| parse_export_block(s, ctx)
}

/// The writer of a block of a snapshot.
pub open spec fn export_block_writer() -> spec_fn(ExportActiveBlockView) -> Seq<u8> {
    |e: ExportActiveBlockView| export_block_bytes(e)
}

/// Whether a block of a snapshot can be read back under `ctx`.
pub open spec fn is_valid_export_block(ctx: SerializationContext) -> spec_fn(
    ExportActiveBlockView,
) -> bool {
    |e: ExportActiveBlockView| export_block_valid(e, ctx)
}

/// Blocks of a snapshot are read back, and what is read is written back.
pub proof fn lemma_export_block_codec(ctx: SerializationContext)
    requires
        ctx.parent_count > 0,
    ensures
        parser_in_bounds(export_block_parser(ctx)),
        parser_inverts(export_block_parser(ctx), export_block_writer(), is_valid_export_block(ctx)),
        parser_exact(export_block_parser(ctx), export_block_writer(), is_valid_export_block(ctx)),
{
    let parse = export_block_parser(ctx);
    assert forall|s: Seq<u8>| #[trigger] parse(s) matches Ok((_, n)) ==> n <= s.len() by {
        lemma_export_block_bytes_parse(s, ctx);
    }
    assert forall|item: ExportActiveBlockView, rest: Seq<u8>|
        is_valid_export_block(ctx)(item) implies #[trigger] parse(
        export_block_writer()(item) + rest,
    ) == Ok::<_, ModelsError>((item, export_block_writer()(item).len())) by {
        lemma_parse_export_block_bytes(item, ctx, rest);
    }
    assert forall|s: Seq<u8>| #[trigger]
        parse(s) matches Ok((item, n)) ==> n <= s.len() && is_valid_export_block(ctx)(item)
            && export_block_writer()(item) == s.subrange(0, n as int) by {
        lemma_export_block_bytes_parse(s, ctx);
    }
}

/// Whether a snapshot can be read back under `ctx`: its blocks can, and they are
/// not more than the limit.
pub open spec fn graph_valid(g: BootstrapableGraphView, ctx: SerializationContext) -> bool {
    &&& g.final_blocks.len() <= ctx.max_bootstrap_blocks
    &&& forall|i: int|
        0 <= i < g.final_blocks.len() ==> export_block_valid(#[trigger] g.final_blocks[i], ctx)
}

/// The bytes of a snapshot: the number of its blocks, and the blocks.
pub open spec fn graph_bytes(g: BootstrapableGraphView) -> Seq<u8> {
    varint_encode(g.final_blocks.len()) + encode_seq(g.final_blocks, export_block_writer())
}

/// What reading a snapshot from the start of `s` gives.
pub open spec fn parse_graph(s: Seq<u8>, ctx: SerializationContext) -> Parsed<
    BootstrapableGraphView,
> {
    match spec_u32_from_varint_bounded(s, ctx.max_bootstrap_blocks) {
        Err(e) => Err(e),
        Ok((count, a)) => match parse_seq(
            s.subrange(a as int, s.len() as int),
            count as nat,
            export_block_parser(ctx),
            None,
        ) {
            Err(e) => Err(e),
            Ok((final_blocks, b)) => Ok((BootstrapableGraphView { final_blocks }, a + b)),
        },
    }
}

/// Reading the bytes of a valid snapshot gives the snapshot back, whatever follows:
/// a snapshot that is written and read holds the same final blocks.
pub proof fn lemma_parse_graph_bytes(
    g: BootstrapableGraphView,
    ctx: SerializationContext,
    rest: Seq<u8>,
)
    requires
        ctx.parent_count > 0,
        graph_valid(g, ctx),
    ensures
        parse_graph(graph_bytes(g) + rest, ctx) == Ok::<_, ModelsError>((g, graph_bytes(g).len())),
{
    let s = graph_bytes(g) + rest;
    let cnt = varint_encode(g.final_blocks.len());
    let body = encode_seq(g.final_blocks, export_block_writer());
    assert(s =~= cnt + (body + rest));
    lemma_varint_decode_encode(g.final_blocks.len(), body + rest);
    let s1 = s.subrange(cnt.len() as int, s.len() as int);
    assert(s1 =~= body + rest);
    lemma_export_block_codec(ctx);
    assert forall|i: int| 0 <= i < g.final_blocks.len() implies is_valid_export_block(ctx)(
        #[trigger] g.final_blocks[i],
    ) by {}
    lemma_parse_seq_inverts(
        g.final_blocks,
        rest,
        export_block_parser(ctx),
        export_block_writer(),
        is_valid_export_block(ctx),
        None,
    );
}

/// A snapshot that was read is valid, and is written back as the bytes it was read
/// from.
pub proof fn lemma_graph_bytes_parse(s: Seq<u8>, ctx: SerializationContext)
    requires
        ctx.parent_count > 0,
    ensures
        parse_graph(s, ctx) matches Ok((g, n)) ==> n <= s.len() && graph_valid(g, ctx)
            && graph_bytes(g) == s.subrange(0, n as int),
{
    if let Ok((g, total)) = parse_graph(s, ctx) {
        lemma_varint_encode_decode(s);
        let a = varint_decode(s).unwrap().1 as int;
        let count = spec_u32_from_varint_bounded(s, ctx.max_bootstrap_blocks).unwrap().0 as nat;
        let s1 = s.subrange(a, s.len() as int);
        lemma_export_block_codec(ctx);
        lemma_parse_seq_exact(
            s1,
            count,
            export_block_parser(ctx),
            export_block_writer(),
            is_valid_export_block(ctx),
            None,
        );
        let b = parse_seq(s1, count, export_block_parser(ctx), None).unwrap().1 as int;
        assert forall|i: int| 0 <= i < g.final_blocks.len() implies export_block_valid(
            #[trigger] g.final_blocks[i],
            ctx,
        ) by {
            assert(is_valid_export_block(ctx)(g.final_blocks[i]));
        }
        assert(s1.subrange(0, b) =~= s.subrange(a, a + b));
        assert(graph_bytes(g) =~= s.subrange(0, total as int));
    }
}

/// Reads `count` parents from the start of `buffer`: the parents, and the number
/// of bytes they take.
fn read_parents(buffer: &[u8], count: usize) -> (r: Result<(Vec<(BlockId, u64)>, usize), ModelsError>)
    ensures
        match parse_seq(buffer@, count as nat, parent_parser(), None) {
            Ok((list, n)) => r is Ok && parents_view(r.unwrap().0@) == list && r.unwrap().1 == n
                && n <= buffer@.len(),
            Err(e) => r == Err::<(Vec<(BlockId, u64)>, usize), _>(e),
        },
{
    let mut out: Vec<(BlockId, u64)> = Vec::new();
    let mut cursor: usize = 0;
    let mut i: usize = 0;
    let len = buffer.len();
    proof {
        assert(parents_view(out@) =~= Seq::<(Seq<u8>, u64)>::empty());
        lemma_parse_seq_step(buffer@, 0, parent_parser(), None);
    }
    while i < count
        invariant
            i <= count,
            len == buffer@.len(),
            parse_seq(buffer@, i as nat, parent_parser(), None) == Ok::<_, ModelsError>(
                (parents_view(out@), cursor as nat),
            ),
            cursor <= buffer@.len(),
        decreases count - i,
    {
        let ghost before = parents_view(out@);
        let t = slice_subrange(buffer, cursor, len);
        proof {
            lemma_parse_seq_step(buffer@, i as nat, parent_parser(), None);
        }
        let id = match read32(t, 0) {
            Ok(v) => v,
            Err(e) => {
                proof {
                    lemma_parse_seq_error_stays(
                        buffer@,
                        (i + 1) as nat,
                        count as nat,
                        parent_parser(),
                        None,
                    );
                }
                return Err(e);
            },
        };
        let (period, n) = match u64_from_varint(slice_subrange(t, 32, t.len())) {
            Ok(v) => v,
            Err(e) => {
                proof {
                    lemma_parse_seq_error_stays(
                        buffer@,
                        (i + 1) as nat,
                        count as nat,
                        parent_parser(),
                        None,
                    );
                }
                return Err(e);
            },
        };
        out.push((BlockId(crate::hash::Hash::from_bytes(&id)), period));
        proof {
            assert(parents_view(out@) =~= before.push((id@, period)));
        }
        cursor = cursor + 32 + n;
        i += 1;
    }
    Ok((out, cursor))
}

impl ExportActiveBlock {
    /// Appends the bytes of the block of a snapshot to `buffer`. Fails where the
    /// endorsements or the operations of the block are too many to count.
    pub fn write_compact(&self, buffer: &mut Vec<u8>) -> (r: Result<(), ModelsError>)
        ensures
            self@.block.header.content.endorsements.len() <= u32::MAX
                && self@.block.operations.len() <= u32::MAX ==> r is Ok && final(buffer)@ == old(
                buffer,
            )@ + export_block_bytes(self@),
            self@.block.header.content.endorsements.len() > u32::MAX || self@.block.operations.len()
                > u32::MAX ==> r == Err::<(), _>(ModelsError::TooManyItems),
    {
        match self.block.write_compact(buffer) {
            Ok(()) => {},
            Err(e) => { return Err(e); },
        }
        if self.parents.len() == 0 {
            buffer.push(0u8);
        } else {
            buffer.push(1u8);
        }
        let ghost base = buffer@;
        let mut i: usize = 0;
        proof {
            lemma_encode_seq_empty::<(Seq<u8>, u64)>(parent_writer());
            assert(parents_view(self.parents@).subrange(0, 0) =~= Seq::<(Seq<u8>, u64)>::empty());
            assert(buffer@ =~= base + Seq::<u8>::empty());
        }
        while i < self.parents.len()
            invariant
                i <= self.parents@.len(),
                buffer@ == base + encode_seq(
                    parents_view(self.parents@).subrange(0, i as int),
                    parent_writer(),
                ),
            decreases self.parents@.len() - i,
        {
            let id = self.parents[i].0.to_bytes();
            write_bytes(id.as_slice(), buffer);
            u64_to_varint(self.parents[i].1, buffer);
            proof {
                let all = parents_view(self.parents@);
                assert(all.subrange(0, i + 1) =~= all.subrange(0, i as int).push(all[i as int]));
                lemma_encode_seq_push(all.subrange(0, i as int), all[i as int], parent_writer());
                assert(buffer@ =~= base + encode_seq(all.subrange(0, i + 1), parent_writer()));
            }
            i += 1;
        }
        proof {
            assert(parents_view(self.parents@).subrange(0, self.parents@.len() as int)
                =~= parents_view(self.parents@));
        }
        if self.is_final {
            buffer.push(1u8);
        } else {
            buffer.push(0u8);
        }
        proof {
            assert(buffer@ =~= old(buffer)@ + export_block_bytes(self@));
        }
        Ok(())
    }

    /// Reads a block of a snapshot from the start of `buffer`: the block, and the
    /// number of bytes it takes.
    pub fn from_bytes_compact(buffer: &[u8], ctx: &SerializationContext) -> (r: Result<
        (ExportActiveBlock, usize),
        ModelsError,
    >)
        ensures
            match parse_export_block(buffer@, *ctx) {
                Ok((e, n)) => r is Ok && r.unwrap().0@ == e && r.unwrap().1 == n
                    && n <= buffer@.len(),
                Err(e) => r == Err::<(ExportActiveBlock, usize), _>(e),
            },
    {
        let len = buffer.len();
        let (block, a) = match Block::from_bytes_compact(buffer, ctx) {
            Ok(v) => v,
            Err(e) => { return Err(e); },
        };
        if a >= len {
            return Err(ModelsError::BufferError);
        }
        let flag = buffer[a];
        if flag > 1 {
            return Err(ModelsError::BadParentsFlag);
        }
        let s1 = slice_subrange(buffer, a + 1, len);
        let count: usize = if flag == 1 {
            ctx.parent_count as usize
        } else {
            0
        };
        let (parents, b) = match read_parents(s1, count) {
            Ok(v) => v,
            Err(e) => { return Err(e); },
        };
        if b >= s1.len() {
            return Err(ModelsError::BufferError);
        }
        let fin = s1[b];
        if fin > 1 {
            return Err(ModelsError::BadFlag);
        }
        Ok((ExportActiveBlock { block, parents, is_final: fin == 1 }, a + 1 + b + 1))
    }
}

impl BootstrapableGraph {
    /// The bytes of the snapshot. Fails where the blocks, or the endorsements or the
    /// operations of a block, are too many to count.
    pub fn to_bytes_compact(&self) -> (r: Result<Vec<u8>, ModelsError>)
        ensures
            r is Ok ==> r.unwrap()@ == graph_bytes(self@),
            r is Err ==> r == Err::<Vec<u8>, _>(ModelsError::TooManyItems),
            self@.final_blocks.len() <= u32::MAX && (forall|i: int|
                0 <= i < self@.final_blocks.len() ==> (#[trigger] self@.final_blocks[i]).block.header.content.endorsements.len()
                    <= u32::MAX && self@.final_blocks[i].block.operations.len() <= u32::MAX)
                ==> r is Ok,
    {
        let mut out: Vec<u8> = Vec::new();
        if self.final_blocks.len() > u32::MAX as usize {
            return Err(ModelsError::TooManyItems);
        }
        u64_to_varint(self.final_blocks.len() as u64, &mut out);
        let ghost base = out@;
        let mut i: usize = 0;
        proof {
            lemma_encode_seq_empty::<ExportActiveBlockView>(export_block_writer());
            assert(export_blocks_view(self.final_blocks@).subrange(0, 0)
                =~= Seq::<ExportActiveBlockView>::empty());
            assert(out@ =~= base + Seq::<u8>::empty());
        }
        while i < self.final_blocks.len()
            invariant
                i <= self.final_blocks@.len(),
                base == varint_encode(self.final_blocks@.len()),
                out@ == base + encode_seq(
                    export_blocks_view(self.final_blocks@).subrange(0, i as int),
                    export_block_writer(),
                ),
                forall|k: int|
                    0 <= k < i ==> (#[trigger] self@.final_blocks[k]).block.header.content.endorsements.len()
                        <= u32::MAX && self@.final_blocks[k].block.operations.len() <= u32::MAX,
            decreases self.final_blocks@.len() - i,
        {
            match self.final_blocks[i].write_compact(&mut out) {
                Ok(()) => {},
                Err(e) => {
                    proof {
                        assert(self@.final_blocks[i as int] == self.final_blocks@[i as int]@);
                    }
                    return Err(e);
                },
            }
            proof {
                let all = export_blocks_view(self.final_blocks@);
                assert(all.subrange(0, i + 1) =~= all.subrange(0, i as int).push(all[i as int]));
                lemma_encode_seq_push(
                    all.subrange(0, i as int),
                    all[i as int],
                    export_block_writer(),
                );
                assert(out@ =~= base + encode_seq(all.subrange(0, i + 1), export_block_writer()));
            }
            i += 1;
        }
        proof {
            assert(export_blocks_view(self.final_blocks@).subrange(
                0,
                self.final_blocks@.len() as int,
            ) =~= export_blocks_view(self.final_blocks@));
            assert(out@ =~= graph_bytes(self@));
        }
        Ok(out)
    }

    /// Reads a snapshot from the start of `buffer`: the snapshot, and the number of
    /// bytes it takes.
    pub fn from_bytes_compact(buffer: &[u8], ctx: &SerializationContext) -> (r: Result<
        (BootstrapableGraph, usize),
        ModelsError,
    >)
        ensures
            match parse_graph(buffer@, *ctx) {
                Ok((g, n)) => r is Ok && r.unwrap().0@ == g && r.unwrap().1 == n
                    && n <= buffer@.len(),
                Err(e) => r == Err::<(BootstrapableGraph, usize), _>(e),
            },
    {
        let len = buffer.len();
        let (count, a) = match u32_from_varint_bounded(buffer, ctx.max_bootstrap_blocks) {
            Ok(v) => v,
            Err(e) => { return Err(e); },
        };
        let s1 = slice_subrange(buffer, a, len);
        let mut out: Vec<ExportActiveBlock> = Vec::new();
        let mut cursor: usize = 0;
        let mut i: u32 = 0;
        let n1 = s1.len();
        proof {
            assert(export_blocks_view(out@) =~= Seq::<ExportActiveBlockView>::empty());
            lemma_parse_seq_step(s1@, 0, export_block_parser(*ctx), None);
        }
        while i < count
            invariant
                i <= count,
                n1 == s1@.len(),
                spec_u32_from_varint_bounded(buffer@, ctx.max_bootstrap_blocks) == Ok::<
                    _,
                    ModelsError,
                >((count, a as nat)),
                s1@ == buffer@.subrange(a as int, buffer@.len() as int),
                parse_seq(s1@, i as nat, export_block_parser(*ctx), None) == Ok::<_, ModelsError>(
                    (export_blocks_view(out@), cursor as nat),
                ),
                cursor <= s1@.len(),
            decreases count - i,
        {
            let ghost before = export_blocks_view(out@);
            proof {
                lemma_parse_seq_step(s1@, i as nat, export_block_parser(*ctx), None);
            }
            match ExportActiveBlock::from_bytes_compact(slice_subrange(s1, cursor, n1), ctx) {
                Err(e) => {
                    proof {
                        assert(parse_seq(s1@, (i + 1) as nat, export_block_parser(*ctx), None)
                            == Err::<(Seq<ExportActiveBlockView>, nat), _>(e));
                        lemma_parse_seq_error_stays(
                            s1@,
                            (i + 1) as nat,
                            count as nat,
                            export_block_parser(*ctx),
                            None,
                        );
                    }
                    return Err(e);
                },
                Ok((item, n)) => {
                    out.push(item);
                    proof {
                        assert(export_blocks_view(out@) =~= before.push(item@));
                    }
                    cursor = cursor + n;
                },
            }
            i += 1;
        }
        Ok((BootstrapableGraph { final_blocks: out }, a + cursor))
    }
}

} // verus!
