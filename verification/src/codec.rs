//! Sequences of items on the wire, and fixed-size fields.

use vstd::prelude::*;
use crate::error::ModelsError;

verus! {

/// What a parser gives: the value at the start of the bytes, and how many bytes it
/// takes.
pub type Parsed<T> = Result<(T, nat), ModelsError>;

/// The bytes of `items`, one after the other.
#[verifier::opaque]
pub open spec fn encode_seq<T>(items: Seq<T>, enc: spec_fn(T) -> Seq<u8>) -> Seq<u8>
    decreases items.len(),
{
    if items.len() == 0 {
        Seq::empty()
    } else {
        encode_seq(items.drop_last(), enc) + enc(items.last())
    }
}

/// What reading `count` items, one after the other, from the start of `s` gives.
/// Where `limit` is given, no item may end behind that many bytes.
#[verifier::opaque]
pub open spec fn parse_seq<T>(
    s: Seq<u8>,
    count: nat,
    parse: spec_fn(Seq<u8>) -> Parsed<T>,
    limit: Option<nat>,
) -> Parsed<Seq<T>>
    decreases count,
{
    if count == 0 {
        Ok((Seq::empty(), 0nat))
    } else {
        match parse_seq(s, (count - 1) as nat, parse, limit) {
            Err(e) => Err(e),
            Ok((items, n)) => if n > s.len() {
                Err(ModelsError::BufferError)
            } else {
                match parse(s.subrange(n as int, s.len() as int)) {
                    Err(e) => Err(e),
                    Ok((item, m)) => if limit is Some && n + m > limit.unwrap() {
                        Err(ModelsError::BlockTooLarge)
                    } else {
                        Ok((items.push(item), n + m))
                    },
                }
            },
        }
    }
}

/// Once reading some items has failed, reading more of them fails in the same way.
pub proof fn lemma_parse_seq_error_stays<T>(
    s: Seq<u8>,
    failed: nat,
    count: nat,
    parse: spec_fn(Seq<u8>) -> Parsed<T>,
    limit: Option<nat>,
)
    requires
        failed <= count,
        parse_seq(s, failed, parse, limit) is Err,
    ensures
        parse_seq(s, count, parse, limit) == parse_seq(s, failed, parse, limit),
    decreases count,
{
    reveal_with_fuel(parse_seq, 2);
    reveal_with_fuel(encode_seq, 2);
    if failed < count {
        lemma_parse_seq_error_stays(s, failed, (count - 1) as nat, parse, limit);
    }
}

/// A parser never reads past the end of its input.
pub open spec fn parser_in_bounds<T>(parse: spec_fn(Seq<u8>) -> Parsed<T>) -> bool {
    forall|s: Seq<u8>| #[trigger] parse(s) matches Ok((_, n)) ==> n <= s.len()
}

/// A parser reads back every item for which `valid` holds, whatever follows it.
pub open spec fn parser_inverts<T>(
    parse: spec_fn(Seq<u8>) -> Parsed<T>,
    enc: spec_fn(T) -> Seq<u8>,
    valid: spec_fn(T) -> bool,
) -> bool {
    forall|item: T, rest: Seq<u8>|
        valid(item) ==> #[trigger] parse(enc(item) + rest) == Ok::<_, ModelsError>(
            (item, enc(item).len()),
        )
}

/// Whatever a parser reads is valid, and is written back as the bytes it was read
/// from.
pub open spec fn parser_exact<T>(
    parse: spec_fn(Seq<u8>) -> Parsed<T>,
    enc: spec_fn(T) -> Seq<u8>,
    valid: spec_fn(T) -> bool,
) -> bool {
    forall|s: Seq<u8>| #[trigger]
        parse(s) matches Ok((item, n)) ==> n <= s.len() && valid(item) && enc(item) == s.subrange(
            0,
            n as int,
        )
}

/// The items read are as many as asked for, and the bytes read are within the input.
pub proof fn lemma_parse_seq_bounds<T>(
    s: Seq<u8>,
    count: nat,
    parse: spec_fn(Seq<u8>) -> Parsed<T>,
    limit: Option<nat>,
)
    requires
        parser_in_bounds(parse),
    ensures
        parse_seq(s, count, parse, limit) matches Ok((items, n)) ==> items.len() == count && n
            <= s.len() && (limit is Some ==> n <= limit.unwrap()),
    decreases count,
{
    reveal_with_fuel(parse_seq, 2);
    reveal_with_fuel(encode_seq, 2);
    if count > 0 {
        lemma_parse_seq_bounds(s, (count - 1) as nat, parse, limit);
        if let Ok((items, n)) = parse_seq(s, (count - 1) as nat, parse, limit) {
            let t = s.subrange(n as int, s.len() as int);
            assert(parse(t) matches Ok((_, m)) ==> m <= t.len());
        }
    }
}

/// Reading the bytes of valid items gives the items back, whatever follows them.
pub proof fn lemma_parse_seq_inverts<T>(
    items: Seq<T>,
    rest: Seq<u8>,
    parse: spec_fn(Seq<u8>) -> Parsed<T>,
    enc: spec_fn(T) -> Seq<u8>,
    valid: spec_fn(T) -> bool,
    limit: Option<nat>,
)
    requires
        parser_inverts(parse, enc, valid),
        forall|i: int| 0 <= i < items.len() ==> valid(#[trigger] items[i]),
        limit is Some ==> encode_seq(items, enc).len() <= limit.unwrap(),
    ensures
        parse_seq(encode_seq(items, enc) + rest, items.len(), parse, limit) == Ok::<
            _,
            ModelsError,
        >(
            (items, encode_seq(items, enc).len()),
        ),
    decreases items.len(),
{
    reveal_with_fuel(parse_seq, 2);
    reveal_with_fuel(encode_seq, 2);
    let s = encode_seq(items, enc) + rest;
    if items.len() > 0 {
        let head = items.drop_last();
        let last = items.last();
        let head_bytes = encode_seq(head, enc);
        assert(encode_seq(items, enc) == head_bytes + enc(last));
        assert(s =~= head_bytes + (enc(last) + rest));
        lemma_parse_seq_inverts(head, enc(last) + rest, parse, enc, valid, limit);
        assert(s.subrange(head_bytes.len() as int, s.len() as int) =~= enc(last) + rest);
        assert(valid(last));
        assert(parse(enc(last) + rest) == Ok::<_, ModelsError>((last, enc(last).len())));
        assert(head.push(last) =~= items);
        assert(parse_seq(s, (items.len() - 1) as nat, parse, limit) == Ok::<_, ModelsError>(
            (head, head_bytes.len()),
        ));
    } else {
        assert(items =~= Seq::<T>::empty());
    }
}

/// Items that were read are valid, and are written back as the bytes they were read
/// from.
pub proof fn lemma_parse_seq_exact<T>(
    s: Seq<u8>,
    count: nat,
    parse: spec_fn(Seq<u8>) -> Parsed<T>,
    enc: spec_fn(T) -> Seq<u8>,
    valid: spec_fn(T) -> bool,
    limit: Option<nat>,
)
    requires
        parser_exact(parse, enc, valid),
    ensures
        parse_seq(s, count, parse, limit) matches Ok((items, n)) ==> {
            &&& limit is Some ==> n <= limit.unwrap()
            &&& items.len() == count
            &&& n <= s.len()
            &&& encode_seq(items, enc) == s.subrange(0, n as int)
            &&& forall|i: int| 0 <= i < items.len() ==> valid(#[trigger] items[i])
        },
    decreases count,
{
    reveal_with_fuel(parse_seq, 2);
    reveal_with_fuel(encode_seq, 2);
    if count > 0 {
        lemma_parse_seq_exact(s, (count - 1) as nat, parse, enc, valid, limit);
        if let Ok((head, n)) = parse_seq(s, (count - 1) as nat, parse, limit) {
            let t = s.subrange(n as int, s.len() as int);
            if let Ok((item, m)) = parse(t) {
                assert(m <= t.len() && valid(item) && enc(item) == t.subrange(0, m as int));
                let items = head.push(item);
                assert(items.drop_last() =~= head);
                assert(t.subrange(0, m as int) =~= s.subrange(n as int, (n + m) as int));
                assert(s.subrange(0, n as int) + s.subrange(n as int, (n + m) as int) =~= s.subrange(
                    0,
                    (n + m) as int,
                ));
            }
        }
    } else {
        assert(encode_seq(Seq::<T>::empty(), enc) =~= s.subrange(0, 0));
    }
}

/// Reading no item takes no byte; reading one more item is reading the items
/// before it, then that item behind them.
pub proof fn lemma_parse_seq_step<T>(
    s: Seq<u8>,
    count: nat,
    parse: spec_fn(Seq<u8>) -> Parsed<T>,
    limit: Option<nat>,
)
    ensures
        parse_seq(s, 0, parse, limit) == Ok::<_, ModelsError>((Seq::<T>::empty(), 0nat)),
        parse_seq(s, count + 1, parse, limit) == match parse_seq(s, count, parse, limit) {
            Err(e) => Err(e),
            Ok((items, n)) => if n > s.len() {
                Err(ModelsError::BufferError)
            } else {
                match parse(s.subrange(n as int, s.len() as int)) {
                    Err(e) => Err(e),
                    Ok((item, m)) => if limit is Some && n + m > limit.unwrap() {
                        Err(ModelsError::BlockTooLarge)
                    } else {
                        Ok((items.push(item), n + m))
                    },
                }
            },
        },
{
    reveal_with_fuel(parse_seq, 2);
}

/// No item takes no byte.
pub proof fn lemma_encode_seq_empty<T>(enc: spec_fn(T) -> Seq<u8>)
    ensures
        encode_seq(Seq::<T>::empty(), enc) == Seq::<u8>::empty(),
{
    reveal_with_fuel(encode_seq, 2);
}

/// The bytes of a sequence with one more item.
pub proof fn lemma_encode_seq_push<T>(items: Seq<T>, item: T, enc: spec_fn(T) -> Seq<u8>)
    ensures
        encode_seq(items.push(item), enc) == encode_seq(items, enc) + enc(item),
{
    reveal_with_fuel(parse_seq, 2);
    reveal_with_fuel(encode_seq, 2);
    assert(items.push(item).drop_last() =~= items);
}

/// What reading a field of 32 bytes from the start of `s` gives.
pub open spec fn parse_bytes32(s: Seq<u8>) -> Parsed<Seq<u8>> {
    if s.len() < 32 {
        Err(ModelsError::BufferError)
    } else {
        Ok((s.subrange(0, 32), 32nat))
    }
}

/// The parser of a field of 32 bytes.
pub open spec fn bytes32_parser() -> spec_fn(Seq<u8>) -> Parsed<Seq<u8>> {
    |s: Seq<u8>| parse_bytes32(s)
}

/// The writer of a field of bytes: the bytes themselves.
pub open spec fn bytes_writer() -> spec_fn(Seq<u8>) -> Seq<u8> {
    |b: Seq<u8>| b
}

/// Whether a field has 32 bytes.
pub open spec fn is_bytes32() -> spec_fn(Seq<u8>) -> bool {
    |b: Seq<u8>| b.len() == 32
}

/// A field of 32 bytes is read back, and what is read is written back.
pub proof fn lemma_bytes32_codec()
    ensures
        parser_in_bounds(bytes32_parser()),
        parser_inverts(bytes32_parser(), bytes_writer(), is_bytes32()),
        parser_exact(bytes32_parser(), bytes_writer(), is_bytes32()),
{
    assert forall|item: Seq<u8>, rest: Seq<u8>| is_bytes32()(item) implies #[trigger] bytes32_parser()(
        bytes_writer()(item) + rest,
    ) == Ok::<_, ModelsError>((item, bytes_writer()(item).len())) by {
        assert((item + rest).subrange(0, 32) =~= item);
    }
}

/// Reads the 32 bytes at `pos`.
pub fn read32(buffer: &[u8], pos: usize) -> (r: Result<[u8; 32], ModelsError>)
    ensures
        pos + 32 <= buffer@.len() ==> r is Ok && r.unwrap()@ == buffer@.subrange(
            pos as int,
            pos + 32,
        ),
        pos + 32 > buffer@.len() ==> r == Err::<[u8; 32], _>(ModelsError::BufferError),
{
    let len = buffer.len();
    if pos > len || len - pos < 32 {
        return Err(ModelsError::BufferError);
    }
    let mut out: [u8; 32] = [0u8; 32];
    let mut i: usize = 0;
    while i < 32
        invariant
            i <= 32,
            pos + 32 <= buffer@.len(),
            buffer@.len() == len,
            forall|j: int| 0 <= j < i ==> out@[j] == buffer@[pos + j],
        decreases 32 - i,
    {
        out[i] = buffer[pos + i];
        i += 1;
    }
    assert(out@ =~= buffer@.subrange(pos as int, pos + 32));
    Ok(out)
}

/// Reads the 64 bytes at `pos`.
pub fn read64(buffer: &[u8], pos: usize) -> (r: Result<[u8; 64], ModelsError>)
    ensures
        pos + 64 <= buffer@.len() ==> r is Ok && r.unwrap()@ == buffer@.subrange(
            pos as int,
            pos + 64,
        ),
        pos + 64 > buffer@.len() ==> r == Err::<[u8; 64], _>(ModelsError::BufferError),
{
    let len = buffer.len();
    if pos > len || len - pos < 64 {
        return Err(ModelsError::BufferError);
    }
    let mut out: [u8; 64] = [0u8; 64];
    let mut i: usize = 0;
    while i < 64
        invariant
            i <= 64,
            pos + 64 <= buffer@.len(),
            buffer@.len() == len,
            forall|j: int| 0 <= j < i ==> out@[j] == buffer@[pos + j],
        decreases 64 - i,
    {
        out[i] = buffer[pos + i];
        i += 1;
    }
    assert(out@ =~= buffer@.subrange(pos as int, pos + 64));
    Ok(out)
}

/// Appends the bytes of `data` to `buffer`.
pub fn write_bytes(data: &[u8], buffer: &mut Vec<u8>)
    ensures
        final(buffer)@ == old(buffer)@ + data@,
{
    let mut i: usize = 0;
    while i < data.len()
        invariant
            i <= data@.len(),
            buffer@ == old(buffer)@ + data@.subrange(0, i as int),
        decreases data@.len() - i,
    {
        buffer.push(data[i]);
        assert(buffer@ =~= old(buffer)@ + data@.subrange(0, i + 1));
        i += 1;
    }
    assert(data@.subrange(0, data@.len() as int) =~= data@);
}

} // verus!
