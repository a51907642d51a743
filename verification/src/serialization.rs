//! Integers on the wire: variable-length integers and fixed big-endian words.

use vstd::prelude::*;
use crate::error::ModelsError;

verus! {

/// Limits that the codecs hold the data to.
#[derive(Clone, Copy, Debug, PartialEq, Eq, Structural)]
pub struct SerializationContext {
    /// Largest size of a block, in bytes.
    pub max_block_size: u32,
    /// Largest number of operations in a block.
    pub max_block_operations: u32,
    /// Number of parents of a block that has parents: the thread count.
    pub parent_count: u8,
    /// Largest number of endorsements in a block header.
    pub max_block_endorsements: u32,
    /// Largest number of blocks in a bootstrap snapshot.
    pub max_bootstrap_blocks: u32,
}

/// The variable-length form of `v`: groups of seven bits, lowest first, each byte
/// but the last with its high bit set.
pub open spec fn varint_encode(v: nat) -> Seq<u8>
    decreases v,
{
    if v < 128 {
        seq![v as u8]
    } else {
        seq![(v % 128 + 128) as u8] + varint_encode(v / 128)
    }
}

/// The value at the start of `s` in variable-length form, with the number of bytes
/// it takes; `None` where `s` ends too early or the form is not the shortest one.
pub open spec fn varint_decode(s: Seq<u8>) -> Option<(nat, nat)>
    decreases s.len(),
{
    if s.len() == 0 {
        None
    } else if s[0] < 128 {
        Some((s[0] as nat, 1nat))
    } else {
        match varint_decode(s.drop_first()) {
            None => None,
            Some((hi, n)) => if hi == 0 {
                None
            } else {
                Some((((s[0] - 128) + 128 * hi) as nat, n + 1))
            },
        }
    }
}

/// `128` to the power `n`.
pub open spec fn pow128(n: nat) -> nat
    decreases n,
{
    if n == 0 {
        1
    } else {
        128 * pow128((n - 1) as nat)
    }
}

/// A value decoded from `n` bytes is below `128^n`, and from two bytes on at least
/// `128^(n-1)`.
pub proof fn lemma_varint_decode_bounds(s: Seq<u8>)
    ensures
        varint_decode(s) matches Some((v, n)) ==> {
            &&& 1 <= n <= s.len()
            &&& v < pow128(n)
            &&& n >= 2 ==> v >= pow128((n - 1) as nat)
        },
    decreases s.len(),
{
    reveal_with_fuel(pow128, 3);
    if s.len() > 0 && s[0] >= 128 {
        lemma_varint_decode_bounds(s.drop_first());
    }
}

/// Decoding what was encoded gives the value back, whatever follows it.
pub proof fn lemma_varint_decode_encode(v: nat, rest: Seq<u8>)
    ensures
        varint_decode(varint_encode(v) + rest) == Some((v, varint_encode(v).len())),
        varint_encode(v).len() >= 1,
    decreases v,
{
    let e = varint_encode(v);
    if v < 128 {
        assert((e + rest)[0] == v as u8);
    } else {
        let tail = varint_encode(v / 128);
        lemma_varint_decode_encode(v / 128, rest);
        assert((e + rest)[0] == (v % 128 + 128) as u8);
        assert((e + rest).drop_first() =~= tail + rest);
        assert(v / 128 != 0);
        assert((v % 128 + 128) - 128 + 128 * (v / 128) == v);
    }
}

/// Encoding what was decoded gives the bytes that were read.
pub proof fn lemma_varint_encode_decode(s: Seq<u8>)
    ensures
        varint_decode(s) matches Some((v, n)) ==> n <= s.len() && varint_encode(v) == s.subrange(
            0,
            n as int,
        ),
    decreases s.len(),
{
    if s.len() == 0 {
    } else if s[0] < 128 {
        assert(varint_encode(s[0] as nat) =~= s.subrange(0, 1));
    } else {
        lemma_varint_encode_decode(s.drop_first());
        match varint_decode(s.drop_first()) {
            None => {},
            Some((hi, n)) => {
                if hi != 0 {
                    let v = ((s[0] - 128) + 128 * hi) as nat;
                    assert(v >= 128);
                    assert(v / 128 == hi);
                    assert(v % 128 + 128 == s[0]);
                    assert(varint_encode(v) =~= seq![s[0]] + varint_encode(hi));
                    assert(s.drop_first().subrange(0, n as int) =~= s.subrange(1, n + 1 as int));
                    assert(varint_encode(v) =~= s.subrange(0, n + 1 as int));
                }
            },
        }
    }
}

/// What reading a `u64` in variable-length form from the start of `s` gives.
pub open spec fn spec_u64_from_varint(s: Seq<u8>) -> Result<(u64, nat), ModelsError> {
    match varint_decode(s) {
        Some((v, n)) => if v <= u64::MAX {
            Ok((v as u64, n))
        } else {
            Err(ModelsError::VarintError)
        },
        None => Err(ModelsError::VarintError),
    }
}

/// What reading a `u64` that must not exceed `max` gives.
pub open spec fn spec_u64_from_varint_bounded(s: Seq<u8>, max: u64) -> Result<
    (u64, nat),
    ModelsError,
> {
    match spec_u64_from_varint(s) {
        Ok((v, n)) => if v <= max {
            Ok((v, n))
        } else {
            Err(ModelsError::LimitExceeded)
        },
        Err(e) => Err(e),
    }
}

/// What reading a `u32` that must not exceed `max` gives.
pub open spec fn spec_u32_from_varint_bounded(s: Seq<u8>, max: u32) -> Result<
    (u32, nat),
    ModelsError,
> {
    match spec_u64_from_varint(s) {
        Ok((v, n)) => if v <= max {
            Ok((v as u32, n))
        } else {
            Err(ModelsError::LimitExceeded)
        },
        Err(e) => Err(e),
    }
}

/// Appends the variable-length form of `v` to `buffer`.
pub fn u64_to_varint(v: u64, buffer: &mut Vec<u8>)
    ensures
        final(buffer)@ == old(buffer)@ + varint_encode(v as nat),
{
    let mut cur: u64 = v;
    while cur >= 128
        invariant
            buffer@ + varint_encode(cur as nat) == old(buffer)@ + varint_encode(v as nat),
        decreases cur,
    {
        let ghost before = buffer@;
        let b: u8 = ((cur % 128) + 128) as u8;
        buffer.push(b);
        proof {
            assert(varint_encode(cur as nat) =~= seq![b] + varint_encode((cur / 128) as nat));
            assert(buffer@ + varint_encode((cur / 128) as nat) =~= before + varint_encode(
                cur as nat,
            ));
        }
        cur = cur / 128;
    }
    let ghost before = buffer@;
    buffer.push(cur as u8);
    proof {
        assert(varint_encode(cur as nat) =~= seq![cur as u8]);
        assert(buffer@ =~= before + varint_encode(cur as nat));
    }
}

/// Reads a variable-length integer of at most `budget` bytes at `pos`.
fn varint_at(s: &[u8], pos: usize, budget: u8) -> (r: Option<(u128, usize)>)
    requires
        pos <= s@.len(),
        budget <= 10,
    ensures
        match varint_decode(s@.subrange(pos as int, s@.len() as int)) {
            Some((v, n)) => if n <= budget {
                r == Some((v as u128, n as usize)) && v < pow128(budget as nat)
            } else {
                r is None
            },
            None => r is None,
        },
    decreases budget,
{
    let ghost tail = s@.subrange(pos as int, s@.len() as int);
    proof {
        lemma_varint_decode_bounds(tail);
        lemma_pow128_values();
    }
    if budget == 0 || pos >= s.len() {
        return None;
    }
    let b: u8 = s[pos];
    assert(tail[0] == b);
    if b < 128 {
        return Some((b as u128, 1));
    }
    assert(tail.drop_first() =~= s@.subrange(pos + 1, s@.len() as int));
    proof {
        lemma_varint_decode_bounds(tail.drop_first());
    }
    match varint_at(s, pos + 1, budget - 1) {
        None => None,
        Some((hi, n)) => {
            if hi == 0 {
                None
            } else {
                assert(hi < pow128((budget - 1) as nat));
                assert(pow128(budget as nat) == 128 * pow128((budget - 1) as nat));
                Some(((b - 128) as u128 + 128 * hi, n + 1))
            }
        },
    }
}

/// The powers of 128 up to the tenth.
pub proof fn lemma_pow128_values()
    ensures
        pow128(0) == 1,
        pow128(1) == 128,
        pow128(2) == 16384,
        pow128(3) == 2097152,
        pow128(4) == 268435456,
        pow128(5) == 34359738368,
        pow128(6) == 4398046511104,
        pow128(7) == 562949953421312,
        pow128(8) == 72057594037927936,
        pow128(9) == 9223372036854775808,
        pow128(10) == 1180591620717411303424,
{
    reveal_with_fuel(pow128, 11);
}

/// Reads a `u64` in variable-length form from the start of `s`: the value and the
/// number of bytes read.
pub fn u64_from_varint(s: &[u8]) -> (r: Result<(u64, usize), ModelsError>)
    ensures
        match spec_u64_from_varint(s@) {
            Ok((v, n)) => r == Ok::<_, ModelsError>((v, n as usize)) && n <= s@.len(),
            Err(e) => r == Err::<(u64, usize), _>(e),
        },
{
    proof {
        lemma_varint_decode_bounds(s@);
        lemma_pow128_values();
        assert(s@.subrange(0, s@.len() as int) =~= s@);
    }
    match varint_at(s, 0, 10) {
        None => {
            proof {
                if let Some((v, n)) = varint_decode(s@) {
                    assert(n > 10);
                    lemma_pow128_monotonic(10, (n - 1) as nat);
                }
            }
            Err(ModelsError::VarintError)
        },
        Some((v, n)) => {
            if v <= u64::MAX as u128 {
                Ok((v as u64, n))
            } else {
                Err(ModelsError::VarintError)
            }
        },
    }
}

/// The powers of 128 grow.
pub proof fn lemma_pow128_monotonic(a: nat, b: nat)
    requires
        a <= b,
    ensures
        pow128(a) <= pow128(b),
    decreases b,
{
    if a < b {
        lemma_pow128_monotonic(a, (b - 1) as nat);
    }
}

/// Reads a `u64` that must not exceed `max`.
pub fn u64_from_varint_bounded(s: &[u8], max: u64) -> (r: Result<(u64, usize), ModelsError>)
    ensures
        match spec_u64_from_varint_bounded(s@, max) {
            Ok((v, n)) => r == Ok::<_, ModelsError>((v, n as usize)) && n <= s@.len(),
            Err(e) => r == Err::<(u64, usize), _>(e),
        },
{
    match u64_from_varint(s) {
        Ok((v, n)) => {
            if v <= max {
                Ok((v, n))
            } else {
                Err(ModelsError::LimitExceeded)
            }
        },
        Err(e) => Err(e),
    }
}

/// Reads a `u32` that must not exceed `max`.
pub fn u32_from_varint_bounded(s: &[u8], max: u32) -> (r: Result<(u32, usize), ModelsError>)
    ensures
        match spec_u32_from_varint_bounded(s@, max) {
            Ok((v, n)) => r == Ok::<_, ModelsError>((v, n as usize)) && n <= s@.len(),
            Err(e) => r == Err::<(u32, usize), _>(e),
        },
{
    match u64_from_varint(s) {
        Ok((v, n)) => {
            if v <= max as u64 {
                Ok((v as u32, n))
            } else {
                Err(ModelsError::LimitExceeded)
            }
        },
        Err(e) => Err(e),
    }
}

/// `256` to the power `n`.
pub open spec fn pow256(n: nat) -> nat
    decreases n,
{
    if n == 0 {
        1
    } else {
        256 * pow256((n - 1) as nat)
    }
}

/// The `n` lowest bytes of `v`, highest first.
pub open spec fn be_encode(v: nat, n: nat) -> Seq<u8>
    decreases n,
{
    if n == 0 {
        Seq::empty()
    } else {
        be_encode(v / 256, (n - 1) as nat).push((v % 256) as u8)
    }
}

/// The value of the bytes of `s`, highest first.
pub open spec fn be_decode(s: Seq<u8>) -> nat
    decreases s.len(),
{
    if s.len() == 0 {
        0
    } else {
        be_decode(s.drop_last()) * 256 + s.last() as nat
    }
}

/// The eight bytes of `v`, highest first.
pub open spec fn be64_encode(v: u64) -> Seq<u8> {
    be_encode(v as nat, 8)
}

/// The value of the first eight bytes of `s`, highest first.
pub open spec fn be64_decode(s: Seq<u8>) -> u64
    recommends
        s.len() >= 8,
{
    be_decode(s.subrange(0, 8)) as u64
}

/// `n` bytes are written, and they stand for a value below `256^n`.
pub proof fn lemma_be_bounds(v: nat, n: nat, s: Seq<u8>)
    ensures
        be_encode(v, n).len() == n,
        be_decode(s) < pow256(s.len()),
    decreases n, s.len(),
{
    if n > 0 {
        lemma_be_bounds(v / 256, (n - 1) as nat, Seq::empty());
    }
    if s.len() > 0 {
        lemma_be_bounds(0, 0, s.drop_last());
    }
}

/// Decoding the `n` bytes of a value below `256^n` gives the value back.
pub proof fn lemma_be_decode_encode(v: nat, n: nat)
    requires
        v < pow256(n),
    ensures
        be_decode(be_encode(v, n)) == v,
    decreases n,
{
    if n > 0 {
        let e = be_encode(v, n);
        lemma_be_decode_encode(v / 256, (n - 1) as nat);
        assert(e.drop_last() =~= be_encode(v / 256, (n - 1) as nat));
    }
}

/// Encoding the value of some bytes, on as many bytes, gives the bytes back.
pub proof fn lemma_be_encode_decode(s: Seq<u8>)
    ensures
        be_encode(be_decode(s), s.len()) == s,
    decreases s.len(),
{
    if s.len() > 0 {
        lemma_be_encode_decode(s.drop_last());
        let v = be_decode(s);
        assert(v / 256 == be_decode(s.drop_last()));
        assert(v % 256 == s.last());
        assert(be_encode(v, s.len()) =~= s);
    } else {
        assert(be_encode(be_decode(s), s.len()) =~= s);
    }
}

/// `256^8` is one more than the largest `u64`.
pub proof fn lemma_pow256_8()
    ensures
        pow256(8) == 0x1_0000_0000_0000_0000,
{
    reveal_with_fuel(pow256, 9);
}

/// Decoding the eight bytes of a value gives the value back, whatever follows.
pub proof fn lemma_be64_decode_encode(v: u64, rest: Seq<u8>)
    ensures
        be64_encode(v).len() == 8,
        be64_decode(be64_encode(v) + rest) == v,
{
    lemma_pow256_8();
    lemma_be_bounds(v as nat, 8, Seq::empty());
    lemma_be_decode_encode(v as nat, 8);
    assert((be64_encode(v) + rest).subrange(0, 8) =~= be64_encode(v));
}

/// Encoding the value of eight bytes gives the bytes back.
pub proof fn lemma_be64_encode_decode(s: Seq<u8>)
    requires
        s.len() >= 8,
    ensures
        be64_encode(be64_decode(s)) == s.subrange(0, 8),
{
    lemma_pow256_8();
    lemma_be_bounds(0, 0, s.subrange(0, 8));
    lemma_be_encode_decode(s.subrange(0, 8));
}

/// Appends the `n` lowest bytes of `v`, highest first, to `buffer`.
fn push_be_bytes(v: u64, n: u8, buffer: &mut Vec<u8>)
    ensures
        final(buffer)@ == old(buffer)@ + be_encode(v as nat, n as nat),
    decreases n,
{
    if n > 0 {
        push_be_bytes(v / 256, n - 1, buffer);
        buffer.push((v % 256) as u8);
        assert(buffer@ =~= old(buffer)@ + be_encode(v as nat, n as nat));
    } else {
        assert(buffer@ =~= old(buffer)@ + be_encode(v as nat, n as nat));
    }
}

/// Appends the eight bytes of `v`, highest first, to `buffer`.
pub fn u64_to_be_bytes(v: u64, buffer: &mut Vec<u8>)
    ensures
        final(buffer)@ == old(buffer)@ + be64_encode(v),
{
    push_be_bytes(v, 8, buffer);
}

/// Reads the value of the eight bytes at `pos`, highest first.
pub fn u64_from_be_bytes(s: &[u8], pos: usize) -> (v: u64)
    requires
        pos + 8 <= s@.len(),
    ensures
        v == be64_decode(s@.subrange(pos as int, s@.len() as int)),
{
    let ghost t = s@.subrange(pos as int, s@.len() as int).subrange(0, 8);
    let len = s.len();
    let mut acc: u64 = 0;
    let mut i: usize = 0;
    proof {
        reveal_with_fuel(pow256, 9);
    }
    while i < 8
        invariant
            i <= 8,
            pos + 8 <= s@.len(),
            s@.len() == len,
            t == s@.subrange(pos as int, s@.len() as int).subrange(0, 8),
            acc == be_decode(t.subrange(0, i as int)),
            acc < pow256(i as nat),
        decreases 8 - i,
    {
        proof {
            reveal_with_fuel(pow256, 9);
            assert(t.subrange(0, i + 1).drop_last() =~= t.subrange(0, i as int));
            assert(t.subrange(0, i + 1).last() == s@[pos + i]);
            lemma_pow256_monotonic((i + 1) as nat, 8);
        }
        acc = acc * 256 + s[pos + i] as u64;
        i += 1;
    }
    assert(t.subrange(0, 8) =~= t);
    acc
}

/// The powers of 256 grow.
pub proof fn lemma_pow256_monotonic(a: nat, b: nat)
    requires
        a <= b,
    ensures
        pow256(a) <= pow256(b),
    decreases b,
{
    if a < b {
        lemma_pow256_monotonic(a, (b - 1) as nat);
    }
}

} // verus!
