//! Slots: the time coordinate `(period, thread)` of a block.

use vstd::prelude::*;
use crate::error::ModelsError;
use crate::serialization::{
    be64_decode,
    be64_encode,
    lemma_be64_decode_encode,
    lemma_be64_encode_decode,
    u64_from_be_bytes,
    u64_to_be_bytes,
};

verus! {

/// Size of the byte form of a slot.
pub const SLOT_KEY_SIZE: usize = 9;

/// A slot: a period, and a thread within it.
#[derive(Clone, Copy, Debug, PartialEq, Eq, Structural, PartialOrd, Ord, Hash)]
pub struct Slot {
    pub period: u64,
    pub thread: u8,
}

impl Slot {
    /// Whether `self` comes strictly before `other`: slots are ordered by period,
    /// then by thread.
    pub open spec fn spec_lt(self, other: Slot) -> bool {
        self.period < other.period || (self.period == other.period && self.thread
            < other.thread)
    }

    /// Whether `self` comes before `other` or is `other`.
    pub open spec fn spec_le(self, other: Slot) -> bool {
        self.spec_lt(other) || self == other
    }

    /// The slot that follows `self` when there are `thread_count` threads, where
    /// its period fits.
    pub open spec fn spec_next(self, thread_count: u8) -> Option<Slot> {
        if self.thread + 1 >= thread_count {
            if self.period < u64::MAX {
                Some(Slot { period: (self.period + 1) as u64, thread: 0 })
            } else {
                None
            }
        } else {
            Some(Slot { period: self.period, thread: (self.thread + 1) as u8 })
        }
    }

    /// The nine bytes of a slot: the period on eight bytes, highest first, then the
    /// thread.
    pub open spec fn spec_bytes(self) -> Seq<u8> {
        be64_encode(self.period).push(self.thread)
    }

    /// What reading a slot from the start of `s` gives, when there are
    /// `thread_count` threads.
    pub open spec fn spec_parse(s: Seq<u8>, thread_count: u8) -> Result<Slot, ModelsError> {
        if s.len() < 9 {
            Err(ModelsError::BufferError)
        } else if s[8] >= thread_count {
            Err(ModelsError::ThreadOverflowError)
        } else {
            Ok(Slot { period: be64_decode(s), thread: s[8] })
        }
    }

    /// The slot of the given period and thread.
    pub fn new(period: u64, thread: u8) -> (r: Slot)
        ensures
            r == (Slot { period, thread }),
    {
        Slot { period, thread }
    }

    /// Whether `self` comes strictly before `other`.
    pub fn is_before(&self, other: &Slot) -> (r: bool)
        ensures
            r == self.spec_lt(*other),
    {
        self.period < other.period || (self.period == other.period && self.thread
            < other.thread)
    }

    /// Whether `self` comes before `other` or is `other`.
    pub fn is_before_or_at(&self, other: &Slot) -> (r: bool)
        ensures
            r == self.spec_le(*other),
    {
        self.period < other.period || (self.period == other.period && self.thread
            <= other.thread)
    }

    /// The slot that follows `self`: the next thread of the same period, or thread 0
    /// of the next period after the last thread. Fails where the period would not
    /// fit.
    pub fn get_next_slot(&self, thread_count: u8) -> (r: Result<Slot, ModelsError>)
        ensures
            match self.spec_next(thread_count) {
                Some(next) => r == Ok::<Slot, ModelsError>(next),
                None => r == Err::<Slot, _>(ModelsError::PeriodOverflowError),
            },
    {
        if self.thread == u8::MAX || self.thread + 1 >= thread_count {
            if self.period == u64::MAX {
                Err(ModelsError::PeriodOverflowError)
            } else {
                Ok(Slot { period: self.period + 1, thread: 0 })
            }
        } else {
            Ok(Slot { period: self.period, thread: self.thread + 1 })
        }
    }

    /// The cycle of the slot: its period divided by the number of periods in a
    /// cycle.
    pub fn get_cycle(&self, periods_per_cycle: u64) -> (r: u64)
        requires
            periods_per_cycle > 0,
        ensures
            r == self.period / periods_per_cycle,
    {
        self.period / periods_per_cycle
    }

    /// Appends the nine bytes of the slot to `buffer`.
    pub fn write_bytes(&self, buffer: &mut Vec<u8>)
        ensures
            final(buffer)@ == old(buffer)@ + self.spec_bytes(),
    {
        u64_to_be_bytes(self.period, buffer);
        buffer.push(self.thread);
        assert(buffer@ =~= old(buffer)@ + self.spec_bytes());
    }

    /// The nine bytes of the slot, by which slots sort as they are ordered.
    pub fn to_bytes_key(&self) -> (r: Vec<u8>)
        ensures
            r@ == self.spec_bytes(),
            r@.len() == 9,
    {
        let mut out: Vec<u8> = Vec::new();
        self.write_bytes(&mut out);
        proof {
            lemma_be64_decode_encode(self.period, Seq::empty());
            assert(out@ =~= self.spec_bytes());
        }
        out
    }

    /// Reads a slot from the start of `buffer`. Its thread must be below
    /// `thread_count`.
    pub fn from_bytes(buffer: &[u8], thread_count: u8) -> (r: Result<Slot, ModelsError>)
        ensures
            r == Slot::spec_parse(buffer@, thread_count),
    {
        if buffer.len() < SLOT_KEY_SIZE {
            return Err(ModelsError::BufferError);
        }
        let thread = buffer[8];
        if thread >= thread_count {
            return Err(ModelsError::ThreadOverflowError);
        }
        assert(buffer@.subrange(0, buffer@.len() as int) =~= buffer@);
        let period = u64_from_be_bytes(buffer, 0);
        Ok(Slot { period, thread })
    }
}

/// Reading the bytes of a slot gives the slot back, where its thread is in range.
pub proof fn lemma_slot_parse_bytes(slot: Slot, thread_count: u8, rest: Seq<u8>)
    requires
        slot.thread < thread_count,
    ensures
        slot.spec_bytes().len() == 9,
        Slot::spec_parse(slot.spec_bytes() + rest, thread_count) == Ok::<Slot, ModelsError>(slot),
{
    lemma_be64_decode_encode(slot.period, seq![slot.thread] + rest);
    assert(slot.spec_bytes() + rest =~= be64_encode(slot.period) + (seq![slot.thread] + rest));
}

/// A slot that was read is written back as the nine bytes it was read from.
pub proof fn lemma_slot_bytes_parse(s: Seq<u8>, thread_count: u8)
    ensures
        Slot::spec_parse(s, thread_count) matches Ok(slot) ==> s.len() >= 9 && slot.spec_bytes()
            == s.subrange(0, 9) && slot.thread < thread_count,
{
    if s.len() >= 9 {
        lemma_be64_encode_decode(s);
        assert(s.subrange(0, 8).push(s[8]) =~= s.subrange(0, 9));
    }
}

/// Slots are in a total order: of two different slots exactly one comes before the
/// other, and no slot comes before itself.
pub proof fn lemma_slot_order_total(a: Slot, b: Slot)
    ensures
        a.spec_lt(b) || b.spec_lt(a) || a == b,
        !(a.spec_lt(b) && b.spec_lt(a)),
        !a.spec_lt(a),
{
}

/// The slot after a slot comes strictly after it.
pub proof fn lemma_next_slot_is_later(slot: Slot, thread_count: u8)
    ensures
        slot.spec_next(thread_count) matches Some(next) ==> slot.spec_lt(next),
{
}

} // verus!
