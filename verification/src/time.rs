//! Times, in milliseconds, and the clock of slots.

use vstd::prelude::*;
use crate::error::ModelsError;
use crate::slot::Slot;

verus! {

/// A time or a duration, in milliseconds.
#[derive(Clone, Copy, Debug, PartialEq, Eq, Structural, PartialOrd, Ord, Hash)]
pub struct MassaTime {
    pub millis: u64,
}

impl MassaTime {
    /// The time of the given number of milliseconds.
    pub fn from_millis(millis: u64) -> (r: MassaTime)
        ensures
            r.millis == millis,
    {
        MassaTime { millis }
    }

    /// The number of milliseconds.
    pub fn to_millis(&self) -> (r: u64)
        ensures
            r == self.millis,
    {
        self.millis
    }

    /// `self - other`, or zero where `other` is larger.
    pub fn saturating_sub(self, other: MassaTime) -> (r: MassaTime)
        ensures
            r.millis == if self.millis >= other.millis {
                self.millis - other.millis
            } else {
                0
            },
    {
        if self.millis >= other.millis {
            MassaTime { millis: self.millis - other.millis }
        } else {
            MassaTime { millis: 0 }
        }
    }

    /// `self + other`, where it fits.
    pub fn checked_add(self, other: MassaTime) -> (r: Result<MassaTime, ModelsError>)
        ensures
            self.millis + other.millis <= u64::MAX ==> r == Ok::<_, ModelsError>(
                MassaTime { millis: (self.millis + other.millis) as u64 },
            ),
            self.millis + other.millis > u64::MAX ==> r == Err::<MassaTime, _>(
                ModelsError::TimeOverflowError,
            ),
    {
        if self.millis <= u64::MAX - other.millis {
            Ok(MassaTime { millis: self.millis + other.millis })
        } else {
            Err(ModelsError::TimeOverflowError)
        }
    }

    /// `self - other`, where `other` is not larger.
    pub fn checked_sub(self, other: MassaTime) -> (r: Result<MassaTime, ModelsError>)
        ensures
            self.millis >= other.millis ==> r == Ok::<_, ModelsError>(
                MassaTime { millis: (self.millis - other.millis) as u64 },
            ),
            self.millis < other.millis ==> r == Err::<MassaTime, _>(
                ModelsError::TimeOverflowError,
            ),
    {
        if self.millis >= other.millis {
            Ok(MassaTime { millis: self.millis - other.millis })
        } else {
            Err(ModelsError::TimeOverflowError)
        }
    }

    /// `self * n`, where it fits.
    pub fn checked_mul(self, n: u64) -> (r: Result<MassaTime, ModelsError>)
        ensures
            self.millis * n <= u64::MAX ==> r == Ok::<_, ModelsError>(
                MassaTime { millis: (self.millis * n) as u64 },
            ),
            self.millis * n > u64::MAX ==> r == Err::<MassaTime, _>(
                ModelsError::TimeOverflowError,
            ),
    {
        match self.millis.checked_mul(n) {
            Some(millis) => Ok(MassaTime { millis }),
            None => Err(ModelsError::TimeOverflowError),
        }
    }

    /// `self / n`, where `n` is not zero.
    pub fn checked_div_u64(self, n: u64) -> (r: Result<MassaTime, ModelsError>)
        ensures
            n != 0 ==> r == Ok::<_, ModelsError>(MassaTime { millis: self.millis / n }),
            n == 0 ==> r == Err::<MassaTime, _>(ModelsError::TimeOverflowError),
    {
        if n != 0 {
            Ok(MassaTime { millis: self.millis / n })
        } else {
            Err(ModelsError::TimeOverflowError)
        }
    }

    /// The duration as whole days, and the hours, minutes and seconds left over.
    pub fn days_hours_mins_secs(&self) -> (r: (u64, u64, u64, u64))
        ensures
            r.0 == self.millis / 86_400_000,
            r.1 == (self.millis / 3_600_000) % 24,
            r.2 == (self.millis / 60_000) % 60,
            r.3 == (self.millis / 1000) % 60,
    {
        let secs = self.millis / 1000;
        let mins = secs / 60;
        let hours = mins / 60;
        let days = hours / 24;
        assert(self.millis / 1000 / 60 == self.millis / 60_000);
        assert(self.millis / 1000 / 60 / 60 == self.millis / 3_600_000);
        assert(self.millis / 1000 / 60 / 60 / 24 == self.millis / 86_400_000);
        (days, hours % 24, mins % 60, secs % 60)
    }
}

/// The time at which a slot starts: the genesis time, one `t0` per period, and one
/// `t0 / thread_count` per thread.
pub open spec fn spec_block_slot_timestamp(
    thread_count: u8,
    t0: MassaTime,
    genesis_timestamp: MassaTime,
    slot: Slot,
) -> int {
    genesis_timestamp.millis + (t0.millis / thread_count as u64) * slot.thread + t0.millis
        * slot.period
}

/// The time at which a slot starts. Fails where there is no thread, or the time
/// does not fit.
pub fn get_block_slot_timestamp(
    thread_count: u8,
    t0: MassaTime,
    genesis_timestamp: MassaTime,
    slot: Slot,
) -> (r: Result<MassaTime, ModelsError>)
    ensures
        thread_count > 0 && spec_block_slot_timestamp(thread_count, t0, genesis_timestamp, slot)
            <= u64::MAX ==> r == Ok::<_, ModelsError>(
            MassaTime {
                millis: spec_block_slot_timestamp(
                    thread_count,
                    t0,
                    genesis_timestamp,
                    slot,
                ) as u64,
            },
        ),
        thread_count == 0 || spec_block_slot_timestamp(thread_count, t0, genesis_timestamp, slot)
            > u64::MAX ==> r == Err::<MassaTime, _>(ModelsError::TimeOverflowError),
{
    if thread_count == 0 {
        return Err(ModelsError::TimeOverflowError);
    }
    let step = t0.millis / (thread_count as u64);
    assert(step * slot.thread >= 0 && t0.millis * slot.period >= 0) by (nonlinear_arith)
        requires
            step >= 0,
            slot.thread >= 0,
            t0.millis >= 0,
            slot.period >= 0,
    ;
    let base = match step.checked_mul(slot.thread as u64) {
        Some(v) => v,
        None => { return Err(ModelsError::TimeOverflowError); },
    };
    let shift = match t0.millis.checked_mul(slot.period) {
        Some(v) => v,
        None => { return Err(ModelsError::TimeOverflowError); },
    };
    let with_base = match genesis_timestamp.millis.checked_add(base) {
        Some(v) => v,
        None => { return Err(ModelsError::TimeOverflowError); },
    };
    match with_base.checked_add(shift) {
        Some(v) => Ok(MassaTime { millis: v }),
        None => Err(ModelsError::TimeOverflowError),
    }
}

/// The latest slot that has started at `timestamp`, if any has.
pub open spec fn spec_latest_block_slot_at_timestamp(
    thread_count: u8,
    t0: MassaTime,
    genesis_timestamp: MassaTime,
    timestamp: MassaTime,
) -> Result<Option<Slot>, ModelsError> {
    if timestamp.millis < genesis_timestamp.millis {
        Ok(None)
    } else if thread_count == 0 || t0.millis / thread_count as u64 == 0 {
        Err(ModelsError::TimeOverflowError)
    } else {
        let since = (timestamp.millis - genesis_timestamp.millis) as u64;
        let thread = (since % t0.millis) / (t0.millis / thread_count as u64);
        if thread > u8::MAX {
            Err(ModelsError::ThreadOverflowError)
        } else {
            Ok(Some(Slot { period: since / t0.millis, thread: thread as u8 }))
        }
    }
}

/// The latest slot that has started at `timestamp`: none before the genesis time;
/// after it, the period is the number of whole `t0` since the genesis time, and the
/// thread the number of whole `t0 / thread_count` in what is left. Fails where
/// `t0 / thread_count` is zero or the thread does not fit a byte.
pub fn get_latest_block_slot_at_timestamp(
    thread_count: u8,
    t0: MassaTime,
    genesis_timestamp: MassaTime,
    timestamp: MassaTime,
) -> (r: Result<Option<Slot>, ModelsError>)
    ensures
        r == spec_latest_block_slot_at_timestamp(thread_count, t0, genesis_timestamp, timestamp),
{
    if timestamp.millis < genesis_timestamp.millis {
        return Ok(None);
    }
    if thread_count == 0 {
        return Err(ModelsError::TimeOverflowError);
    }
    let step = t0.millis / (thread_count as u64);
    if step == 0 {
        return Err(ModelsError::TimeOverflowError);
    }
    let since = timestamp.millis - genesis_timestamp.millis;
    let thread = (since % t0.millis) / step;
    if thread > u8::MAX as u64 {
        return Err(ModelsError::ThreadOverflowError);
    }
    Ok(Some(Slot { period: since / t0.millis, thread: thread as u8 }))
}

/// Where `t0` is a multiple of the thread count, the latest slot at the start time
/// of a slot is that slot.
pub proof fn lemma_latest_slot_at_slot_start(
    thread_count: u8,
    t0: MassaTime,
    genesis_timestamp: MassaTime,
    slot: Slot,
)
    requires
        thread_count > 0,
        t0.millis > 0,
        t0.millis % (thread_count as u64) == 0,
        slot.thread < thread_count,
        spec_block_slot_timestamp(thread_count, t0, genesis_timestamp, slot) <= u64::MAX,
    ensures
        spec_latest_block_slot_at_timestamp(
            thread_count,
            t0,
            genesis_timestamp,
            MassaTime {
                millis: spec_block_slot_timestamp(
                    thread_count,
                    t0,
                    genesis_timestamp,
                    slot,
                ) as u64,
            },
        ) == Ok::<_, ModelsError>(Some(slot)),
{
    let tc = thread_count as int;
    let t = t0.millis as int;
    let step = t / tc;
    let th = slot.thread as int;
    let p = slot.period as int;
    assert(step * tc == t) by (nonlinear_arith)
        requires
            step == t / tc,
            t % tc == 0,
            tc > 0,
    ;
    assert(step > 0) by (nonlinear_arith)
        requires
            step * tc == t,
            t > 0,
            tc > 0,
            step >= 0,
    ;
    let off = step * th;
    assert(0 <= off < t) by (nonlinear_arith)
        requires
            off == step * th,
            step * tc == t,
            0 <= th < tc,
            step > 0,
    ;
    let since = off + t * p;
    assert(t * p >= 0) by (nonlinear_arith)
        requires
            t > 0,
            p >= 0,
    ;
    assert(since / t == p && since % t == off) by (nonlinear_arith)
        requires
            since == off + t * p,
            0 <= off < t,
            t > 0,
    ;
    assert(off / step == th) by (nonlinear_arith)
        requires
            off == step * th,
            step > 0,
    ;
}

} // verus!
