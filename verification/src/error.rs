//! Errors of the data model and of its codecs.

use vstd::prelude::*;

verus! {

/// Why a value of the data model could not be built, written or read.
#[derive(Clone, Copy, Debug, PartialEq, Eq, Structural)]
pub enum ModelsError {
    /// A text is not the text form of a hash.
    HashError,
    /// The buffer ends before the value does.
    BufferError,
    /// A variable-length integer is cut short, not minimal, or too large for its type.
    VarintError,
    /// A count or a length read from the buffer is over the configured limit.
    LimitExceeded,
    /// The bytes of a public key are not accepted as one.
    InvalidPublicKey,
    /// The thread of a slot is not below the thread count.
    ThreadOverflowError,
    /// A period does not fit.
    PeriodOverflowError,
    /// A time does not fit.
    TimeOverflowError,
    /// The flag that announces parents is neither 0 nor 1.
    BadParentsFlag,
    /// A flag that must be 0 or 1 is neither.
    BadFlag,
    /// The kind of an operation is not a known one.
    InvalidOperationType,
    /// A sequence has more items than its count can be written with.
    TooManyItems,
    /// The block is larger than the configured limit.
    BlockTooLarge,
    /// A signature does not verify.
    SignatureError,
}

} // verus!
