//! Why a checkpoint or a vocabulary could not be loaded.

use vstd::prelude::*;

verus! {

/// A fault found while reading a checkpoint or a vocabulary.
#[derive(Debug, Clone, Copy, PartialEq, Eq)]
pub enum LoadError {
    /// The data ends before the field that is read next.
    Truncated,
    /// A header field is out of range or the dimensions do not fit together.
    InvalidConfig,
    /// A record of the vocabulary gives a negative length.
    InvalidLength,
    /// The model's buffers have more values than can be addressed.
    TooLarge,
    /// The checkpoint is not as long as its header implies. `expected` is the
    /// length of a checkpoint with these dimensions that carries the rotary
    /// tables; one without them is shorter by the length of those tables.
    SizeMismatch { expected: u128, actual: usize },
}

} // verus!
