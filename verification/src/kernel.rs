//! The floating-point kernel that the library drives.

use vstd::prelude::*;
use crate::engine::{Op, Span};

verus! {

/// The numerical side of a model: the buffers of an engine and the
/// arithmetic on them.
///
/// The library holds no floating-point value. An implementor holds the
/// buffers, carries out the operations that the library plans on them, and
/// hands logits over as the bit patterns of single-precision numbers,
/// probabilities as weights. The library promises nothing of what an
/// implementor returns and checks the length of every vector it is handed.
pub trait Kernel {
    /// Carries out `op` on the buffers.
    ///
    /// The library hands over the operations of one forward pass after the
    /// other, each pass in the order of its plan, for the positions from 0
    /// on.
    fn run(&mut self, op: &Op);

    /// Returns the values of `span` as bit patterns.
    fn read(&mut self, span: &Span) -> Vec<u32>;

    /// Divides `logits` by `temperature` and returns their softmax: one
    /// weight for every logit, each token's probability being its weight
    /// over the sum of all weights.
    fn softmax(&mut self, logits: &Vec<u32>, temperature: u32) -> Vec<u32>;
}

} // verus!
