//! Lowering of generic tensor contractions ("einsum") to a batched
//! matrix-multiply operator, by rewriting a dataflow graph in place.
#![allow(unused_imports)]

pub mod shape;
pub mod tensor;
pub mod axes;
pub mod matmul;
pub mod einsum;
pub mod graph;
pub mod patch;
pub mod driver;
pub mod laws;

use vstd::prelude::*;

verus! {

/// Errors of the decomposition pass and of the lowered operator.
#[derive(Clone, Copy, Debug, PartialEq, Eq, Structural)]
pub enum CoreError {
    /// Operand rank mismatch, rank below 2, or mismatched contracted extents.
    MalformedInput,
    /// No contraction axis, or more than one axis classified into one role.
    UnsupportedContraction,
    /// Evaluation requested on a datum type without a dense matrix product.
    UnsupportedDatumType,
    /// A violated precondition discovered after classification succeeded.
    InternalConsistency,
    /// A value or a result size beyond what the machine arithmetic covers.
    ValueOutOfRange,
}



} // verus!
