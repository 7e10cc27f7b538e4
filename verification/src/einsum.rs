//! The generic contraction operator: a named-axis mapping, a result datum
//! type, and optional quantization parameters.
use vstd::prelude::*;
use crate::axes::AxesMapping;
use crate::tensor::DatumType;

verus! {

/// A generic contraction ("einsum") operator. With quantization parameters
/// present the node carries nine inputs; otherwise two.
#[derive(Clone, Debug)]
pub struct EinSumOp {
    pub axes: AxesMapping,
    pub operating_dt: DatumType,
    pub q_params: Option<DatumType>,
}

impl EinSumOp {
    /// Number of inputs the operator expects on its node.
    pub open spec fn spec_input_count(&self) -> int {
        if self.q_params is Some {
            9
        } else {
            2
        }
    }

    /// Human-readable name of the operator.
    pub fn name(&self) -> (r: &'static str)
        ensures
            r@ == "EinSum"@,
    {
        "EinSum"
    }

    /// Evaluation depends only on the inputs, never on prior calls.
    pub fn is_stateless(&self) -> (r: bool)
        ensures
            r,
    {
        true
    }
}

} // verus!
