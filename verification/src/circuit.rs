//! Read-only description of one circuit layer: the sparse gate lists
//! connecting the input wires to the output wires, together with the input
//! layer's values as a multilinear polynomial.

use crate::field::all_valid;
use crate::poly::MultiLinearPoly;
use vstd::arithmetic::power2::pow2;
use vstd::prelude::*;

verus! {

/// A two-input multiplication gate: output wire `o` receives the product
/// of input wires `i0` and `i1`.
#[derive(Debug, Clone, Copy, PartialEq, Eq, Structural)]
pub struct GateMul {
    /// First input wire.
    pub i0: usize,
    /// Second input wire.
    pub i1: usize,
    /// Output wire.
    pub o: usize,
}

/// A one-input gate: output wire `o` receives input wire `i0`'s value,
/// either unchanged (a relay/add gate) or raised to the fifth power.
#[derive(Debug, Clone, Copy, PartialEq, Eq, Structural)]
pub struct GateUni {
    /// Input wire.
    pub i0: usize,
    /// Output wire.
    pub o: usize,
}

/// One layer of an arithmetic circuit, read by the GKR layer sum-check.
#[derive(Debug, Clone)]
pub struct CircuitLayer {
    /// Number of variables of the input side.
    pub input_var_num: usize,
    /// Number of variables of the output side.
    pub output_var_num: usize,
    /// The input layer's values.
    pub input_vals: MultiLinearPoly,
    /// Multiplication gates.
    pub mul_gates: Vec<GateMul>,
    /// Relay/add gates.
    pub add_gates: Vec<GateUni>,
    /// Fifth-power gates, used by the squared layer variant.
    pub pow5_gates: Vec<GateUni>,
}

impl CircuitLayer {
    /// Sizes agree and every gate's wires are in range.
    pub open spec fn wf(self) -> bool {
        &&& self.input_vals.wf()
        &&& self.input_vals.var_num == self.input_var_num
        &&& all_valid(self.input_vals.evals@)
        &&& forall|k: int|
            0 <= k < self.mul_gates@.len() ==> (#[trigger] self.mul_gates@[k]).i0 < pow2(
                self.input_var_num as nat,
            ) && self.mul_gates@[k].i1 < pow2(self.input_var_num as nat)
                && self.mul_gates@[k].o < pow2(self.output_var_num as nat)
        &&& forall|k: int|
            0 <= k < self.add_gates@.len() ==> (#[trigger] self.add_gates@[k]).i0 < pow2(
                self.input_var_num as nat,
            ) && self.add_gates@[k].o < pow2(self.output_var_num as nat)
        &&& forall|k: int|
            0 <= k < self.pow5_gates@.len() ==> (#[trigger] self.pow5_gates@[k]).i0 < pow2(
                self.input_var_num as nat,
            ) && self.pow5_gates@[k].o < pow2(self.output_var_num as nat)
    }
}

} // verus!
