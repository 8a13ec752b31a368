//! The input resolver: turns a circuit input reference into a concrete field
//! value, enforcing the declared bit width when solving pedantically.

use vstd::prelude::*;
use crate::errors::{ErrorLocation, OpcodeResolutionError};
use crate::field::{FieldValue, bit_len};
use crate::store::WitnessStore;

verus! {

/// What a circuit input reference names: a literal field value, or a witness
/// to look up in the store.
#[derive(Clone, Copy, Debug, PartialEq, Eq, Structural)]
pub enum ConstantOrWitness {
    Constant(FieldValue),
    Witness(u32),
}

/// A circuit input reference together with its declared bit width: a
/// circuit-time upper bound on the referenced value's bit length.
#[derive(Clone, Copy, Debug, PartialEq, Eq, Structural)]
pub struct FunctionInput {
    pub input: ConstantOrWitness,
    pub num_bits: u32,
}

impl FunctionInput {
    /// The referenced field value, where one stands syntactically.
    pub open spec fn wf(self) -> bool {
        match self.input {
            ConstantOrWitness::Constant(c) => c.wf(),
            ConstantOrWitness::Witness(_) => true,
        }
    }

    /// A literal input.
    pub fn constant(value: FieldValue, num_bits: u32) -> (r: FunctionInput)
        ensures
            r == (FunctionInput { input: ConstantOrWitness::Constant(value), num_bits }),
    {
        FunctionInput { input: ConstantOrWitness::Constant(value), num_bits }
    }

    /// A witness reference.
    pub fn witness(index: u32, num_bits: u32) -> (r: FunctionInput)
        ensures
            r == (FunctionInput { input: ConstantOrWitness::Witness(index), num_bits }),
    {
        FunctionInput { input: ConstantOrWitness::Witness(index), num_bits }
    }
}

/// Outcome of resolving one input reference against a store.
#[derive(Clone, Copy, Debug, PartialEq, Eq, Structural)]
pub enum InputResolution {
    /// The reference named this value.
    Resolved(FieldValue),
    /// The referenced witness is not populated yet: a stall, not a failure.
    Missing(u32),
    /// The resolved value breaks its declared bit-width bound.
    Failed(OpcodeResolutionError),
}

/// What resolving an input reference yields, over the store's contents: a
/// literal resolves to itself; a missing witness stalls; a populated witness
/// whose bit length exceeds the declared width fails in pedantic mode and is
/// let through in relaxed mode.
pub open spec fn spec_input_to_value(
    m: Map<nat, nat>,
    input: FunctionInput,
    pedantic_solving: bool,
) -> InputResolutionSpec {
    match input.input {
        ConstantOrWitness::Constant(c) => InputResolutionSpec::Value(c@),
        ConstantOrWitness::Witness(w) => {
            if !m.contains_key(w as nat) {
                InputResolutionSpec::Missing(w as nat)
            } else if pedantic_solving && bit_len(m[w as nat]) > input.num_bits {
                InputResolutionSpec::Unsatisfied
            } else {
                InputResolutionSpec::Value(m[w as nat])
            }
        },
    }
}

/// Abstract counterpart of `InputResolution`, over plain integers.
pub enum InputResolutionSpec {
    Value(nat),
    Missing(nat),
    Unsatisfied,
}

/// Resolves one input reference against the store.
pub fn input_to_value(
    initial_witness: &WitnessStore,
    input: FunctionInput,
    pedantic_solving: bool,
) -> (r: InputResolution)
    requires
        initial_witness.wf(),
        input.wf(),
    ensures
        match r {
            InputResolution::Resolved(v) => v.wf() && spec_input_to_value(
                initial_witness@,
                input,
                pedantic_solving,
            ) == InputResolutionSpec::Value(v@),
            InputResolution::Missing(w) => spec_input_to_value(
                initial_witness@,
                input,
                pedantic_solving,
            ) == InputResolutionSpec::Missing(w as nat),
            InputResolution::Failed(e) => spec_input_to_value(
                initial_witness@,
                input,
                pedantic_solving,
            ) == InputResolutionSpec::Unsatisfied && e == (
            OpcodeResolutionError::UnsatisfiedConstrain {
                opcode_location: ErrorLocation::Unresolved,
            }),
        },
{
    match input.input {
        ConstantOrWitness::Constant(c) => InputResolution::Resolved(c),
        ConstantOrWitness::Witness(w) => {
            match initial_witness.get(w) {
                None => InputResolution::Missing(w),
                Some(value) => {
                    if pedantic_solving && value.num_bits() > input.num_bits {
                        InputResolution::Failed(
                            OpcodeResolutionError::UnsatisfiedConstrain {
                                opcode_location: ErrorLocation::Unresolved,
                            },
                        )
                    } else {
                        InputResolution::Resolved(value)
                    }
                },
            }
        },
    }
}

/// In relaxed mode resolution never fails: the declared-width bound is
/// checked only when solving pedantically.
pub proof fn lemma_relaxed_resolution_never_fails(m: Map<nat, nat>, input: FunctionInput)
    ensures
        spec_input_to_value(m, input, false) != InputResolutionSpec::Unsatisfied,
{
}

} // verus!
