//! The blackbox function catalog: one pure solving algorithm per named
//! blackbox opcode kind, dispatched over a tagged union and matched
//! exhaustively.
//!
//! Every member is a function of its resolved inputs alone — no store access
//! beyond its declared outputs, no other side effects — so repeated solves of
//! one circuit reproduce the same witness.

use vstd::prelude::*;
use crate::errors::{ErrorLocation, MalformedReason, OpcodeResolutionError};
use crate::field::{FieldValue, FIELD_MODULUS, bit_len};
use crate::input::{FunctionInput, InputResolution, InputResolutionSpec, input_to_value,
    spec_input_to_value};
use crate::store::WitnessStore;

verus! {

/// The widest bit width the bitwise members accept: one less than the
/// field's own bit length, so that their outputs are field elements again.
pub const MAX_BITWISE_WIDTH: u32 = 15;

/// A blackbox function call: a kind tag with its input references and output
/// witness indices.
#[derive(Clone, Copy, Debug, PartialEq, Eq, Structural)]
pub enum BlackBoxFuncCall {
    /// Constrains one input to its declared bit width; no output.
    Range { input: FunctionInput },
    /// Bitwise conjunction of two width-masked inputs, one output witness.
    And { lhs: FunctionInput, rhs: FunctionInput, output: u32 },
    /// Bitwise exclusive disjunction of two width-masked inputs, one output
    /// witness.
    Xor { lhs: FunctionInput, rhs: FunctionInput, output: u32 },
}

impl BlackBoxFuncCall {
    /// Literal operands are reduced field elements.
    pub open spec fn wf(self) -> bool {
        match self {
            BlackBoxFuncCall::Range { input } => input.wf(),
            BlackBoxFuncCall::And { lhs, rhs, output } => lhs.wf() && rhs.wf(),
            BlackBoxFuncCall::Xor { lhs, rhs, output } => lhs.wf() && rhs.wf(),
        }
    }
}

/// The low-bits mask for a declared width.
pub open spec fn width_mask(bits: u32) -> u64 {
    ((1u64 << (bits as u64)) - 1) as u64
}

/// The And member's output over already-resolved representatives: each input
/// masked to its declared width, then conjoined bitwise.
pub open spec fn and_output(a: nat, b: nat, a_bits: u32, b_bits: u32) -> nat {
    (((a as u64) & width_mask(a_bits)) & ((b as u64) & width_mask(b_bits))) as nat
}

/// The Xor member's output over already-resolved representatives.
pub open spec fn xor_output(a: nat, b: nat, a_bits: u32, b_bits: u32) -> nat {
    (((a as u64) & width_mask(a_bits)) ^ ((b as u64) & width_mask(b_bits))) as nat
}

/// The stall signal: an operand is not populated yet.
pub open spec fn stall_error() -> OpcodeResolutionError {
    OpcodeResolutionError::OpcodeNotSolvable { opcode_location: ErrorLocation::Unresolved }
}

/// Failure of a constraint, located later by the scheduler.
pub open spec fn unsatisfied_error() -> OpcodeResolutionError {
    OpcodeResolutionError::UnsatisfiedConstrain { opcode_location: ErrorLocation::Unresolved }
}

/// What the Range member decides, over the store's contents: success exactly
/// when the resolved input's bit length is at most the declared width.
pub open spec fn spec_solve_range(
    m: Map<nat, nat>,
    input: FunctionInput,
    pedantic_solving: bool,
) -> Result<(), OpcodeResolutionError> {
    match spec_input_to_value(m, input, pedantic_solving) {
        InputResolutionSpec::Missing(_) => Err(stall_error()),
        InputResolutionSpec::Unsatisfied => Err(unsatisfied_error()),
        InputResolutionSpec::Value(v) => if bit_len(v) > input.num_bits {
            Err(unsatisfied_error())
        } else {
            Ok(())
        },
    }
}

/// Solves a range constraint: succeeds exactly when the resolved input fits
/// its declared bit width, so the bound is enforced even for a value no
/// other opcode reads.
pub fn solve_range_opcode(
    initial_witness: &WitnessStore,
    input: &FunctionInput,
    pedantic_solving: bool,
) -> (r: Result<(), OpcodeResolutionError>)
    requires
        initial_witness.wf(),
        input.wf(),
    ensures
        r == spec_solve_range(initial_witness@, *input, pedantic_solving),
{
    match input_to_value(initial_witness, *input, pedantic_solving) {
        InputResolution::Missing(_) => Err(
            OpcodeResolutionError::OpcodeNotSolvable { opcode_location: ErrorLocation::Unresolved },
        ),
        InputResolution::Failed(e) => Err(e),
        InputResolution::Resolved(value) => {
            if value.num_bits() > input.num_bits {
                Err(
                    OpcodeResolutionError::UnsatisfiedConstrain {
                        opcode_location: ErrorLocation::Unresolved,
                    },
                )
            } else {
                Ok(())
            }
        },
    }
}

/// Range succeeds if and only if the resolved value's bit length is at most
/// the declared width.
pub proof fn lemma_range_success_iff(
    m: Map<nat, nat>,
    input: FunctionInput,
    pedantic_solving: bool,
    v: nat,
)
    requires
        spec_input_to_value(m, input, pedantic_solving) == InputResolutionSpec::Value(v),
    ensures
        spec_solve_range(m, input, pedantic_solving) is Ok <==> bit_len(v) <= input.num_bits,
{
}

/// One result-and-store outcome of a writing catalog member.
pub open spec fn spec_write_output(
    m: Map<nat, nat>,
    output: nat,
    value: nat,
) -> (Map<nat, nat>, Result<(), OpcodeResolutionError>) {
    if m.contains_key(output) && m[output] != value {
        (m, Err(OpcodeResolutionError::Conflict { opcode_location: ErrorLocation::Unresolved }))
    } else {
        (m.insert(output, value), Ok(()))
    }
}

/// What a bitwise member does, over the store's contents: both operands
/// resolved, widths within the field's capacity, output computed and written
/// back — a disagreeing existing output value is a conflict.
pub open spec fn spec_solve_bitwise(
    m: Map<nat, nat>,
    is_xor: bool,
    lhs: FunctionInput,
    rhs: FunctionInput,
    output: u32,
    pedantic_solving: bool,
) -> (Map<nat, nat>, Result<(), OpcodeResolutionError>) {
    match spec_input_to_value(m, lhs, pedantic_solving) {
        InputResolutionSpec::Missing(_) => (m, Err(stall_error())),
        InputResolutionSpec::Unsatisfied => (m, Err(unsatisfied_error())),
        InputResolutionSpec::Value(a) => match spec_input_to_value(m, rhs, pedantic_solving) {
            InputResolutionSpec::Missing(_) => (m, Err(stall_error())),
            InputResolutionSpec::Unsatisfied => (m, Err(unsatisfied_error())),
            InputResolutionSpec::Value(b) => {
                if lhs.num_bits > MAX_BITWISE_WIDTH || rhs.num_bits > MAX_BITWISE_WIDTH {
                    (
                        m,
                        Err(
                            OpcodeResolutionError::MalformedOperand {
                                reason: MalformedReason::WidthBeyondField,
                                opcode_location: ErrorLocation::Unresolved,
                            },
                        ),
                    )
                } else if is_xor {
                    spec_write_output(m, output as nat, xor_output(a, b, lhs.num_bits, rhs.num_bits))
                } else {
                    spec_write_output(m, output as nat, and_output(a, b, lhs.num_bits, rhs.num_bits))
                }
            },
        },
    }
}

/// Solves a bitwise blackbox call and writes its output witness.
fn solve_bitwise(
    initial_witness: &mut WitnessStore,
    is_xor: bool,
    lhs: FunctionInput,
    rhs: FunctionInput,
    output: u32,
    pedantic_solving: bool,
) -> (r: Result<(), OpcodeResolutionError>)
    requires
        old(initial_witness).wf(),
        lhs.wf(),
        rhs.wf(),
    ensures
        final(initial_witness).wf(),
        (final(initial_witness)@, r) == spec_solve_bitwise(
            old(initial_witness)@,
            is_xor,
            lhs,
            rhs,
            output,
            pedantic_solving,
        ),
{
    let a = match input_to_value(initial_witness, lhs, pedantic_solving) {
        InputResolution::Missing(_) => {
            return Err(
                OpcodeResolutionError::OpcodeNotSolvable {
                    opcode_location: ErrorLocation::Unresolved,
                },
            );
        },
        InputResolution::Failed(e) => { return Err(e); },
        InputResolution::Resolved(v) => v,
    };
    let b = match input_to_value(initial_witness, rhs, pedantic_solving) {
        InputResolution::Missing(_) => {
            return Err(
                OpcodeResolutionError::OpcodeNotSolvable {
                    opcode_location: ErrorLocation::Unresolved,
                },
            );
        },
        InputResolution::Failed(e) => { return Err(e); },
        InputResolution::Resolved(v) => v,
    };
    if lhs.num_bits > MAX_BITWISE_WIDTH || rhs.num_bits > MAX_BITWISE_WIDTH {
        return Err(
            OpcodeResolutionError::MalformedOperand {
                reason: MalformedReason::WidthBeyondField,
                opcode_location: ErrorLocation::Unresolved,
            },
        );
    }
    let a_bits: u64 = lhs.num_bits as u64;
    let b_bits: u64 = rhs.num_bits as u64;
    proof {
        assert((1u64 << a_bits) >= 1 && (1u64 << a_bits) <= 32768 && (1u64 << b_bits) >= 1 && (1u64
            << b_bits) <= 32768) by (bit_vector)
            requires
                a_bits <= 15,
                b_bits <= 15,
        ;
    }
    let a_raw: u64 = a.as_u64();
    let b_raw: u64 = b.as_u64();
    let a_mask: u64 = (1u64 << a_bits) - 1;
    let b_mask: u64 = (1u64 << b_bits) - 1;
    let a_masked: u64 = a_raw & a_mask;
    let b_masked: u64 = b_raw & b_mask;
    let out: u64 = if is_xor {
        a_masked ^ b_masked
    } else {
        a_masked & b_masked
    };
    proof {
        assert(a_masked < 32768 && b_masked < 32768 && (a_masked ^ b_masked) < 32768 && (a_masked
            & b_masked) < 32768) by (bit_vector)
            requires
                a_masked == a_raw & a_mask,
                b_masked == b_raw & b_mask,
                a_mask < 32768,
                b_mask < 32768,
        ;
        vstd::arithmetic::div_mod::lemma_small_mod(out as nat, FIELD_MODULUS as nat);
    }
    let out_value = FieldValue::from_u64(out);
    if initial_witness.set(output, out_value) {
        Ok(())
    } else {
        Err(OpcodeResolutionError::Conflict { opcode_location: ErrorLocation::Unresolved })
    }
}

/// What dispatching one blackbox call does to the store and reports back.
pub open spec fn spec_solve_blackbox(
    m: Map<nat, nat>,
    bb_func: BlackBoxFuncCall,
    pedantic_solving: bool,
) -> (Map<nat, nat>, Result<(), OpcodeResolutionError>) {
    match bb_func {
        BlackBoxFuncCall::Range { input } => (m, spec_solve_range(m, input, pedantic_solving)),
        BlackBoxFuncCall::And { lhs, rhs, output } => spec_solve_bitwise(
            m,
            false,
            lhs,
            rhs,
            output,
            pedantic_solving,
        ),
        BlackBoxFuncCall::Xor { lhs, rhs, output } => spec_solve_bitwise(
            m,
            true,
            lhs,
            rhs,
            output,
            pedantic_solving,
        ),
    }
}

/// Dispatches one blackbox call to its catalog member and writes the
/// member's outputs back into the store.
pub fn solve_blackbox(
    initial_witness: &mut WitnessStore,
    bb_func: &BlackBoxFuncCall,
    pedantic_solving: bool,
) -> (r: Result<(), OpcodeResolutionError>)
    requires
        old(initial_witness).wf(),
        bb_func.wf(),
    ensures
        final(initial_witness).wf(),
        (final(initial_witness)@, r) == spec_solve_blackbox(
            old(initial_witness)@,
            *bb_func,
            pedantic_solving,
        ),
{
    match bb_func {
        BlackBoxFuncCall::Range { input } => solve_range_opcode(
            initial_witness,
            input,
            pedantic_solving,
        ),
        BlackBoxFuncCall::And { lhs, rhs, output } => solve_bitwise(
            initial_witness,
            false,
            *lhs,
            *rhs,
            *output,
            pedantic_solving,
        ),
        BlackBoxFuncCall::Xor { lhs, rhs, output } => solve_bitwise(
            initial_witness,
            true,
            *lhs,
            *rhs,
            *output,
            pedantic_solving,
        ),
    }
}

/// Every catalog member is deterministic: equal stores and equal calls yield
/// equal outcomes, within and across sessions.
pub proof fn lemma_blackbox_deterministic(
    m1: Map<nat, nat>,
    m2: Map<nat, nat>,
    bb_func: BlackBoxFuncCall,
    pedantic_solving: bool,
)
    requires
        m1 == m2,
    ensures
        spec_solve_blackbox(m1, bb_func, pedantic_solving) == spec_solve_blackbox(
            m2,
            bb_func,
            pedantic_solving,
        ),
{
}

} // verus!
