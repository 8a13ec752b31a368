//! A constraint-solving core for arithmetic circuits over a prime field.
//!
//! Given a circuit (an ordered list of opcodes over named witnesses) and a
//! partial initial assignment, [`solver::solve`] computes a full assignment
//! of field values to witnesses such that every constraint holds, or reports
//! precisely why no such assignment exists.
//!
//! The pieces, leaves first: [`field`] holds the field elements with their
//! modular arithmetic and bit-length introspection; [`store`] the partial
//! witness store, the session's mutable fact base; [`input`] resolves circuit
//! input references against the store, enforcing declared bit widths in
//! pedantic mode; [`blackbox`] is the catalog of named pure solving
//! primitives; [`expr`] solves arithmetic expression opcodes; and [`solver`]
//! schedules repeated passes over the opcode list to a fixpoint.
//!
//! The whole solving pipeline is deterministic by contract: `solve` returns
//! exactly `spec_solve` of its inputs, so identical sessions reproduce
//! identical witnesses, the output store provably extends the initial one,
//! and every value invented for an unknown witness provably satisfies the
//! expression it was solved from.

pub mod blackbox;
pub mod errors;
pub mod expr;
pub mod field;
pub mod input;
pub mod solver;
pub mod store;

pub use blackbox::BlackBoxFuncCall;
pub use errors::{ErrorLocation, OpcodeResolutionError};
pub use expr::Expression;
pub use field::FieldValue;
pub use input::{ConstantOrWitness, FunctionInput};
pub use solver::{Opcode, solve};
pub use store::WitnessStore;
