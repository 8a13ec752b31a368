//! The opcode solving scheduler: repeated passes over the circuit until a
//! fixpoint.
//!
//! Opcodes are not listed in dependency order, so each pass attempts every
//! opcode still pending and defers the stalled ones.  A pass that solves
//! nothing while opcodes remain pending reports the first of them, in circuit
//! order, as not solvable; since every productive pass solves at least one
//! opcode, a session runs at most as many passes as the circuit has opcodes.

use vstd::prelude::*;
use crate::blackbox::{BlackBoxFuncCall, solve_blackbox, spec_solve_blackbox, spec_solve_bitwise,
    spec_write_output};
use crate::errors::{ErrorLocation, OpcodeResolutionError};
use crate::expr::{Expression, ExprOutcome, gather_mul, init_state,
    lemma_gather_linear_unknown_absent, lemma_gather_mul_unknown_absent, solve_expression,
    spec_solve_expression};
use crate::input::{InputResolutionSpec, spec_input_to_value};
use crate::store::WitnessStore;

verus! {

/// One circuit constraint: an arithmetic expression bound to zero, or a call
/// into the blackbox function catalog.
#[derive(Clone, Debug, PartialEq, Eq)]
pub enum Opcode {
    AssertZero(Expression),
    BlackBoxFuncCall(BlackBoxFuncCall),
}

impl Opcode {
    /// The opcode's literal operands are reduced field elements.
    pub open spec fn wf(self) -> bool {
        match self {
            Opcode::AssertZero(e) => e.wf(),
            Opcode::BlackBoxFuncCall(bb) => bb.wf(),
        }
    }
}

/// Every opcode of a circuit is well formed.
pub open spec fn circuit_wf(ops: Seq<Opcode>) -> bool {
    forall|i: int| 0 <= i < ops.len() ==> (#[trigger] ops[i]).wf()
}

/// What one attempt at one opcode does to the store and reports back.  A
/// reported `OpcodeNotSolvable` is the stall signal: the scheduler defers
/// the opcode instead of surfacing it.
pub open spec fn spec_solve_opcode(op: Opcode, m: Map<nat, nat>, pedantic_solving: bool) -> (
    Map<nat, nat>,
    Result<(), OpcodeResolutionError>,
) {
    match op {
        Opcode::AssertZero(e) => match spec_solve_expression(e, m) {
            ExprOutcome::Solved => (m, Ok(())),
            ExprOutcome::Assign(w, v) => (m.insert(w, v), Ok(())),
            ExprOutcome::Stall => (
                m,
                Err(
                    OpcodeResolutionError::OpcodeNotSolvable {
                        opcode_location: ErrorLocation::Unresolved,
                    },
                ),
            ),
            ExprOutcome::Unsatisfied => (
                m,
                Err(
                    OpcodeResolutionError::UnsatisfiedConstrain {
                        opcode_location: ErrorLocation::Unresolved,
                    },
                ),
            ),
        },
        Opcode::BlackBoxFuncCall(bb) => spec_solve_blackbox(m, bb, pedantic_solving),
    }
}

/// Attempts one opcode against the store.
pub fn solve_opcode(
    initial_witness: &mut WitnessStore,
    opcode: &Opcode,
    pedantic_solving: bool,
) -> (r: Result<(), OpcodeResolutionError>)
    requires
        old(initial_witness).wf(),
        opcode.wf(),
    ensures
        final(initial_witness).wf(),
        (final(initial_witness)@, r) == spec_solve_opcode(
            *opcode,
            old(initial_witness)@,
            pedantic_solving,
        ),
{
    match opcode {
        Opcode::AssertZero(e) => solve_expression(initial_witness, e),
        Opcode::BlackBoxFuncCall(bb) => solve_blackbox(initial_witness, bb, pedantic_solving),
    }
}

/// The outcome of one pass from opcode `i` on: the pending flags and store
/// contents it leaves behind, how many opcodes it solved, and the located
/// failure that aborted it, if one did.
pub struct PassResult {
    pub solved: Seq<bool>,
    pub map: Map<nat, nat>,
    pub progress: nat,
    pub error: Option<OpcodeResolutionError>,
}

/// One pass over the circuit from opcode `i` on: already-solved opcodes are
/// skipped, stalled ones deferred, a solved one is marked, and any other
/// failure aborts the pass, located at its opcode.
pub open spec fn spec_pass(
    ops: Seq<Opcode>,
    solved: Seq<bool>,
    m: Map<nat, nat>,
    pedantic_solving: bool,
    i: int,
) -> PassResult
    decreases ops.len() - i,
{
    if i < 0 || i >= ops.len() {
        PassResult { solved, map: m, progress: 0, error: None }
    } else if solved[i] {
        spec_pass(ops, solved, m, pedantic_solving, i + 1)
    } else {
        let attempt = spec_solve_opcode(ops[i], m, pedantic_solving);
        match attempt.1 {
            Ok(()) => {
                let rest = spec_pass(ops, solved.update(i, true), attempt.0, pedantic_solving, i + 1);
                PassResult {
                    solved: rest.solved,
                    map: rest.map,
                    progress: rest.progress + 1,
                    error: rest.error,
                }
            },
            Err(e) => {
                if e.is_stall() {
                    spec_pass(ops, solved, attempt.0, pedantic_solving, i + 1)
                } else {
                    PassResult {
                        solved,
                        map: attempt.0,
                        progress: 0,
                        error: Some(e.spec_at_location(i as usize)),
                    }
                }
            },
        }
    }
}

/// How many opcodes are still pending.
pub open spec fn count_unsolved(solved: Seq<bool>) -> nat
    decreases solved.len(),
{
    if solved.len() == 0 {
        0
    } else {
        (if solved.first() {
            0nat
        } else {
            1nat
        }) + count_unsolved(solved.drop_first())
    }
}

/// The first pending opcode at or after `i`, or the list's length if none.
pub open spec fn first_unsolved_from(solved: Seq<bool>, i: int) -> int
    decreases solved.len() - i,
{
    if i < 0 || i >= solved.len() {
        solved.len() as int
    } else if !solved[i] {
        i
    } else {
        first_unsolved_from(solved, i + 1)
    }
}

proof fn lemma_count_unsolved_update(solved: Seq<bool>, i: int)
    requires
        0 <= i < solved.len(),
        !solved[i],
    ensures
        count_unsolved(solved.update(i, true)) + 1 == count_unsolved(solved),
    decreases solved.len(),
{
    if i == 0 {
        assert(solved.update(0, true).drop_first() =~= solved.drop_first());
    } else {
        assert(solved.update(i, true).drop_first() =~= solved.drop_first().update(i - 1, true));
        lemma_count_unsolved_update(solved.drop_first(), i - 1);
    }
}

proof fn lemma_count_unsolved_all(solved: Seq<bool>)
    requires
        forall|j: int| 0 <= j < solved.len() ==> solved[j],
    ensures
        count_unsolved(solved) == 0,
    decreases solved.len(),
{
    if solved.len() > 0 {
        lemma_count_unsolved_all(solved.drop_first());
    }
}

/// A pass leaves the pending-flag list's length alone, and every opcode it
/// solves lowers the pending count by one.
proof fn lemma_pass_progress(
    ops: Seq<Opcode>,
    solved: Seq<bool>,
    m: Map<nat, nat>,
    pedantic_solving: bool,
    i: int,
)
    requires
        solved.len() == ops.len(),
    ensures
        spec_pass(ops, solved, m, pedantic_solving, i).solved.len() == solved.len(),
        spec_pass(ops, solved, m, pedantic_solving, i).progress + count_unsolved(
            spec_pass(ops, solved, m, pedantic_solving, i).solved,
        ) == count_unsolved(solved),
    decreases ops.len() - i,
{
    if i < 0 || i >= ops.len() {
    } else if solved[i] {
        lemma_pass_progress(ops, solved, m, pedantic_solving, i + 1);
    } else {
        let attempt = spec_solve_opcode(ops[i], m, pedantic_solving);
        match attempt.1 {
            Ok(()) => {
                if i < solved.len() {
                    lemma_count_unsolved_update(solved, i);
                }
                lemma_pass_progress(ops, solved.update(i, true), attempt.0, pedantic_solving, i + 1);
            },
            Err(e) => {
                if e.is_stall() {
                    lemma_pass_progress(ops, solved, attempt.0, pedantic_solving, i + 1);
                }
            },
        }
    }
}

/// Runs passes to a fixpoint: abort on a surfaced failure, succeed once all
/// opcodes are solved, report the first pending opcode when a full pass made
/// no progress, and otherwise pass again.
pub open spec fn spec_run(
    ops: Seq<Opcode>,
    solved: Seq<bool>,
    m: Map<nat, nat>,
    pedantic_solving: bool,
) -> Result<Map<nat, nat>, OpcodeResolutionError>
    decreases count_unsolved(solved),
{
    let p = spec_pass(ops, solved, m, pedantic_solving, 0);
    match p.error {
        Some(e) => Err(e),
        None => {
            if count_unsolved(p.solved) == 0 {
                Ok(p.map)
            } else if p.progress == 0 {
                Err(
                    OpcodeResolutionError::OpcodeNotSolvable {
                        opcode_location: ErrorLocation::Resolved(
                            first_unsolved_from(p.solved, 0) as usize,
                        ),
                    },
                )
            } else if count_unsolved(p.solved) < count_unsolved(solved) {
                spec_run(ops, p.solved, p.map, pedantic_solving)
            } else {
                // never reached: a productive pass lowers the pending count
                Err(
                    OpcodeResolutionError::OpcodeNotSolvable {
                        opcode_location: ErrorLocation::Unresolved,
                    },
                )
            }
        },
    }
}

/// What solving a whole circuit from a partial initial assignment yields:
/// the fixpoint run starting with every opcode pending.
pub open spec fn spec_solve(
    ops: Seq<Opcode>,
    m: Map<nat, nat>,
    pedantic_solving: bool,
) -> Result<Map<nat, nat>, OpcodeResolutionError> {
    spec_run(ops, Seq::new(ops.len(), |i: int| false), m, pedantic_solving)
}

/// One pass over the whole circuit; `Ok` carries the number of opcodes the
/// pass newly solved.
fn solve_pass(
    initial_witness: &mut WitnessStore,
    circuit: &Vec<Opcode>,
    solved: &mut Vec<bool>,
    pedantic_solving: bool,
) -> (r: Result<usize, OpcodeResolutionError>)
    requires
        old(initial_witness).wf(),
        circuit_wf(circuit@),
        old(solved)@.len() == circuit@.len(),
    ensures
        final(initial_witness).wf(),
        final(solved)@.len() == circuit@.len(),
        ({
            let p = spec_pass(circuit@, old(solved)@, old(initial_witness)@, pedantic_solving, 0);
            &&& final(initial_witness)@ == p.map
            &&& final(solved)@ == p.solved
            &&& match r {
                Ok(n) => p.error is None && n == p.progress,
                Err(e) => p.error == Some(e),
            }
        }),
{
    let ghost solved0 = solved@;
    let ghost m0 = initial_witness@;
    let n = circuit.len();
    let mut i: usize = 0;
    let mut progress: usize = 0;
    while i < n
        invariant
            n == circuit@.len(),
            circuit_wf(circuit@),
            solved@.len() == n,
            i <= n,
            progress <= i,
            initial_witness.wf(),
            solved0 == old(solved)@,
            m0 == old(initial_witness)@,
            spec_pass(circuit@, solved0, m0, pedantic_solving, 0) == ({
                let rest = spec_pass(
                    circuit@,
                    solved@,
                    initial_witness@,
                    pedantic_solving,
                    i as int,
                );
                PassResult {
                    solved: rest.solved,
                    map: rest.map,
                    progress: (rest.progress + progress) as nat,
                    error: rest.error,
                }
            }),
        decreases n - i,
    {
        let ghost solved_head = solved@;
        let ghost m_head = initial_witness@;
        if !solved[i] {
            match solve_opcode(initial_witness, &circuit[i], pedantic_solving) {
                Ok(()) => {
                    solved.set(i, true);
                    progress = progress + 1;
                    proof {
                        let rest = spec_pass(
                            circuit@,
                            solved@,
                            initial_witness@,
                            pedantic_solving,
                            i as int + 1,
                        );
                        assert(spec_pass(circuit@, solved_head, m_head, pedantic_solving, i as int)
                            == PassResult {
                            solved: rest.solved,
                            map: rest.map,
                            progress: (rest.progress + 1) as nat,
                            error: rest.error,
                        });
                    }
                },
                Err(e) => {
                    if !matches!(e, OpcodeResolutionError::OpcodeNotSolvable { .. }) {
                        let located = e.at_location(i);
                        proof {
                            assert(spec_pass(
                                circuit@,
                                solved_head,
                                m_head,
                                pedantic_solving,
                                i as int,
                            ) == PassResult {
                                solved: solved@,
                                map: initial_witness@,
                                progress: 0nat,
                                error: Some(e.spec_at_location(i)),
                            });
                        }
                        return Err(located);
                    }
                    proof {
                        assert(spec_pass(circuit@, solved_head, m_head, pedantic_solving, i as int)
                            == spec_pass(
                            circuit@,
                            solved@,
                            initial_witness@,
                            pedantic_solving,
                            i as int + 1,
                        ));
                    }
                },
            }
        } else {
            proof {
                assert(spec_pass(circuit@, solved_head, m_head, pedantic_solving, i as int)
                    == spec_pass(circuit@, solved@, initial_witness@, pedantic_solving, i as int
                    + 1));
            }
        }
        i = i + 1;
    }
    Ok(progress)
}

/// Solves a circuit: computes a full assignment extending the initial
/// witness such that every opcode holds, or reports precisely why none
/// exists.  The result is a function of the circuit, the initial witness and
/// the solving mode alone, so repeated solves reproduce it exactly.
pub fn solve(
    circuit: &Vec<Opcode>,
    initial_witness: WitnessStore,
    pedantic_solving: bool,
) -> (r: Result<WitnessStore, OpcodeResolutionError>)
    requires
        initial_witness.wf(),
        circuit_wf(circuit@),
    ensures
        match r {
            Ok(s) => s.wf() && spec_solve(circuit@, initial_witness@, pedantic_solving) == Ok::<
                Map<nat, nat>,
                OpcodeResolutionError,
            >(s@),
            Err(e) => spec_solve(circuit@, initial_witness@, pedantic_solving) == Err::<
                Map<nat, nat>,
                OpcodeResolutionError,
            >(e),
        },
        r matches Ok(s) ==> initial_witness@.submap_of(s@),
{
    let ghost m0 = initial_witness@;
    let n = circuit.len();
    let mut store = initial_witness;
    let mut solved: Vec<bool> = Vec::new();
    let mut k: usize = 0;
    while k < n
        invariant
            k <= n,
            solved@.len() == k,
            forall|j: int| 0 <= j < k ==> !solved@[j],
        decreases n - k,
    {
        solved.push(false);
        k = k + 1;
    }
    proof {
        assert(solved@ =~= Seq::new(circuit@.len(), |i: int| false));
    }
    let mut remaining = n;
    proof {
        lemma_count_unsolved_pending(solved@);
    }
    while remaining > 0
        invariant
            n == circuit@.len(),
            circuit_wf(circuit@),
            store.wf(),
            solved@.len() == n,
            remaining == count_unsolved(solved@),
            m0 == initial_witness@,
            spec_solve(circuit@, m0, pedantic_solving) == spec_run(
                circuit@,
                solved@,
                store@,
                pedantic_solving,
            ),
        decreases remaining,
    {
        proof {
            lemma_pass_progress(circuit@, solved@, store@, pedantic_solving, 0);
        }
        match solve_pass(&mut store, circuit, &mut solved, pedantic_solving) {
            Err(e) => {
                return Err(e);
            },
            Ok(progress) => {
                remaining = remaining - progress;
                if remaining == 0 {
                    proof {
                        lemma_solve_monotonic(circuit@, m0, pedantic_solving);
                    }
                    return Ok(store);
                }
                if progress == 0 {
                    let idx = first_pending(&solved);
                    return Err(
                        OpcodeResolutionError::OpcodeNotSolvable {
                            opcode_location: ErrorLocation::Resolved(idx),
                        },
                    );
                }
            },
        }
    }
    // an empty circuit, or one whose opcodes were all marked solved up front
    proof {
        assert(spec_pass(circuit@, solved@, store@, pedantic_solving, 0) == PassResult {
            solved: solved@,
            map: store@,
            progress: 0nat,
            error: None::<OpcodeResolutionError>,
        }) by {
            lemma_pass_all_solved(circuit@, solved@, store@, pedantic_solving, 0);
        }
        lemma_solve_monotonic(circuit@, m0, pedantic_solving);
    }
    Ok(store)
}

/// A list of pending flags starts with as many pending entries as it is long.
proof fn lemma_count_unsolved_pending(solved: Seq<bool>)
    requires
        forall|j: int| 0 <= j < solved.len() ==> !solved[j],
    ensures
        count_unsolved(solved) == solved.len(),
    decreases solved.len(),
{
    if solved.len() > 0 {
        lemma_count_unsolved_pending(solved.drop_first());
    }
}

/// A pass over a fully solved list does nothing.
proof fn lemma_pass_all_solved(
    ops: Seq<Opcode>,
    solved: Seq<bool>,
    m: Map<nat, nat>,
    pedantic_solving: bool,
    i: int,
)
    requires
        count_unsolved(solved) == 0,
        solved.len() == ops.len(),
    ensures
        spec_pass(ops, solved, m, pedantic_solving, i) == (PassResult {
            solved,
            map: m,
            progress: 0nat,
            error: None::<OpcodeResolutionError>,
        }),
    decreases ops.len() - i,
{
    lemma_count_unsolved_none(solved);
    if 0 <= i < ops.len() {
        lemma_pass_all_solved(ops, solved, m, pedantic_solving, i + 1);
    }
}

/// A pending count of zero means every flag is set.
proof fn lemma_count_unsolved_none(solved: Seq<bool>)
    requires
        count_unsolved(solved) == 0,
    ensures
        forall|j: int| 0 <= j < solved.len() ==> solved[j],
    decreases solved.len(),
{
    if solved.len() > 0 {
        lemma_count_unsolved_none(solved.drop_first());
        assert forall|j: int| 0 <= j < solved.len() implies solved[j] by {
            if j > 0 {
                assert(solved.drop_first()[j - 1] == solved[j]);
            }
        }
    }
}

/// An accepted arithmetic opcode is exactly satisfied: whenever one solving
/// attempt reports success and the store it leaves behind populates every
/// witness the expression references, the expression evaluates to zero in
/// the field under that store.
pub proof fn lemma_assert_zero_satisfied(e: Expression, m: Map<nat, nat>, pedantic_solving: bool)
    requires
        e.wf(),
        spec_solve_opcode(Opcode::AssertZero(e), m, pedantic_solving).1 is Ok,
        crate::expr::all_known(e, spec_solve_opcode(Opcode::AssertZero(e), m, pedantic_solving).0),
    ensures
        crate::expr::eval_expression(
            e,
            spec_solve_opcode(Opcode::AssertZero(e), m, pedantic_solving).0,
        ) == 0,
{
    match spec_solve_expression(e, m) {
        ExprOutcome::Solved => {
            crate::expr::lemma_expression_decided_by_value(e, m);
        },
        ExprOutcome::Assign(w, v) => {
            crate::expr::lemma_assignment_satisfies(e, m, w, v);
        },
        _ => {},
    }
}

/// An arithmetic opcode holds for good: under every extension of this store
/// that populates all its references, the expression evaluates to zero.
pub open spec fn assert_zero_holds(e: Expression, m: Map<nat, nat>) -> bool {
    forall|m2: Map<nat, nat>|
        (m.submap_of(m2) && #[trigger] crate::expr::all_known(e, m2))
            ==> crate::expr::eval_expression(e, m2) == 0
}

/// A solved opcode's constraint holds for good.  Blackbox outputs are pinned
/// by their catalog member's contract, so only arithmetic opcodes carry an
/// obligation here.
pub open spec fn opcode_holds(op: Opcode, m: Map<nat, nat>) -> bool {
    match op {
        Opcode::AssertZero(e) => assert_zero_holds(e, m),
        Opcode::BlackBoxFuncCall(_) => true,
    }
}

/// Every opcode marked solved holds for good under the current store.
pub open spec fn circuit_holds(ops: Seq<Opcode>, solved: Seq<bool>, m: Map<nat, nat>) -> bool {
    forall|i: int| 0 <= i < ops.len() && #[trigger] solved[i] ==> opcode_holds(ops[i], m)
}

/// What holds for good keeps holding as the store grows.
proof fn lemma_opcode_holds_mono(op: Opcode, m: Map<nat, nat>, m_next: Map<nat, nat>)
    requires
        opcode_holds(op, m),
        m.submap_of(m_next),
    ensures
        opcode_holds(op, m_next),
{
    match op {
        Opcode::AssertZero(e) => {
            assert forall|m2: Map<nat, nat>|
                (m_next.submap_of(m2) && #[trigger] crate::expr::all_known(e, m2)) implies
                crate::expr::eval_expression(e, m2) == 0 by {
                lemma_submap_trans(m, m_next, m2);
            }
        },
        Opcode::BlackBoxFuncCall(_) => {},
    }
}

/// A successful attempt at an opcode makes it hold for good under the store
/// it leaves behind.
proof fn lemma_opcode_establish(op: Opcode, m: Map<nat, nat>, pedantic_solving: bool)
    requires
        op.wf(),
        spec_solve_opcode(op, m, pedantic_solving).1 is Ok,
    ensures
        opcode_holds(op, spec_solve_opcode(op, m, pedantic_solving).0),
{
    match op {
        Opcode::AssertZero(e) => {
            match spec_solve_expression(e, m) {
                ExprOutcome::Solved => {
                    assert forall|m2: Map<nat, nat>|
                        (m.submap_of(m2) && #[trigger] crate::expr::all_known(e, m2)) implies
                        crate::expr::eval_expression(e, m2) == 0 by {
                        crate::expr::lemma_solved_stays_satisfied(e, m, m2);
                    }
                },
                ExprOutcome::Assign(w, v) => {
                    crate::expr::lemma_assignment_satisfies(e, m, w, v);
                    let m1 = m.insert(w, v);
                    assert forall|m2: Map<nat, nat>|
                        (m1.submap_of(m2) && #[trigger] crate::expr::all_known(e, m2)) implies
                        crate::expr::eval_expression(e, m2) == 0 by {
                        crate::expr::lemma_eval_stable(e, m1, m2);
                    }
                },
                _ => {},
            }
        },
        Opcode::BlackBoxFuncCall(_) => {},
    }
}

/// A pass only adds to the set of opcodes whose constraints hold for good.
proof fn lemma_pass_holds(
    ops: Seq<Opcode>,
    solved: Seq<bool>,
    m: Map<nat, nat>,
    pedantic_solving: bool,
    i: int,
)
    requires
        circuit_wf(ops),
        solved.len() == ops.len(),
        circuit_holds(ops, solved, m),
    ensures
        circuit_holds(
            ops,
            spec_pass(ops, solved, m, pedantic_solving, i).solved,
            spec_pass(ops, solved, m, pedantic_solving, i).map,
        ),
    decreases ops.len() - i,
{
    if i < 0 || i >= ops.len() {
    } else if solved[i] {
        lemma_pass_holds(ops, solved, m, pedantic_solving, i + 1);
    } else {
        let attempt = spec_solve_opcode(ops[i], m, pedantic_solving);
        lemma_opcode_monotonic(ops[i], m, pedantic_solving);
        match attempt.1 {
            Ok(()) => {
                let solved1 = solved.update(i, true);
                lemma_opcode_establish(ops[i], m, pedantic_solving);
                assert forall|j: int| 0 <= j < ops.len() && #[trigger] solved1[j] implies
                    opcode_holds(ops[j], attempt.0) by {
                    if j == i {
                    } else {
                        assert(solved[j]);
                        lemma_opcode_holds_mono(ops[j], m, attempt.0);
                    }
                }
                lemma_pass_holds(ops, solved1, attempt.0, pedantic_solving, i + 1);
            },
            Err(e) => {
                assert forall|j: int| 0 <= j < ops.len() && #[trigger] solved[j] implies
                    opcode_holds(ops[j], attempt.0) by {
                    lemma_opcode_holds_mono(ops[j], m, attempt.0);
                }
                if e.is_stall() {
                    lemma_pass_holds(ops, solved, attempt.0, pedantic_solving, i + 1);
                }
            },
        }
    }
}

/// Running to a fixpoint only adds to the set of opcodes whose constraints
/// hold for good; on success all of them do.
proof fn lemma_run_holds(
    ops: Seq<Opcode>,
    solved: Seq<bool>,
    m: Map<nat, nat>,
    pedantic_solving: bool,
)
    requires
        circuit_wf(ops),
        solved.len() == ops.len(),
        circuit_holds(ops, solved, m),
    ensures
        match spec_run(ops, solved, m, pedantic_solving) {
            Ok(s) => forall|i: int| 0 <= i < ops.len() ==> opcode_holds(#[trigger] ops[i], s),
            Err(_) => true,
        },
    decreases count_unsolved(solved),
{
    let p = spec_pass(ops, solved, m, pedantic_solving, 0);
    lemma_pass_holds(ops, solved, m, pedantic_solving, 0);
    lemma_pass_progress(ops, solved, m, pedantic_solving, 0);
    if p.error is None {
        if count_unsolved(p.solved) == 0 {
            lemma_count_unsolved_none(p.solved);
            assert forall|i: int| 0 <= i < ops.len() implies opcode_holds(#[trigger] ops[i], p.map)
                by {
                assert(p.solved[i]);
            }
        } else if p.progress != 0 && count_unsolved(p.solved) < count_unsolved(solved) {
            lemma_run_holds(ops, p.solved, p.map, pedantic_solving);
        }
    }
}

/// A successful solve exactly satisfies the circuit's arithmetic
/// constraints: every expression opcode whose referenced witnesses the
/// result populates evaluates to zero in the field under the result.
pub proof fn lemma_solution_satisfies_circuit(
    ops: Seq<Opcode>,
    m: Map<nat, nat>,
    pedantic_solving: bool,
    s: Map<nat, nat>,
)
    requires
        circuit_wf(ops),
        spec_solve(ops, m, pedantic_solving) == Ok::<Map<nat, nat>, OpcodeResolutionError>(s),
    ensures
        forall|i: int|
            0 <= i < ops.len() ==> match #[trigger] ops[i] {
                Opcode::AssertZero(e) => crate::expr::all_known(e, s)
                    ==> crate::expr::eval_expression(e, s) == 0,
                Opcode::BlackBoxFuncCall(_) => true,
            },
{
    lemma_run_holds(ops, Seq::new(ops.len(), |i: int| false), m, pedantic_solving);
    assert forall|i: int|
        0 <= i < ops.len() implies match #[trigger] ops[i] {
        Opcode::AssertZero(e) => crate::expr::all_known(e, s) ==> crate::expr::eval_expression(
            e,
            s,
        ) == 0,
        Opcode::BlackBoxFuncCall(_) => true,
    } by {
        match ops[i] {
            Opcode::AssertZero(e) => {
                if crate::expr::all_known(e, s) {
                    assert(s.submap_of(s));
                    assert(opcode_holds(ops[i], s));
                }
            },
            Opcode::BlackBoxFuncCall(_) => {},
        }
    }
}

/// Containment of assignments is transitive.
proof fn lemma_submap_trans(a: Map<nat, nat>, b: Map<nat, nat>, c: Map<nat, nat>)
    requires
        a.submap_of(b),
        b.submap_of(c),
    ensures
        a.submap_of(c),
{
    assert forall|k: nat| #[trigger] a.dom().contains(k) implies c.dom().contains(k) && a[k]
        == c[k] by {
        assert(b.dom().contains(k));
    }
}

/// Inserting a binding that does not disagree with an existing one keeps
/// every existing binding.
proof fn lemma_insert_submap(m: Map<nat, nat>, k: nat, v: nat)
    requires
        !m.contains_key(k) || m[k] == v,
    ensures
        m.submap_of(m.insert(k, v)),
{
}

/// Writing a catalog member's output keeps every existing binding.
proof fn lemma_write_output_monotonic(m: Map<nat, nat>, output: nat, value: nat)
    ensures
        m.submap_of(spec_write_output(m, output, value).0),
{
    if m.contains_key(output) && m[output] != value {
    } else {
        lemma_insert_submap(m, output, value);
    }
}

/// One solving attempt at one opcode never removes or changes an existing
/// binding.
proof fn lemma_opcode_monotonic(op: Opcode, m: Map<nat, nat>, pedantic_solving: bool)
    ensures
        m.submap_of(spec_solve_opcode(op, m, pedantic_solving).0),
{
    match op {
        Opcode::AssertZero(e) => {
            match spec_solve_expression(e, m) {
                ExprOutcome::Assign(w, v) => {
                    lemma_gather_mul_unknown_absent(e.mul_terms@, m, init_state(e.q_c@));
                    lemma_gather_linear_unknown_absent(
                        e.linear_combinations@,
                        m,
                        gather_mul(e.mul_terms@, m, init_state(e.q_c@)),
                    );
                    lemma_insert_submap(m, w, v);
                },
                _ => {},
            }
        },
        Opcode::BlackBoxFuncCall(bb) => {
            match bb {
                BlackBoxFuncCall::Range { input } => {},
                BlackBoxFuncCall::And { lhs, rhs, output } => {
                    lemma_bitwise_monotonic(m, false, lhs, rhs, output, pedantic_solving);
                },
                BlackBoxFuncCall::Xor { lhs, rhs, output } => {
                    lemma_bitwise_monotonic(m, true, lhs, rhs, output, pedantic_solving);
                },
            }
        },
    }
}

/// A bitwise catalog member never removes or changes an existing binding.
proof fn lemma_bitwise_monotonic(
    m: Map<nat, nat>,
    is_xor: bool,
    lhs: crate::input::FunctionInput,
    rhs: crate::input::FunctionInput,
    output: u32,
    pedantic_solving: bool,
)
    ensures
        m.submap_of(spec_solve_bitwise(m, is_xor, lhs, rhs, output, pedantic_solving).0),
{
    match spec_input_to_value(m, lhs, pedantic_solving) {
        InputResolutionSpec::Value(a) => {
            match spec_input_to_value(m, rhs, pedantic_solving) {
                InputResolutionSpec::Value(b) => {
                    if lhs.num_bits <= crate::blackbox::MAX_BITWISE_WIDTH && rhs.num_bits
                        <= crate::blackbox::MAX_BITWISE_WIDTH {
                        if is_xor {
                            lemma_write_output_monotonic(
                                m,
                                output as nat,
                                crate::blackbox::xor_output(a, b, lhs.num_bits, rhs.num_bits),
                            );
                        } else {
                            lemma_write_output_monotonic(
                                m,
                                output as nat,
                                crate::blackbox::and_output(a, b, lhs.num_bits, rhs.num_bits),
                            );
                        }
                    }
                },
                _ => {},
            }
        },
        _ => {},
    }
}

/// One pass never removes or changes an existing binding.
proof fn lemma_pass_monotonic(
    ops: Seq<Opcode>,
    solved: Seq<bool>,
    m: Map<nat, nat>,
    pedantic_solving: bool,
    i: int,
)
    ensures
        m.submap_of(spec_pass(ops, solved, m, pedantic_solving, i).map),
    decreases ops.len() - i,
{
    if i < 0 || i >= ops.len() {
    } else if solved[i] {
        lemma_pass_monotonic(ops, solved, m, pedantic_solving, i + 1);
    } else {
        let attempt = spec_solve_opcode(ops[i], m, pedantic_solving);
        lemma_opcode_monotonic(ops[i], m, pedantic_solving);
        match attempt.1 {
            Ok(()) => {
                lemma_pass_monotonic(ops, solved.update(i, true), attempt.0, pedantic_solving, i + 1);
                lemma_submap_trans(
                    m,
                    attempt.0,
                    spec_pass(ops, solved.update(i, true), attempt.0, pedantic_solving, i + 1).map,
                );
            },
            Err(e) => {
                if e.is_stall() {
                    lemma_pass_monotonic(ops, solved, attempt.0, pedantic_solving, i + 1);
                    lemma_submap_trans(
                        m,
                        attempt.0,
                        spec_pass(ops, solved, attempt.0, pedantic_solving, i + 1).map,
                    );
                }
            },
        }
    }
}

/// The store grows monotonically over a whole session: a successful run's
/// result extends the assignment it started from, so the populated key set
/// only grows and no key's value changes once set.
pub proof fn lemma_run_monotonic(
    ops: Seq<Opcode>,
    solved: Seq<bool>,
    m: Map<nat, nat>,
    pedantic_solving: bool,
)
    ensures
        match spec_run(ops, solved, m, pedantic_solving) {
            Ok(s) => m.submap_of(s),
            Err(_) => true,
        },
    decreases count_unsolved(solved),
{
    let p = spec_pass(ops, solved, m, pedantic_solving, 0);
    lemma_pass_monotonic(ops, solved, m, pedantic_solving, 0);
    if p.error is None && count_unsolved(p.solved) != 0 && p.progress != 0 && count_unsolved(
        p.solved,
    ) < count_unsolved(solved) {
        lemma_run_monotonic(ops, p.solved, p.map, pedantic_solving);
        match spec_run(ops, p.solved, p.map, pedantic_solving) {
            Ok(s) => {
                lemma_submap_trans(m, p.map, s);
            },
            Err(_) => {},
        }
    }
}

/// Solving a circuit only ever extends the initial assignment: every witness
/// the caller supplied keeps its value in the result.
pub proof fn lemma_solve_monotonic(ops: Seq<Opcode>, m: Map<nat, nat>, pedantic_solving: bool)
    ensures
        match spec_solve(ops, m, pedantic_solving) {
            Ok(s) => m.submap_of(s),
            Err(_) => true,
        },
{
    lemma_run_monotonic(ops, Seq::new(ops.len(), |i: int| false), m, pedantic_solving);
}

/// Solving is deterministic: the outcome is a function of the circuit, the
/// initial witness and the solving mode alone, so solving the same session
/// twice yields identical output stores.
pub proof fn lemma_solve_deterministic(
    ops: Seq<Opcode>,
    m: Map<nat, nat>,
    pedantic_solving: bool,
    r1: Result<Map<nat, nat>, OpcodeResolutionError>,
    r2: Result<Map<nat, nat>, OpcodeResolutionError>,
)
    requires
        r1 == spec_solve(ops, m, pedantic_solving),
        r2 == spec_solve(ops, m, pedantic_solving),
    ensures
        r1 == r2,
{
}

/// The first pending opcode's index, for the not-solvable report.
fn first_pending(solved: &Vec<bool>) -> (r: usize)
    requires
        count_unsolved(solved@) > 0,
    ensures
        r == first_unsolved_from(solved@, 0),
        r < solved@.len(),
{
    let n = solved.len();
    let mut k: usize = 0;
    while k < n
        invariant
            n == solved@.len(),
            k <= n,
            count_unsolved(solved@) > 0,
            first_unsolved_from(solved@, 0) == first_unsolved_from(solved@, k as int),
            forall|j: int| 0 <= j < k ==> solved@[j],
        decreases n - k,
    {
        if !solved[k] {
            return k;
        }
        k = k + 1;
    }
    proof {
        lemma_count_unsolved_all(solved@);
        assert(false);
    }
    0
}

} // verus!
