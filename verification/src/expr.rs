//! Arithmetic expression opcodes: a weighted sum of witness products and
//! witnesses plus a constant, constrained to equal zero.
//!
//! Solving gathers the known terms into an accumulator and at most one
//! unknown witness with its combined coefficient.  With no unknown left the
//! expression is checked against zero; with exactly one unknown under an
//! invertible coefficient the witness is solved for and written back; any
//! other shape stalls until a later pass supplies more values.

use vstd::prelude::*;
use crate::errors::{ErrorLocation, OpcodeResolutionError};
use crate::field::{FieldValue, FIELD_MODULUS, add_mod, inv_mod, mul_mod, neg_mod};
use crate::store::WitnessStore;

verus! {

/// A weighted sum constrained to zero: `sum of c * w_a * w_b  +  sum of
/// c * w  +  q_c == 0` in the field.
#[derive(Clone, Debug, PartialEq, Eq)]
pub struct Expression {
    /// Quadratic terms: coefficient times a product of two witnesses.
    pub mul_terms: Vec<(FieldValue, u32, u32)>,
    /// Linear terms: coefficient times a witness.
    pub linear_combinations: Vec<(FieldValue, u32)>,
    /// The constant term.
    pub q_c: FieldValue,
}

impl Expression {
    /// Every coefficient and the constant are reduced field elements.
    pub open spec fn wf(self) -> bool {
        &&& forall|i: int| 0 <= i < self.mul_terms@.len() ==> (#[trigger] self.mul_terms@[i]).0.wf()
        &&& forall|i: int|
            0 <= i < self.linear_combinations@.len() ==> (
            #[trigger] self.linear_combinations@[i]).0.wf()
        &&& self.q_c.wf()
    }
}

/// The running shape of a partially gathered expression: the reduced sum of
/// all fully known terms, the single unknown witness seen so far with its
/// combined coefficient, and whether gathering got stuck on a second unknown
/// witness or an unknown product.
pub struct GatherState {
    pub acc: nat,
    pub unknown: Option<(nat, nat)>,
    pub stuck: bool,
}

/// Gathering starts from the constant term alone.
pub open spec fn init_state(q: nat) -> GatherState {
    GatherState { acc: q, unknown: None, stuck: false }
}

/// Folds one unknown-witness contribution into the state: a first unknown is
/// recorded, a repeated one has its coefficient combined, a second distinct
/// one sticks the gather.
pub open spec fn add_unknown(st: GatherState, w: nat, c: nat) -> GatherState {
    match st.unknown {
        None => GatherState { acc: st.acc, unknown: Some((w, c)), stuck: st.stuck },
        Some((w0, c0)) => {
            if w0 == w {
                GatherState { acc: st.acc, unknown: Some((w0, add_mod(c0, c))), stuck: st.stuck }
            } else {
                GatherState { acc: st.acc, unknown: st.unknown, stuck: true }
            }
        },
    }
}

/// Gathers one quadratic term.
pub open spec fn step_mul(st: GatherState, term: (FieldValue, u32, u32), m: Map<nat, nat>)
    -> GatherState {
    if st.stuck {
        st
    } else {
        let c = term.0@;
        let wa = term.1 as nat;
        let wb = term.2 as nat;
        if m.contains_key(wa) && m.contains_key(wb) {
            GatherState {
                acc: add_mod(st.acc, mul_mod(c, mul_mod(m[wa], m[wb]))),
                unknown: st.unknown,
                stuck: st.stuck,
            }
        } else if m.contains_key(wa) {
            add_unknown(st, wb, mul_mod(c, m[wa]))
        } else if m.contains_key(wb) {
            add_unknown(st, wa, mul_mod(c, m[wb]))
        } else {
            GatherState { acc: st.acc, unknown: st.unknown, stuck: true }
        }
    }
}

/// Gathers one linear term.
pub open spec fn step_linear(st: GatherState, term: (FieldValue, u32), m: Map<nat, nat>)
    -> GatherState {
    if st.stuck {
        st
    } else {
        let c = term.0@;
        let w = term.1 as nat;
        if m.contains_key(w) {
            GatherState {
                acc: add_mod(st.acc, mul_mod(c, m[w])),
                unknown: st.unknown,
                stuck: st.stuck,
            }
        } else {
            add_unknown(st, w, c)
        }
    }
}

/// Gathers all quadratic terms in order.
pub open spec fn gather_mul(
    terms: Seq<(FieldValue, u32, u32)>,
    m: Map<nat, nat>,
    st: GatherState,
) -> GatherState
    decreases terms.len(),
{
    if terms.len() == 0 {
        st
    } else {
        gather_mul(terms.drop_first(), m, step_mul(st, terms.first(), m))
    }
}

/// Gathers all linear terms in order.
pub open spec fn gather_linear(
    terms: Seq<(FieldValue, u32)>,
    m: Map<nat, nat>,
    st: GatherState,
) -> GatherState
    decreases terms.len(),
{
    if terms.len() == 0 {
        st
    } else {
        gather_linear(terms.drop_first(), m, step_linear(st, terms.first(), m))
    }
}

/// The fully gathered shape of an expression against a store.
pub open spec fn expr_state(e: Expression, m: Map<nat, nat>) -> GatherState {
    gather_linear(e.linear_combinations@, m, gather_mul(e.mul_terms@, m, init_state(e.q_c@)))
}

/// What one solving attempt at an expression decides.
pub enum ExprOutcome {
    /// All terms known and the sum is zero; nothing to write.
    Solved,
    /// Exactly one unknown witness with an invertible coefficient: it must
    /// hold this value.
    Assign(nat, nat),
    /// Missing operands, an unknown product, or a non-invertible
    /// coefficient: retry in a later pass.
    Stall,
    /// All terms determined and the sum is not zero.
    Unsatisfied,
}

/// What solving an expression against a store decides, per the gathered
/// shape: check a fully known sum against zero; solve a single unknown with
/// an invertible coefficient via `w = -acc / c`; stall otherwise.
pub open spec fn spec_solve_expression(e: Expression, m: Map<nat, nat>) -> ExprOutcome {
    let st = expr_state(e, m);
    if st.stuck {
        ExprOutcome::Stall
    } else {
        match st.unknown {
            None => if st.acc == 0 {
                ExprOutcome::Solved
            } else {
                ExprOutcome::Unsatisfied
            },
            Some((w, c)) => {
                if c == 0 {
                    if st.acc == 0 {
                        ExprOutcome::Solved
                    } else {
                        ExprOutcome::Unsatisfied
                    }
                } else {
                    match inv_mod(c) {
                        None => ExprOutcome::Stall,
                        Some(i) => ExprOutcome::Assign(w, mul_mod(neg_mod(st.acc), i)),
                    }
                }
            },
        }
    }
}

/// The executable gathering variables, abstracted to a `GatherState`.
pub open spec fn abs_state(
    acc: FieldValue,
    unknown: Option<(u32, FieldValue)>,
    stuck: bool,
) -> GatherState {
    GatherState {
        acc: acc@,
        unknown: match unknown {
            None => None,
            Some((w, c)) => Some((w as nat, c@)),
        },
        stuck,
    }
}

/// The gathered unknown, if any, is a witness the store does not hold.
pub open spec fn unknown_absent(st: GatherState, m: Map<nat, nat>) -> bool {
    match st.unknown {
        None => true,
        Some((w, c)) => !m.contains_key(w),
    }
}

pub proof fn lemma_gather_mul_unknown_absent(
    terms: Seq<(FieldValue, u32, u32)>,
    m: Map<nat, nat>,
    st: GatherState,
)
    requires
        unknown_absent(st, m),
    ensures
        unknown_absent(gather_mul(terms, m, st), m),
    decreases terms.len(),
{
    if terms.len() > 0 {
        lemma_gather_mul_unknown_absent(terms.drop_first(), m, step_mul(st, terms.first(), m));
    }
}

pub proof fn lemma_gather_linear_unknown_absent(
    terms: Seq<(FieldValue, u32)>,
    m: Map<nat, nat>,
    st: GatherState,
)
    requires
        unknown_absent(st, m),
    ensures
        unknown_absent(gather_linear(terms, m, st), m),
    decreases terms.len(),
{
    if terms.len() > 0 {
        lemma_gather_linear_unknown_absent(terms.drop_first(), m, step_linear(st, terms.first(), m));
    }
}

/// Every witness the expression references is populated.
pub open spec fn all_known(e: Expression, m: Map<nat, nat>) -> bool {
    &&& forall|i: int|
        0 <= i < e.mul_terms@.len() ==> m.contains_key(
            (#[trigger] e.mul_terms@[i]).1 as nat,
        ) && m.contains_key(e.mul_terms@[i].2 as nat)
    &&& forall|i: int|
        0 <= i < e.linear_combinations@.len() ==> m.contains_key(
            (#[trigger] e.linear_combinations@[i]).1 as nat,
        )
}

/// The reduced sum of the quadratic terms under a full assignment.
pub open spec fn eval_mul_terms(terms: Seq<(FieldValue, u32, u32)>, m: Map<nat, nat>) -> nat
    decreases terms.len(),
{
    if terms.len() == 0 {
        0
    } else {
        add_mod(
            mul_mod(terms.first().0@, mul_mod(m[terms.first().1 as nat], m[terms.first().2 as nat])),
            eval_mul_terms(terms.drop_first(), m),
        )
    }
}

/// The reduced sum of the linear terms under a full assignment.
pub open spec fn eval_linear_terms(terms: Seq<(FieldValue, u32)>, m: Map<nat, nat>) -> nat
    decreases terms.len(),
{
    if terms.len() == 0 {
        0
    } else {
        add_mod(
            mul_mod(terms.first().0@, m[terms.first().1 as nat]),
            eval_linear_terms(terms.drop_first(), m),
        )
    }
}

/// The expression's reduced value under a full assignment: the constant plus
/// all quadratic and linear terms.
pub open spec fn eval_expression(e: Expression, m: Map<nat, nat>) -> nat {
    add_mod(
        e.q_c@,
        add_mod(eval_mul_terms(e.mul_terms@, m), eval_linear_terms(e.linear_combinations@, m)),
    )
}

/// Rearranging a reduced modular sum: adding in left-fold order equals
/// adding in right-fold order.
proof fn lemma_add_mod_shift(a: nat, b: nat, c: nat)
    requires
        a < FIELD_MODULUS,
    ensures
        add_mod(a, add_mod(b, c)) == add_mod(add_mod(a, b), c),
{
    let p = FIELD_MODULUS as int;
    vstd::arithmetic::div_mod::lemma_small_mod(a, FIELD_MODULUS as nat);
    vstd::arithmetic::div_mod::lemma_add_mod_noop(a as int, (b + c) as int % p, p);
    vstd::arithmetic::div_mod::lemma_mod_twice((b + c) as int, p);
    vstd::arithmetic::div_mod::lemma_add_mod_noop(a as int, (b + c) as int, p);
    vstd::arithmetic::div_mod::lemma_add_mod_noop((a + b) as int % p, c as int, p);
    vstd::arithmetic::div_mod::lemma_mod_twice((a + b) as int, p);
    vstd::arithmetic::div_mod::lemma_add_mod_noop((a + b) as int, c as int, p);
    vstd::arithmetic::div_mod::lemma_mod_twice(c as int, p);
}

/// A reduced sum is reduced.
proof fn lemma_add_mod_bound(a: nat, b: nat)
    ensures
        add_mod(a, b) < FIELD_MODULUS,
{
    vstd::arithmetic::div_mod::lemma_mod_bound((a + b) as int, FIELD_MODULUS as int);
}

/// Gathering fully known quadratic terms only accumulates their sum.
proof fn lemma_gather_mul_known(terms: Seq<(FieldValue, u32, u32)>, m: Map<nat, nat>, st: GatherState)
    requires
        !st.stuck,
        st.acc < FIELD_MODULUS,
        forall|i: int|
            0 <= i < terms.len() ==> m.contains_key((#[trigger] terms[i]).1 as nat)
                && m.contains_key(terms[i].2 as nat),
    ensures
        gather_mul(terms, m, st) == (GatherState {
            acc: add_mod(st.acc, eval_mul_terms(terms, m)),
            unknown: st.unknown,
            stuck: st.stuck,
        }),
    decreases terms.len(),
{
    vstd::arithmetic::div_mod::lemma_small_mod(st.acc, FIELD_MODULUS as nat);
    if terms.len() > 0 {
        let v0 = mul_mod(terms.first().0@, mul_mod(m[terms.first().1 as nat], m[terms.first().2 as nat]));
        let st1 = step_mul(st, terms.first(), m);
        assert(st1 == (GatherState { acc: add_mod(st.acc, v0), unknown: st.unknown, stuck: st.stuck }));
        lemma_add_mod_bound(st.acc, v0);
        assert(forall|i: int|
            0 <= i < terms.drop_first().len() ==> m.contains_key(
                (#[trigger] terms.drop_first()[i]).1 as nat,
            ) && m.contains_key(terms.drop_first()[i].2 as nat));
        lemma_gather_mul_known(terms.drop_first(), m, st1);
        lemma_add_mod_shift(st.acc, v0, eval_mul_terms(terms.drop_first(), m));
    }
}

/// Gathering fully known linear terms only accumulates their sum.
proof fn lemma_gather_linear_known(terms: Seq<(FieldValue, u32)>, m: Map<nat, nat>, st: GatherState)
    requires
        !st.stuck,
        st.acc < FIELD_MODULUS,
        forall|i: int| 0 <= i < terms.len() ==> m.contains_key((#[trigger] terms[i]).1 as nat),
    ensures
        gather_linear(terms, m, st) == (GatherState {
            acc: add_mod(st.acc, eval_linear_terms(terms, m)),
            unknown: st.unknown,
            stuck: st.stuck,
        }),
    decreases terms.len(),
{
    vstd::arithmetic::div_mod::lemma_small_mod(st.acc, FIELD_MODULUS as nat);
    if terms.len() > 0 {
        let v0 = mul_mod(terms.first().0@, m[terms.first().1 as nat]);
        let st1 = step_linear(st, terms.first(), m);
        assert(st1 == (GatherState { acc: add_mod(st.acc, v0), unknown: st.unknown, stuck: st.stuck }));
        lemma_add_mod_bound(st.acc, v0);
        assert(forall|i: int|
            0 <= i < terms.drop_first().len() ==> m.contains_key(
                (#[trigger] terms.drop_first()[i]).1 as nat,
            ));
        lemma_gather_linear_known(terms.drop_first(), m, st1);
        lemma_add_mod_shift(st.acc, v0, eval_linear_terms(terms.drop_first(), m));
    }
}

/// With every referenced witness populated, gathering reproduces the
/// expression's value: no unknown, no stall, and the accumulator holds
/// exactly `eval_expression`.
pub proof fn lemma_known_expression_evaluates(e: Expression, m: Map<nat, nat>)
    requires
        e.wf(),
        all_known(e, m),
    ensures
        !expr_state(e, m).stuck,
        expr_state(e, m).unknown is None,
        expr_state(e, m).acc == eval_expression(e, m),
{
    let st0 = init_state(e.q_c@);
    lemma_gather_mul_known(e.mul_terms@, m, st0);
    let st1 = gather_mul(e.mul_terms@, m, st0);
    lemma_add_mod_bound(e.q_c@, eval_mul_terms(e.mul_terms@, m));
    lemma_gather_linear_known(e.linear_combinations@, m, st1);
    lemma_add_mod_shift(
        e.q_c@,
        eval_mul_terms(e.mul_terms@, m),
        eval_linear_terms(e.linear_combinations@, m),
    );
}

/// With every referenced witness populated, an expression opcode is decided
/// by its value alone: solved exactly when it evaluates to zero in the
/// field, unsatisfiable otherwise.
pub proof fn lemma_expression_decided_by_value(e: Expression, m: Map<nat, nat>)
    requires
        e.wf(),
        all_known(e, m),
    ensures
        spec_solve_expression(e, m) == (if eval_expression(e, m) == 0 {
            ExprOutcome::Solved
        } else {
            ExprOutcome::Unsatisfied
        }),
{
    lemma_known_expression_evaluates(e, m);
}

/// Rearranging a reduced modular sum: the last two addends commute.
proof fn lemma_add_mod_swap(a: nat, b: nat, c: nat)
    requires
        a < FIELD_MODULUS,
    ensures
        add_mod(add_mod(a, b), c) == add_mod(add_mod(a, c), b),
{
    lemma_add_mod_shift(a, b, c);
    lemma_add_mod_shift(a, c, b);
}

/// A stuck gather stays stuck.
proof fn lemma_gather_mul_stuck_sticky(
    terms: Seq<(FieldValue, u32, u32)>,
    m: Map<nat, nat>,
    st: GatherState,
)
    requires
        st.stuck,
    ensures
        gather_mul(terms, m, st).stuck,
    decreases terms.len(),
{
    if terms.len() > 0 {
        lemma_gather_mul_stuck_sticky(terms.drop_first(), m, step_mul(st, terms.first(), m));
    }
}

/// A stuck gather stays stuck.
proof fn lemma_gather_linear_stuck_sticky(
    terms: Seq<(FieldValue, u32)>,
    m: Map<nat, nat>,
    st: GatherState,
)
    requires
        st.stuck,
    ensures
        gather_linear(terms, m, st).stuck,
    decreases terms.len(),
{
    if terms.len() > 0 {
        lemma_gather_linear_stuck_sticky(terms.drop_first(), m, step_linear(st, terms.first(), m));
    }
}

/// The state's single unknown witness is this one.
pub open spec fn slot_is(unknown: Option<(nat, nat)>, w: nat) -> bool {
    match unknown {
        Some((w0, c)) => w0 == w,
        None => false,
    }
}

/// An unstuck gather never changes which witness the slot names.
proof fn lemma_gather_mul_slot_stable(
    terms: Seq<(FieldValue, u32, u32)>,
    m: Map<nat, nat>,
    st: GatherState,
    w0: nat,
)
    requires
        !gather_mul(terms, m, st).stuck,
        slot_is(st.unknown, w0),
    ensures
        slot_is(gather_mul(terms, m, st).unknown, w0),
    decreases terms.len(),
{
    if terms.len() > 0 {
        let st1 = step_mul(st, terms.first(), m);
        if st1.stuck {
            lemma_gather_mul_stuck_sticky(terms.drop_first(), m, st1);
        }
        lemma_gather_mul_slot_stable(terms.drop_first(), m, st1, w0);
    }
}

/// An unstuck gather never changes which witness the slot names.
proof fn lemma_gather_linear_slot_stable(
    terms: Seq<(FieldValue, u32)>,
    m: Map<nat, nat>,
    st: GatherState,
    w0: nat,
)
    requires
        !gather_linear(terms, m, st).stuck,
        slot_is(st.unknown, w0),
    ensures
        slot_is(gather_linear(terms, m, st).unknown, w0),
    decreases terms.len(),
{
    if terms.len() > 0 {
        let st1 = step_linear(st, terms.first(), m);
        if st1.stuck {
            lemma_gather_linear_stuck_sticky(terms.drop_first(), m, st1);
        }
        lemma_gather_linear_slot_stable(terms.drop_first(), m, st1, w0);
    }
}

/// In an unstuck gather every referenced witness is populated, except the
/// one the final slot names.
proof fn lemma_gather_mul_coverage(
    terms: Seq<(FieldValue, u32, u32)>,
    m: Map<nat, nat>,
    st: GatherState,
)
    requires
        !gather_mul(terms, m, st).stuck,
    ensures
        forall|i: int|
            0 <= i < terms.len() ==> (m.contains_key((#[trigger] terms[i]).1 as nat) || slot_is(
                gather_mul(terms, m, st).unknown,
                terms[i].1 as nat,
            )) && (m.contains_key(terms[i].2 as nat) || slot_is(
                gather_mul(terms, m, st).unknown,
                terms[i].2 as nat,
            )),
    decreases terms.len(),
{
    if terms.len() > 0 {
        let t = terms.first();
        let st1 = step_mul(st, t, m);
        if st1.stuck {
            lemma_gather_mul_stuck_sticky(terms.drop_first(), m, st1);
        }
        lemma_gather_mul_coverage(terms.drop_first(), m, st1);
        let wa = t.1 as nat;
        let wb = t.2 as nat;
        if !(m.contains_key(wa) && m.contains_key(wb)) {
            if m.contains_key(wa) {
                lemma_gather_mul_slot_stable(terms.drop_first(), m, st1, wb);
            } else if m.contains_key(wb) {
                lemma_gather_mul_slot_stable(terms.drop_first(), m, st1, wa);
            }
        }
        assert(forall|i: int|
            1 <= i < terms.len() ==> (#[trigger] terms[i]) == terms.drop_first()[i - 1]);
    }
}

/// In an unstuck gather every referenced witness is populated, except the
/// one the final slot names.
proof fn lemma_gather_linear_coverage(
    terms: Seq<(FieldValue, u32)>,
    m: Map<nat, nat>,
    st: GatherState,
)
    requires
        !gather_linear(terms, m, st).stuck,
    ensures
        forall|i: int|
            0 <= i < terms.len() ==> m.contains_key((#[trigger] terms[i]).1 as nat) || slot_is(
                gather_linear(terms, m, st).unknown,
                terms[i].1 as nat,
            ),
    decreases terms.len(),
{
    if terms.len() > 0 {
        let t = terms.first();
        let st1 = step_linear(st, t, m);
        if st1.stuck {
            lemma_gather_linear_stuck_sticky(terms.drop_first(), m, st1);
        }
        lemma_gather_linear_coverage(terms.drop_first(), m, st1);
        let w = t.1 as nat;
        if !m.contains_key(w) {
            lemma_gather_linear_slot_stable(terms.drop_first(), m, st1, w);
        }
        assert(forall|i: int|
            1 <= i < terms.len() ==> (#[trigger] terms[i]) == terms.drop_first()[i - 1]);
    }
}

/// Relates gathering against a store to gathering against that store
/// extended with a value for the one unknown witness: the extended gather
/// has no unknown left, and its accumulator has absorbed the unknown's
/// combined coefficient times the new value.
pub open spec fn extends_state(st: GatherState, stx: GatherState, w: nat, v: nat) -> bool {
    &&& !st.stuck
    &&& !stx.stuck
    &&& stx.unknown is None
    &&& st.acc < FIELD_MODULUS
    &&& stx.acc < FIELD_MODULUS
    &&& match st.unknown {
        None => stx.acc == st.acc,
        Some((w0, c)) => w0 == w && stx.acc == add_mod(st.acc, mul_mod(c, v)),
    }
}

proof fn lemma_gather_mul_extend(
    terms: Seq<(FieldValue, u32, u32)>,
    m: Map<nat, nat>,
    w: nat,
    v: nat,
    st: GatherState,
    stx: GatherState,
)
    requires
        !m.contains_key(w),
        extends_state(st, stx, w, v),
        !gather_mul(terms, m, st).stuck,
        forall|i: int|
            0 <= i < terms.len() ==> (m.contains_key((#[trigger] terms[i]).1 as nat) || terms[i].1
                as nat == w) && (m.contains_key(terms[i].2 as nat) || terms[i].2 as nat == w),
    ensures
        extends_state(gather_mul(terms, m, st), gather_mul(terms, m.insert(w, v), stx), w, v),
    decreases terms.len(),
{
    if terms.len() > 0 {
        let t = terms.first();
        let c = t.0@;
        let wa = t.1 as nat;
        let wb = t.2 as nat;
        let m2 = m.insert(w, v);
        let st1 = step_mul(st, t, m);
        let st1x = step_mul(stx, t, m2);
        if st1.stuck {
            lemma_gather_mul_stuck_sticky(terms.drop_first(), m, st1);
        }
        if m.contains_key(wa) && m.contains_key(wb) {
            let t_val = mul_mod(c, mul_mod(m[wa], m[wb]));
            lemma_add_mod_bound(st.acc, t_val);
            lemma_add_mod_bound(stx.acc, t_val);
            match st.unknown {
                None => {},
                Some((w0, c0)) => {
                    lemma_add_mod_swap(st.acc, mul_mod(c0, v), t_val);
                    lemma_add_mod_shift(st.acc, t_val, mul_mod(c0, v));
                },
            }
        } else if m.contains_key(wa) {
            let q = mul_mod(c, m[wa]);
            let tx = mul_mod(c, mul_mod(m[wa], v));
            crate::field::lemma_mul_mod_assoc(c, m[wa], v);
            lemma_add_mod_bound(stx.acc, tx);
            match st.unknown {
                None => {},
                Some((w0, c0)) => {
                    crate::field::lemma_mul_mod_distrib(c0, q, v);
                    lemma_add_mod_shift(st.acc, mul_mod(c0, v), mul_mod(q, v));
                },
            }
        } else if m.contains_key(wb) {
            let q = mul_mod(c, m[wb]);
            let tx = mul_mod(c, mul_mod(v, m[wb]));
            crate::field::lemma_mul_mod_assoc(c, m[wb], v);
            lemma_add_mod_bound(stx.acc, tx);
            match st.unknown {
                None => {},
                Some((w0, c0)) => {
                    crate::field::lemma_mul_mod_distrib(c0, q, v);
                    lemma_add_mod_shift(st.acc, mul_mod(c0, v), mul_mod(q, v));
                },
            }
        }
        assert(forall|i: int|
            1 <= i < terms.len() ==> terms[i] == #[trigger] terms.drop_first()[i - 1]);
        lemma_gather_mul_extend(terms.drop_first(), m, w, v, st1, st1x);
    }
}

proof fn lemma_gather_linear_extend(
    terms: Seq<(FieldValue, u32)>,
    m: Map<nat, nat>,
    w: nat,
    v: nat,
    st: GatherState,
    stx: GatherState,
)
    requires
        !m.contains_key(w),
        extends_state(st, stx, w, v),
        !gather_linear(terms, m, st).stuck,
        forall|i: int|
            0 <= i < terms.len() ==> m.contains_key((#[trigger] terms[i]).1 as nat) || terms[i].1
                as nat == w,
    ensures
        extends_state(gather_linear(terms, m, st), gather_linear(terms, m.insert(w, v), stx), w, v),
    decreases terms.len(),
{
    if terms.len() > 0 {
        let t = terms.first();
        let c = t.0@;
        let wt = t.1 as nat;
        let m2 = m.insert(w, v);
        let st1 = step_linear(st, t, m);
        let st1x = step_linear(stx, t, m2);
        if st1.stuck {
            lemma_gather_linear_stuck_sticky(terms.drop_first(), m, st1);
        }
        if m.contains_key(wt) {
            let t_val = mul_mod(c, m[wt]);
            lemma_add_mod_bound(st.acc, t_val);
            lemma_add_mod_bound(stx.acc, t_val);
            match st.unknown {
                None => {},
                Some((w0, c0)) => {
                    lemma_add_mod_swap(st.acc, mul_mod(c0, v), t_val);
                    lemma_add_mod_shift(st.acc, t_val, mul_mod(c0, v));
                },
            }
        } else {
            let tx = mul_mod(c, v);
            lemma_add_mod_bound(stx.acc, tx);
            match st.unknown {
                None => {},
                Some((w0, c0)) => {
                    crate::field::lemma_mul_mod_distrib(c0, c, v);
                    lemma_add_mod_shift(st.acc, mul_mod(c0, v), mul_mod(c, v));
                },
            }
        }
        assert(forall|i: int|
            1 <= i < terms.len() ==> terms[i] == #[trigger] terms.drop_first()[i - 1]);
        lemma_gather_linear_extend(terms.drop_first(), m, w, v, st1, st1x);
    }
}

/// The value solved for an expression's single unknown witness satisfies the
/// expression: under the extended assignment every witness is populated and
/// the expression evaluates to zero in the field.
pub proof fn lemma_assignment_satisfies(e: Expression, m: Map<nat, nat>, w: nat, v: nat)
    requires
        e.wf(),
        spec_solve_expression(e, m) == ExprOutcome::Assign(w, v),
    ensures
        all_known(e, m.insert(w, v)),
        eval_expression(e, m.insert(w, v)) == 0,
{
    let st0 = init_state(e.q_c@);
    let st_m = gather_mul(e.mul_terms@, m, st0);
    let st_f = expr_state(e, m);
    if st_m.stuck {
        lemma_gather_linear_stuck_sticky(e.linear_combinations@, m, st_m);
    }
    lemma_gather_mul_unknown_absent(e.mul_terms@, m, st0);
    lemma_gather_linear_unknown_absent(e.linear_combinations@, m, st_m);
    let c = st_f.unknown.unwrap().1;
    assert(slot_is(st_f.unknown, w));
    assert(!m.contains_key(w));

    // every referenced witness is populated or is the final slot witness
    lemma_gather_mul_coverage(e.mul_terms@, m, st0);
    lemma_gather_linear_coverage(e.linear_combinations@, m, st_m);
    if st_m.unknown is Some {
        lemma_gather_linear_slot_stable(
            e.linear_combinations@,
            m,
            st_m,
            st_m.unknown.unwrap().0,
        );
    }
    assert(forall|i: int|
        0 <= i < e.mul_terms@.len() ==> (m.contains_key((#[trigger] e.mul_terms@[i]).1 as nat)
            || e.mul_terms@[i].1 as nat == w) && (m.contains_key(e.mul_terms@[i].2 as nat)
            || e.mul_terms@[i].2 as nat == w));

    // run both gathers side by side against the extended store
    lemma_gather_mul_extend(e.mul_terms@, m, w, v, st0, st0);
    let st_mx = gather_mul(e.mul_terms@, m.insert(w, v), st0);
    lemma_gather_linear_extend(e.linear_combinations@, m, w, v, st_m, st_mx);
    let st_fx = expr_state(e, m.insert(w, v));
    assert(extends_state(st_f, st_fx, w, v));

    // the extended store populates every referenced witness
    assert(all_known(e, m.insert(w, v)));

    // the accumulator absorbed c * v == c * (-acc / c) == -acc
    let a = st_f.acc;
    let i = inv_mod(c).unwrap();
    crate::field::lemma_inv_search_correct(c, 0);
    assert(mul_mod(c, i) == 1);
    assert(v == mul_mod(neg_mod(a), i));
    let n = neg_mod(a);
    assert(n < FIELD_MODULUS) by {
        vstd::arithmetic::div_mod::lemma_small_mod(a, FIELD_MODULUS as nat);
    }
    crate::field::lemma_mul_mod_assoc(c, n, i);
    assert(mul_mod(c, n) == mul_mod(n, c));
    crate::field::lemma_mul_mod_assoc(n, c, i);
    crate::field::lemma_mul_mod_one(n);
    assert(mul_mod(c, v) == n);
    crate::field::lemma_add_mod_cancel(a);
    assert(st_fx.acc == 0);

    lemma_known_expression_evaluates(e, m.insert(w, v));
}

proof fn lemma_eval_mul_terms_stable(
    terms: Seq<(FieldValue, u32, u32)>,
    m: Map<nat, nat>,
    m2: Map<nat, nat>,
)
    requires
        m.submap_of(m2),
        forall|i: int|
            0 <= i < terms.len() ==> m.contains_key((#[trigger] terms[i]).1 as nat)
                && m.contains_key(terms[i].2 as nat),
    ensures
        eval_mul_terms(terms, m2) == eval_mul_terms(terms, m),
    decreases terms.len(),
{
    if terms.len() > 0 {
        assert(terms.first() == terms[0]);
        assert(m2[terms[0].1 as nat] == m[terms[0].1 as nat]) by {
            assert(m.dom().contains(terms[0].1 as nat));
            let extended_has_key = m2.dom().contains(terms[0].1 as nat);
        }
        assert(m2[terms[0].2 as nat] == m[terms[0].2 as nat]) by {
            assert(m.dom().contains(terms[0].2 as nat));
            let extended_has_key = m2.dom().contains(terms[0].2 as nat);
        }
        assert(forall|i: int|
            1 <= i < terms.len() ==> (#[trigger] terms[i]) == terms.drop_first()[i - 1]);
        lemma_eval_mul_terms_stable(terms.drop_first(), m, m2);
    }
}

proof fn lemma_eval_linear_terms_stable(
    terms: Seq<(FieldValue, u32)>,
    m: Map<nat, nat>,
    m2: Map<nat, nat>,
)
    requires
        m.submap_of(m2),
        forall|i: int| 0 <= i < terms.len() ==> m.contains_key((#[trigger] terms[i]).1 as nat),
    ensures
        eval_linear_terms(terms, m2) == eval_linear_terms(terms, m),
    decreases terms.len(),
{
    if terms.len() > 0 {
        assert(terms.first() == terms[0]);
        assert(m2[terms[0].1 as nat] == m[terms[0].1 as nat]) by {
            assert(m.dom().contains(terms[0].1 as nat));
            let extended_has_key = m2.dom().contains(terms[0].1 as nat);
        }
        assert(forall|i: int|
            1 <= i < terms.len() ==> (#[trigger] terms[i]) == terms.drop_first()[i - 1]);
        lemma_eval_linear_terms_stable(terms.drop_first(), m, m2);
    }
}

/// Growing the store never changes a fully resolved expression's value: its
/// referenced witnesses keep their bindings.
pub proof fn lemma_eval_stable(e: Expression, m: Map<nat, nat>, m2: Map<nat, nat>)
    requires
        m.submap_of(m2),
        all_known(e, m),
    ensures
        all_known(e, m2),
        eval_expression(e, m2) == eval_expression(e, m),
{
    lemma_eval_mul_terms_stable(e.mul_terms@, m, m2);
    lemma_eval_linear_terms_stable(e.linear_combinations@, m, m2);
}

/// An expression this store decides keeps its verdict under every extension
/// of the store: a solved expression evaluates to zero under any larger
/// assignment that populates all its references.
pub proof fn lemma_solved_stays_satisfied(e: Expression, m: Map<nat, nat>, m2: Map<nat, nat>)
    requires
        e.wf(),
        m.submap_of(m2),
        spec_solve_expression(e, m) == ExprOutcome::Solved,
        all_known(e, m2),
    ensures
        eval_expression(e, m2) == 0,
{
    let st0 = init_state(e.q_c@);
    let st_m = gather_mul(e.mul_terms@, m, st0);
    let st_f = expr_state(e, m);
    if st_m.stuck {
        lemma_gather_linear_stuck_sticky(e.linear_combinations@, m, st_m);
    }
    match st_f.unknown {
        None => {
            // every reference is populated already and the sum is zero
            lemma_gather_mul_coverage(e.mul_terms@, m, st0);
            lemma_gather_linear_coverage(e.linear_combinations@, m, st_m);
            if st_m.unknown is Some {
                lemma_gather_linear_slot_stable(
                    e.linear_combinations@,
                    m,
                    st_m,
                    st_m.unknown.unwrap().0,
                );
            }
            assert(all_known(e, m));
            lemma_known_expression_evaluates(e, m);
            lemma_eval_stable(e, m, m2);
        },
        Some((w, c)) => {
            // the one unreferenced-in-store witness carries a combined
            // coefficient of zero, so any value the larger store gives it
            // contributes nothing
            lemma_gather_mul_unknown_absent(e.mul_terms@, m, st0);
            lemma_gather_linear_unknown_absent(e.linear_combinations@, m, st_m);
            lemma_gather_mul_coverage(e.mul_terms@, m, st0);
            lemma_gather_linear_coverage(e.linear_combinations@, m, st_m);
            if st_m.unknown is Some {
                lemma_gather_linear_slot_stable(
                    e.linear_combinations@,
                    m,
                    st_m,
                    st_m.unknown.unwrap().0,
                );
            }
            // the larger store must populate w, since the expression
            // references it somewhere
            lemma_slot_witness_referenced(e, m, w);
            let v = m2[w];
            assert(forall|i: int|
                0 <= i < e.mul_terms@.len() ==> (m.contains_key(
                    (#[trigger] e.mul_terms@[i]).1 as nat,
                ) || e.mul_terms@[i].1 as nat == w) && (m.contains_key(e.mul_terms@[i].2 as nat)
                || e.mul_terms@[i].2 as nat == w));
            lemma_gather_mul_extend(e.mul_terms@, m, w, v, st0, st0);
            let st_mx = gather_mul(e.mul_terms@, m.insert(w, v), st0);
            lemma_gather_linear_extend(e.linear_combinations@, m, w, v, st_m, st_mx);
            let st_fx = expr_state(e, m.insert(w, v));
            // c == 0, so the absorbed contribution is zero
            assert(mul_mod(0, v) == 0) by {
                vstd::arithmetic::div_mod::lemma_small_mod(0, FIELD_MODULUS as nat);
            }
            assert(st_fx.acc == add_mod(st_f.acc, 0));
            assert(st_fx.acc == 0) by {
                vstd::arithmetic::div_mod::lemma_small_mod(st_f.acc, FIELD_MODULUS as nat);
            }
            lemma_known_expression_evaluates(e, m.insert(w, v));
            assert(m.insert(w, v).submap_of(m2)) by {
                assert forall|k: nat| #[trigger] m.insert(w, v).dom().contains(k) implies
                    m2.dom().contains(k) && m.insert(w, v)[k] == m2[k] by {
                    if k != w {
                        assert(m.dom().contains(k));
                    }
                }
            }
            lemma_eval_stable(e, m.insert(w, v), m2);
        },
    }
}

/// A slot witness is one the expression references.
proof fn lemma_slot_witness_referenced(e: Expression, m: Map<nat, nat>, w: nat)
    requires
        !expr_state(e, m).stuck,
        slot_is(expr_state(e, m).unknown, w),
    ensures
        (exists|i: int|
            0 <= i < e.mul_terms@.len() && ((#[trigger] e.mul_terms@[i]).1 as nat == w
                || e.mul_terms@[i].2 as nat == w)) || (exists|i: int|
            0 <= i < e.linear_combinations@.len() && (#[trigger] e.linear_combinations@[i]).1
                as nat == w),
{
    let st0 = init_state(e.q_c@);
    let st_m = gather_mul(e.mul_terms@, m, st0);
    if st_m.stuck {
        lemma_gather_linear_stuck_sticky(e.linear_combinations@, m, st_m);
    }
    lemma_gather_linear_slot_new(e.linear_combinations@, m, st_m, w);
    if slot_is(st_m.unknown, w) {
        lemma_gather_mul_slot_new(e.mul_terms@, m, st0, w);
    }
}

/// A slot witness either came in with the starting state or out of a term.
proof fn lemma_gather_mul_slot_new(
    terms: Seq<(FieldValue, u32, u32)>,
    m: Map<nat, nat>,
    st: GatherState,
    w: nat,
)
    requires
        slot_is(gather_mul(terms, m, st).unknown, w),
    ensures
        slot_is(st.unknown, w) || (exists|i: int|
            0 <= i < terms.len() && ((#[trigger] terms[i]).1 as nat == w || terms[i].2 as nat
                == w)),
    decreases terms.len(),
{
    if terms.len() > 0 {
        let st1 = step_mul(st, terms.first(), m);
        lemma_gather_mul_slot_new(terms.drop_first(), m, st1, w);
        if !slot_is(st.unknown, w) && !(terms.first().1 as nat == w || terms.first().2 as nat
            == w) {
            assert(slot_is(st1.unknown, w) ==> false);
            let j = choose|j: int|
                0 <= j < terms.drop_first().len() && ((#[trigger] terms.drop_first()[j]).1 as nat
                    == w || terms.drop_first()[j].2 as nat == w);
            assert(terms[j + 1] == terms.drop_first()[j]);
        }
    }
}

/// A slot witness either came in with the starting state or out of a term.
proof fn lemma_gather_linear_slot_new(
    terms: Seq<(FieldValue, u32)>,
    m: Map<nat, nat>,
    st: GatherState,
    w: nat,
)
    requires
        slot_is(gather_linear(terms, m, st).unknown, w),
    ensures
        slot_is(st.unknown, w) || (exists|i: int|
            0 <= i < terms.len() && (#[trigger] terms[i]).1 as nat == w),
    decreases terms.len(),
{
    if terms.len() > 0 {
        let st1 = step_linear(st, terms.first(), m);
        lemma_gather_linear_slot_new(terms.drop_first(), m, st1, w);
        if !slot_is(st.unknown, w) && terms.first().1 as nat != w {
            assert(slot_is(st1.unknown, w) ==> false);
            let j = choose|j: int|
                0 <= j < terms.drop_first().len() && (#[trigger] terms.drop_first()[j]).1 as nat
                    == w;
            assert(terms[j + 1] == terms.drop_first()[j]);
        }
    }
}

/// Attempts an expression opcode against the store: verifies a fully known
/// sum, solves and records a single unknown witness, or stalls.
pub fn solve_expression(initial_witness: &mut WitnessStore, expr: &Expression) -> (r: Result<
    (),
    OpcodeResolutionError,
>)
    requires
        old(initial_witness).wf(),
        expr.wf(),
    ensures
        final(initial_witness).wf(),
        match spec_solve_expression(*expr, old(initial_witness)@) {
            ExprOutcome::Solved => r == Ok::<(), OpcodeResolutionError>(())
                && final(initial_witness)@ == old(initial_witness)@,
            ExprOutcome::Assign(w, v) => r == Ok::<(), OpcodeResolutionError>(())
                && final(initial_witness)@ == old(initial_witness)@.insert(w, v),
            ExprOutcome::Stall => r == Err::<(), OpcodeResolutionError>(
                OpcodeResolutionError::OpcodeNotSolvable {
                    opcode_location: ErrorLocation::Unresolved,
                },
            ) && final(initial_witness)@ == old(initial_witness)@,
            ExprOutcome::Unsatisfied => r == Err::<(), OpcodeResolutionError>(
                OpcodeResolutionError::UnsatisfiedConstrain {
                    opcode_location: ErrorLocation::Unresolved,
                },
            ) && final(initial_witness)@ == old(initial_witness)@,
        },
{
    let ghost m = initial_witness@;
    let mut acc: FieldValue = expr.q_c;
    let mut unknown: Option<(u32, FieldValue)> = None;
    let mut stuck: bool = false;

    let n_mul = expr.mul_terms.len();
    let mut i: usize = 0;
    proof {
        assert(expr.mul_terms@.subrange(0, n_mul as int) =~= expr.mul_terms@);
    }
    while i < n_mul
        invariant
            n_mul == expr.mul_terms@.len(),
            i <= n_mul,
            expr.wf(),
            initial_witness.wf(),
            initial_witness@ == m,
            acc.wf(),
            match unknown {
                None => true,
                Some((w, c)) => c.wf(),
            },
            gather_mul(expr.mul_terms@, m, init_state(expr.q_c@)) == gather_mul(
                expr.mul_terms@.subrange(i as int, n_mul as int),
                m,
                abs_state(acc, unknown, stuck),
            ),
        decreases n_mul - i,
    {
        let ghost pre_state = abs_state(acc, unknown, stuck);
        let (c, wa, wb) = expr.mul_terms[i];
        if !stuck {
            match initial_witness.get(wa) {
                Some(va) => {
                    match initial_witness.get(wb) {
                        Some(vb) => {
                            acc = acc.add(c.mul(va.mul(vb)));
                        },
                        None => {
                            let coeff = c.mul(va);
                            match unknown {
                                None => {
                                    unknown = Some((wb, coeff));
                                },
                                Some((w0, c0)) => {
                                    if w0 == wb {
                                        unknown = Some((w0, c0.add(coeff)));
                                    } else {
                                        stuck = true;
                                    }
                                },
                            }
                        },
                    }
                },
                None => {
                    match initial_witness.get(wb) {
                        Some(vb) => {
                            let coeff = c.mul(vb);
                            match unknown {
                                None => {
                                    unknown = Some((wa, coeff));
                                },
                                Some((w0, c0)) => {
                                    if w0 == wa {
                                        unknown = Some((w0, c0.add(coeff)));
                                    } else {
                                        stuck = true;
                                    }
                                },
                            }
                        },
                        None => {
                            stuck = true;
                        },
                    }
                },
            }
        }
        proof {
            assert(abs_state(acc, unknown, stuck) == step_mul(
                pre_state,
                expr.mul_terms@[i as int],
                m,
            ));
            assert(expr.mul_terms@.subrange(i as int, n_mul as int).drop_first()
                =~= expr.mul_terms@.subrange(i as int + 1, n_mul as int));
            assert(expr.mul_terms@.subrange(i as int, n_mul as int).first()
                == expr.mul_terms@[i as int]);
        }
        i = i + 1;
    }
    proof {
        assert(gather_mul(expr.mul_terms@, m, init_state(expr.q_c@)) == abs_state(
            acc,
            unknown,
            stuck,
        ));
    }

    let n_lin = expr.linear_combinations.len();
    let mut j: usize = 0;
    proof {
        assert(expr.linear_combinations@.subrange(0, n_lin as int) =~= expr.linear_combinations@);
    }
    while j < n_lin
        invariant
            n_lin == expr.linear_combinations@.len(),
            j <= n_lin,
            expr.wf(),
            initial_witness.wf(),
            initial_witness@ == m,
            acc.wf(),
            match unknown {
                None => true,
                Some((w, c)) => c.wf(),
            },
            expr_state(*expr, m) == gather_linear(
                expr.linear_combinations@.subrange(j as int, n_lin as int),
                m,
                abs_state(acc, unknown, stuck),
            ),
        decreases n_lin - j,
    {
        let ghost pre_state = abs_state(acc, unknown, stuck);
        let (c, w) = expr.linear_combinations[j];
        if !stuck {
            match initial_witness.get(w) {
                Some(v) => {
                    acc = acc.add(c.mul(v));
                },
                None => {
                    match unknown {
                        None => {
                            unknown = Some((w, c));
                        },
                        Some((w0, c0)) => {
                            if w0 == w {
                                unknown = Some((w0, c0.add(c)));
                            } else {
                                stuck = true;
                            }
                        },
                    }
                },
            }
        }
        proof {
            assert(abs_state(acc, unknown, stuck) == step_linear(
                pre_state,
                expr.linear_combinations@[j as int],
                m,
            ));
            assert(expr.linear_combinations@.subrange(j as int, n_lin as int).drop_first()
                =~= expr.linear_combinations@.subrange(j as int + 1, n_lin as int));
            assert(expr.linear_combinations@.subrange(j as int, n_lin as int).first()
                == expr.linear_combinations@[j as int]);
        }
        j = j + 1;
    }
    proof {
        assert(expr_state(*expr, m) == abs_state(acc, unknown, stuck));
    }

    if stuck {
        return Err(
            OpcodeResolutionError::OpcodeNotSolvable { opcode_location: ErrorLocation::Unresolved },
        );
    }
    match unknown {
        None => {
            if acc.is_zero() {
                Ok(())
            } else {
                Err(
                    OpcodeResolutionError::UnsatisfiedConstrain {
                        opcode_location: ErrorLocation::Unresolved,
                    },
                )
            }
        },
        Some((w, c)) => {
            if c.is_zero() {
                if acc.is_zero() {
                    Ok(())
                } else {
                    Err(
                        OpcodeResolutionError::UnsatisfiedConstrain {
                            opcode_location: ErrorLocation::Unresolved,
                        },
                    )
                }
            } else {
                match c.inverse() {
                    None => Err(
                        OpcodeResolutionError::OpcodeNotSolvable {
                            opcode_location: ErrorLocation::Unresolved,
                        },
                    ),
                    Some(inv) => {
                        let value = acc.neg().mul(inv);
                        proof {
                            lemma_gather_mul_unknown_absent(
                                expr.mul_terms@,
                                m,
                                init_state(expr.q_c@),
                            );
                            lemma_gather_linear_unknown_absent(
                                expr.linear_combinations@,
                                m,
                                gather_mul(expr.mul_terms@, m, init_state(expr.q_c@)),
                            );
                        }
                        let ok = initial_witness.set(w, value);
                        proof {
                            assert(ok);
                        }
                        Ok(())
                    },
                }
            }
        },
    }
}

} // verus!
