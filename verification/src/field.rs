//! Field values: elements of a fixed prime field with modular arithmetic and
//! bit-length introspection.
//!
//! The field characteristic is a compile-time parameter of the solver, not
//! something this core chooses for a circuit; this build instantiates it with
//! a small prime so that every product fits comfortably in machine words.

use vstd::prelude::*;

verus! {

/// The field characteristic: a prime, so every nonzero element is invertible.
pub const FIELD_MODULUS: u64 = 65521;

/// Sum of two field representatives, reduced.
pub open spec fn add_mod(a: nat, b: nat) -> nat {
    (a + b) % (FIELD_MODULUS as nat)
}

/// Product of two field representatives, reduced.
pub open spec fn mul_mod(a: nat, b: nat) -> nat {
    (a * b) % (FIELD_MODULUS as nat)
}

/// Additive inverse of a field representative.
pub open spec fn neg_mod(a: nat) -> nat {
    if a % (FIELD_MODULUS as nat) == 0 {
        0
    } else {
        ((FIELD_MODULUS as nat) - (a % (FIELD_MODULUS as nat))) as nat
    }
}

/// Difference of two field representatives, reduced.
pub open spec fn sub_mod(a: nat, b: nat) -> nat {
    add_mod(a, neg_mod(b))
}

/// Bit length of a non-negative integer: index of the highest set bit plus
/// one, and zero for zero.
pub open spec fn bit_len(n: nat) -> nat
    decreases n,
{
    if n == 0 {
        0
    } else {
        1 + bit_len(n / 2)
    }
}

/// Multiplicative-inverse search: the least `i` in `[start, FIELD_MODULUS)`
/// with `a * i == 1` in the field, if one exists.
pub open spec fn inv_search(a: nat, start: nat) -> Option<nat>
    decreases FIELD_MODULUS - start,
{
    if start >= FIELD_MODULUS {
        None
    } else if (a * start) % (FIELD_MODULUS as nat) == 1 {
        Some(start)
    } else {
        inv_search(a, start + 1)
    }
}

/// Multiplicative inverse of a field representative, if one exists.
pub open spec fn inv_mod(a: nat) -> Option<nat> {
    inv_search(a, 0)
}

/// An element of the prime field, kept reduced below `FIELD_MODULUS`.
#[derive(Clone, Copy, Debug, PartialEq, Eq, Structural)]
pub struct FieldValue {
    value: u64,
}

impl View for FieldValue {
    type V = nat;

    closed spec fn view(&self) -> nat {
        self.value as nat
    }
}

impl FieldValue {
    /// The representative is reduced.
    pub open spec fn wf(self) -> bool {
        self@ < FIELD_MODULUS
    }

    /// Builds a field value from an integer, reducing it.
    pub fn from_u64(n: u64) -> (r: FieldValue)
        ensures
            r.wf(),
            r@ == n as nat % (FIELD_MODULUS as nat),
    {
        FieldValue { value: n % FIELD_MODULUS }
    }

    /// The zero element.
    pub fn zero() -> (r: FieldValue)
        ensures
            r.wf(),
            r@ == 0,
    {
        FieldValue { value: 0 }
    }

    /// The one element.
    pub fn one() -> (r: FieldValue)
        ensures
            r.wf(),
            r@ == 1,
    {
        FieldValue { value: 1 }
    }

    /// Whether this is the zero element.
    pub fn is_zero(&self) -> (r: bool)
        ensures
            r == (self@ == 0),
    {
        self.value == 0
    }

    /// The reduced representative as a machine word.
    pub fn as_u64(&self) -> (r: u64)
        ensures
            r as nat == self@,
    {
        self.value
    }

    /// Equality of field values by their representatives.
    pub fn eq_value(&self, other: &FieldValue) -> (r: bool)
        ensures
            r == (self@ == other@),
    {
        *self == *other
    }

    /// Field addition.
    pub fn add(self, other: FieldValue) -> (r: FieldValue)
        requires
            self.wf(),
            other.wf(),
        ensures
            r.wf(),
            r@ == add_mod(self@, other@),
    {
        FieldValue { value: (self.value + other.value) % FIELD_MODULUS }
    }

    /// Field multiplication.
    pub fn mul(self, other: FieldValue) -> (r: FieldValue)
        requires
            self.wf(),
            other.wf(),
        ensures
            r.wf(),
            r@ == mul_mod(self@, other@),
    {
        proof {
            assert(self.value * other.value < 0x1_0000_0000_0000_0000) by (nonlinear_arith)
                requires
                    self.value < 65521,
                    other.value < 65521,
            ;
        }
        FieldValue { value: (self.value * other.value) % FIELD_MODULUS }
    }

    /// Field negation.
    pub fn neg(self) -> (r: FieldValue)
        requires
            self.wf(),
        ensures
            r.wf(),
            r@ == neg_mod(self@),
    {
        proof {
            vstd::arithmetic::div_mod::lemma_small_mod(self@, FIELD_MODULUS as nat);
        }
        if self.value == 0 {
            FieldValue { value: 0 }
        } else {
            FieldValue { value: FIELD_MODULUS - self.value }
        }
    }

    /// Field subtraction.
    pub fn sub(self, other: FieldValue) -> (r: FieldValue)
        requires
            self.wf(),
            other.wf(),
        ensures
            r.wf(),
            r@ == sub_mod(self@, other@),
    {
        self.add(other.neg())
    }

    /// Bit length of the value seen as a non-negative integer: the index of
    /// its highest set bit plus one, and zero for the zero value.
    pub fn num_bits(&self) -> (r: u32)
        requires
            self.wf(),
        ensures
            r == bit_len(self@),
    {
        let mut x: u64 = self.value;
        let mut count: u32 = 0;
        proof {
            lemma_bit_len_bound(x as nat);
        }
        while x > 0
            invariant
                count + bit_len(x as nat) == bit_len(self@),
                bit_len(self@) <= FIELD_MODULUS,
            decreases x,
        {
            x = x / 2;
            count = count + 1;
        }
        count
    }

    /// Multiplicative inverse: `Some` exactly when one exists, which in a
    /// prime field is every nonzero value.
    pub fn inverse(&self) -> (r: Option<FieldValue>)
        requires
            self.wf(),
        ensures
            match r {
                Some(i) => i.wf() && inv_mod(self@) == Some(i@),
                None => inv_mod(self@) is None,
            },
    {
        let a: u64 = self.value;
        let mut i: u64 = 0;
        while i < FIELD_MODULUS
            invariant
                a < FIELD_MODULUS,
                a as nat == self@,
                i <= FIELD_MODULUS,
                inv_mod(a as nat) == inv_search(a as nat, i as nat),
            decreases FIELD_MODULUS - i,
        {
            proof {
                assert(a * i < 0x1_0000_0000_0000_0000) by (nonlinear_arith)
                    requires
                        a < 65521,
                        i < 65521,
                ;
            }
            if (a * i) % FIELD_MODULUS == 1 {
                proof {
                    assert(inv_search(a as nat, i as nat) == Some(i as nat));
                }
                return Some(FieldValue { value: i });
            }
            proof {
                assert(inv_search(a as nat, i as nat) == inv_search(a as nat, i as nat + 1));
            }
            i = i + 1;
        }
        None
    }
}

/// Modular multiplication is associative.
pub proof fn lemma_mul_mod_assoc(a: nat, b: nat, c: nat)
    ensures
        mul_mod(a, mul_mod(b, c)) == mul_mod(mul_mod(a, b), c),
{
    let p = FIELD_MODULUS as int;
    vstd::arithmetic::div_mod::lemma_mul_mod_noop_right(a as int, (b * c) as int, p);
    vstd::arithmetic::div_mod::lemma_mul_mod_noop_left((a * b) as int, c as int, p);
    vstd::arithmetic::mul::lemma_mul_is_associative(a as int, b as int, c as int);
}

/// Modular multiplication distributes over modular addition.
pub proof fn lemma_mul_mod_distrib(a: nat, b: nat, c: nat)
    ensures
        mul_mod(add_mod(a, b), c) == add_mod(mul_mod(a, c), mul_mod(b, c)),
{
    let p = FIELD_MODULUS as int;
    vstd::arithmetic::div_mod::lemma_mul_mod_noop_left((a + b) as int, c as int, p);
    vstd::arithmetic::mul::lemma_mul_is_distributive_add_other_way(c as int, a as int, b as int);
    vstd::arithmetic::div_mod::lemma_add_mod_noop((a * c) as int, (b * c) as int, p);
}

/// One is the multiplicative identity.
pub proof fn lemma_mul_mod_one(a: nat)
    requires
        a < FIELD_MODULUS,
    ensures
        mul_mod(a, 1) == a,
{
    vstd::arithmetic::div_mod::lemma_small_mod(a, FIELD_MODULUS as nat);
}

/// A value and its additive inverse sum to zero.
pub proof fn lemma_add_mod_cancel(a: nat)
    requires
        a < FIELD_MODULUS,
    ensures
        add_mod(a, neg_mod(a)) == 0,
{
    vstd::arithmetic::div_mod::lemma_small_mod(a, FIELD_MODULUS as nat);
    if a == 0 {
        vstd::arithmetic::div_mod::lemma_small_mod(0, FIELD_MODULUS as nat);
    } else {
        vstd::arithmetic::div_mod::lemma_mod_self_0(FIELD_MODULUS as int);
    }
}

/// What a successful inverse search found: a reduced witness to the product
/// being one.
pub proof fn lemma_inv_search_correct(a: nat, start: nat)
    ensures
        match inv_search(a, start) {
            Some(i) => i < FIELD_MODULUS && mul_mod(a, i) == 1,
            None => true,
        },
    decreases FIELD_MODULUS - start,
{
    if start < FIELD_MODULUS && (a * start) % (FIELD_MODULUS as nat) != 1 {
        lemma_inv_search_correct(a, start + 1);
    }
}

/// The bit length of an integer never exceeds the integer itself.
pub proof fn lemma_bit_len_bound(n: nat)
    ensures
        bit_len(n) <= n,
    decreases n,
{
    if n != 0 {
        lemma_bit_len_bound(n / 2);
    }
}

} // verus!
