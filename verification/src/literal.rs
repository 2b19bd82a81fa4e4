//! Literals: a variable `v` with polarity bit `s` is the integer `2 * v + s`,
//! where `s == 0` is the positive literal and `s == 1` the negated one.

use vstd::prelude::*;

verus! {

/// Largest number of variables a formula may have, so that every literal fits
/// in a `u32` and every decision level in an `i32`.
pub const MAX_VARIABLES: u32 = 0x7fff_ffff;

/// The variable a literal speaks of.
pub open spec fn var_of(lit: u32) -> int {
    lit as int / 2
}

/// Whether the literal is the negated polarity of its variable.
pub open spec fn is_negated(lit: u32) -> bool {
    lit % 2 == 1
}

/// The literal of the same variable with the opposite polarity.
pub open spec fn negate(lit: u32) -> u32 {
    if lit % 2 == 0 {
        (lit + 1) as u32
    } else {
        (lit - 1) as u32
    }
}

/// The literal of variable `var` with the given polarity.
pub open spec fn literal_of(var: int, negated: bool) -> int {
    2 * var + if negated { 1int } else { 0int }
}

/// Negation is an involution that keeps the variable and flips the polarity.
pub proof fn lemma_negate(lit: u32)
    ensures
        negate(negate(lit)) == lit,
        negate(lit) != lit,
        var_of(negate(lit)) == var_of(lit),
        is_negated(negate(lit)) != is_negated(lit),
{
}

/// Two literals of one variable are equal or each other's negation.
pub proof fn lemma_same_variable(a: u32, b: u32)
    requires
        var_of(a) == var_of(b),
    ensures
        a == b || a == negate(b),
{
}

/// Flips the polarity of a literal.
pub fn negated(lit: u32) -> (r: u32)
    ensures
        r == negate(lit),
{
    assert(lit ^ 1 == if lit % 2 == 0 { (lit + 1) as u32 } else { (lit - 1) as u32 })
        by (bit_vector);
    lit ^ 1
}

/// The index of the variable of a literal.
pub fn variable(lit: u32) -> (v: u32)
    ensures
        v == var_of(lit),
{
    assert(lit >> 1 == lit / 2) by (bit_vector);
    lit >> 1
}

/// Whether a literal carries the negated polarity.
pub fn negative(lit: u32) -> (b: bool)
    ensures
        b == is_negated(lit),
{
    assert(lit & 1 == lit % 2) by (bit_vector);
    lit & 1 != 0
}

/// Packs a variable index and a polarity into a literal.
pub fn encode(var: u32, negated: bool) -> (lit: u32)
    requires
        var <= MAX_VARIABLES,
    ensures
        lit == literal_of(var as int, negated),
        var_of(lit) == var,
        is_negated(lit) == negated,
{
    assert(var <= 0x7fff_ffffu32 ==> (var << 1) == 2 * var && ((var << 1) | 1) == 2 * var + 1)
        by (bit_vector);
    if negated {
        (var << 1) | 1
    } else {
        var << 1
    }
}

} // verus!
