//! What formulas mean: a valuation is the set of variables it makes true, a
//! clause holds when one of its literals does, and a formula entails a clause
//! when every valuation that satisfies the formula satisfies the clause.

use crate::literal::{is_negated, negate, var_of};
use vstd::prelude::*;

verus! {

/// Whether the valuation `m` makes the literal true.
pub open spec fn lit_holds(m: Set<int>, lit: u32) -> bool {
    m.contains(var_of(lit)) != is_negated(lit)
}

/// Whether the valuation `m` makes some literal of the clause true.
pub open spec fn clause_holds(m: Set<int>, clause: Seq<u32>) -> bool {
    exists|i: int| 0 <= i < clause.len() && lit_holds(m, #[trigger] clause[i])
}

/// Whether the valuation `m` makes every clause of the formula true.
pub open spec fn models(m: Set<int>, formula: Seq<Seq<u32>>) -> bool {
    forall|i: int| 0 <= i < formula.len() ==> clause_holds(m, #[trigger] formula[i])
}

/// Whether every valuation that satisfies the formula satisfies the clause.
pub open spec fn entails(formula: Seq<Seq<u32>>, clause: Seq<u32>) -> bool {
    forall|m: Set<int>| #[trigger] models(m, formula) ==> clause_holds(m, clause)
}

/// Whether no valuation satisfies the formula.
pub open spec fn unsatisfiable(formula: Seq<Seq<u32>>) -> bool {
    forall|m: Set<int>| !#[trigger] models(m, formula)
}

/// A valuation makes exactly one of a literal and its negation true.
pub proof fn lemma_negation_flips(m: Set<int>, lit: u32)
    ensures
        lit_holds(m, negate(lit)) == !lit_holds(m, lit),
{
}

/// A clause that holds keeps holding when literals are added to it: if every
/// literal of `small` occurs in `large`, whatever satisfies `small` satisfies
/// `large`.
pub proof fn lemma_weaken(m: Set<int>, small: Seq<u32>, large: Seq<u32>)
    requires
        clause_holds(m, small),
        forall|i: int| 0 <= i < small.len() ==> large.contains(#[trigger] small[i]),
    ensures
        clause_holds(m, large),
{
    let i = choose|i: int| 0 <= i < small.len() && lit_holds(m, #[trigger] small[i]);
    assert(large.contains(small[i]));
    let j = choose|j: int| 0 <= j < large.len() && large[j] == small[i];
    assert(lit_holds(m, large[j]));
}

} // verus!
