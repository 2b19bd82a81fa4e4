//! Propagation stops: without a decision in between, the propagation passes
//! come to rest after a number of passes that the state bounds. A pass that
//! forces a literal sets one more variable, and a pass that jumps back lowers
//! the level.

use crate::clause_lemmas::{lemma_first_active, lemma_unit_clause};
use crate::laws::law_pass_never_raises_level;
use crate::literal::var_of;
use crate::preservation::{lemma_assertion_level_below, lemma_step};
use crate::search::{
    assertion_level, first_active, free_literals, inv, is_unit, learned_clause, step, Search,
};
use vstd::prelude::*;

verus! {

/// The literals below `n`.
pub open spec fn literals_below(n: nat) -> Set<u32> {
    Set::new(|lit: u32| lit < n)
}

/// How many propagation passes the state can still take before it rests: a
/// bound that falls with every pass that does not rest.
pub open spec fn slack(s: Search) -> int {
    s.level * (2 * s.names.len() + 1) + (2 * s.names.len() - s.trail.dom().len())
}

/// The state in which propagation from `s` rests, if it does so within
/// `passes` further passes after the first.
pub open spec fn rest_after(s: Search, passes: nat) -> Search
    decreases passes,
{
    if passes == 0 || step(s).1 {
        step(s).0
    } else {
        rest_after(step(s).0, (passes - 1) as nat)
    }
}

/// There are `n` literals below `n`.
pub proof fn lemma_literals_below(n: nat)
    requires
        n <= u32::MAX,
    ensures
        literals_below(n).finite(),
        literals_below(n).len() == n,
    decreases n,
{
    if n == 0 {
        assert(literals_below(n) =~= Set::empty());
    } else {
        lemma_literals_below((n - 1) as nat);
        assert(literals_below(n) =~= literals_below((n - 1) as nat).insert((n - 1) as u32));
    }
}

/// The trail is finite: it holds at most two literals for each variable.
pub proof fn lemma_trail_is_finite(s: Search)
    requires
        inv(s),
    ensures
        s.trail.dom().finite(),
        s.trail.dom().len() <= 2 * s.names.len(),
        0 <= slack(s),
{
    let all = literals_below(2 * s.names.len());
    lemma_literals_below(2 * s.names.len());
    assert forall|lit: u32| s.trail.dom().contains(lit) implies all.contains(lit) by {
        assert(var_of(lit) < s.names.len());
    }
    vstd::set_lib::lemma_len_subset(s.trail.dom(), all);
    assert(0 <= s.level * (2 * s.names.len() + 1)) by (nonlinear_arith)
        requires
            0 <= s.level,
            0 <= s.names.len(),
    ;
}

/// A pass that does not rest lowers the slack.
pub proof fn lemma_pass_lowers_slack(s: Search)
    requires
        inv(s),
        !step(s).1,
    ensures
        inv(step(s).0),
        0 <= slack(step(s).0) < slack(s),
{
    let t = step(s).0;
    let width = 2 * s.names.len() + 1;
    lemma_step(s);
    lemma_trail_is_finite(s);
    lemma_trail_is_finite(t);
    lemma_first_active(s.trail, s.clauses, 0);
    let i = first_active(s.trail, s.clauses, 0);
    if is_unit(s.trail, s.clauses[i]) {
        let lit = free_literals(s.trail, s.clauses[i])[0];
        lemma_unit_clause(s.trail, s.clauses[i], 0);
        assert(t.trail.dom() =~= s.trail.dom().insert(lit));
        assert(!s.trail.dom().contains(lit));
    } else {
        let clause = learned_clause(s, s.clauses[i]);
        lemma_assertion_level_below(s, clause);
        assert(t.level == assertion_level(s.trail, clause));
        assert(t.level * width + width <= s.level * width) by (nonlinear_arith)
            requires
                t.level + 1 <= s.level,
                0 <= width,
        ;
    }
}

/// More passes than the slack allows change nothing: propagation rests in
/// the same state.
pub proof fn lemma_rest_after(s: Search, passes: nat)
    requires
        inv(s),
        slack(s) <= passes,
    ensures
        rest_after(s, passes) == rest_after(s, slack(s) as nat),
        inv(rest_after(s, passes)),
        step(rest_after(s, passes)) == (rest_after(s, passes), true),
        rest_after(s, passes).level <= s.level,
    decreases passes,
{
    lemma_trail_is_finite(s);
    lemma_step(s);
    if step(s).1 {
    } else {
        lemma_pass_lowers_slack(s);
        let t = step(s).0;
        lemma_rest_after(t, (passes - 1) as nat);
        lemma_rest_after(t, (slack(s) - 1) as nat);
        law_pass_never_raises_level(s);
    }
}

} // verus!
