//! What the solver guarantees, stated over the model of the search.

use crate::clause_lemmas::{lemma_filter_mem, lemma_first_active};
use crate::encoding::{lemma_id_of, literal_for, literal_text, numbered};
use crate::literal::{
    is_negated, lemma_negate, lemma_same_variable, negate, var_of, MAX_VARIABLES,
};
use crate::preservation::{
    lemma_assertion_level_below, lemma_counted, lemma_decide, lemma_initial, lemma_restart,
    lemma_step, lemma_trail_is_model, valuation_of,
};
use crate::progress::{lemma_rest_after, lemma_trail_is_finite, rest_after, slack};
use crate::search::{
    assertion_level, counted, decided, first_active, free_literals, in_range, initial, input,
    inv, is_active, is_true, not_false, restarted, satisfied, step, unassigned, Search,
};
use crate::semantics::{entails, models, unsatisfiable};
use crate::token::{
    is_digit, is_negative, is_numeral, is_terminator, skip_backward, skip_forward, variable_name,
};
use vstd::prelude::*;

verus! {

/// The invariant of the search holds before the search and is kept by every
/// transition: a propagation pass, a restart, the counting of a decision,
/// and a decision on an unset variable.
pub proof fn law_invariant_is_kept(s: Search, decision: u32)
    requires
        inv(s),
    ensures
        inv(initial(s.names, input(s))),
        inv(step(s).0),
        inv(restarted(s)),
        inv(counted(s)),
        var_of(decision) < s.names.len() && unassigned(s.trail, var_of(decision)) ==> inv(
            decided(s, decision),
        ),
{
    lemma_initial(s.names, input(s));
    lemma_step(s);
    lemma_restart(s);
    lemma_counted(s);
    if var_of(decision) < s.names.len() && unassigned(s.trail, var_of(decision)) {
        lemma_decide(s, decision);
    }
}

/// Soundness of the verdict "satisfiable": once the search has ended so,
/// every input clause has a literal on the trail, and the valuation that the
/// trail describes satisfies the input.
pub proof fn law_model_satisfies_input(s: Search)
    requires
        inv(s),
        s.finished,
        s.satisfiable,
    ensures
        forall|i: int| 0 <= i < s.input_count ==> satisfied(s.trail, #[trigger] s.clauses[i]),
        models(valuation_of(s.trail), input(s)),
{
    lemma_trail_is_model(s);
}

/// Soundness of the verdict "unsatisfiable": once the search has ended so, no
/// valuation satisfies the input.
pub proof fn law_refutation_is_sound(s: Search)
    requires
        inv(s),
        s.finished,
        !s.satisfiable,
    ensures
        unsatisfiable(input(s)),
{
}

/// A verdict is right: once the search has ended, it says "satisfiable"
/// exactly when some valuation satisfies the input.
pub proof fn law_verdict_is_right(s: Search)
    requires
        inv(s),
        s.finished,
    ensures
        s.satisfiable <==> exists|m: Set<int>| models(m, input(s)),
{
    if s.satisfiable {
        lemma_trail_is_model(s);
    }
}

/// Every clause of the database, learned ones included, is entailed by the
/// input, before and after a propagation pass; and a pass leaves the input
/// as it is.
pub proof fn law_learned_clauses_are_entailed(s: Search)
    requires
        inv(s),
    ensures
        forall|i: int| 0 <= i < s.clauses.len() ==> entails(input(s), #[trigger] s.clauses[i]),
        input(step(s).0) == input(s),
        forall|i: int|
            0 <= i < step(s).0.clauses.len() ==> entails(input(s), #[trigger] step(s).0.clauses[i]),
{
    lemma_step(s);
    let t = step(s).0;
    assert(input(t) =~= input(s));
}

/// The trail never holds a literal together with its negation: not now, not
/// after a propagation pass, not after a restart, and not after a decision
/// on an unset variable.
pub proof fn law_trail_is_consistent(s: Search, lit: u32, decision: u32)
    requires
        inv(s),
    ensures
        !(s.trail.dom().contains(lit) && s.trail.dom().contains(negate(lit))),
        !(step(s).0.trail.dom().contains(lit) && step(s).0.trail.dom().contains(negate(lit))),
        !(restarted(s).trail.dom().contains(lit) && restarted(s).trail.dom().contains(negate(lit))),
        var_of(decision) < s.names.len() && unassigned(s.trail, var_of(decision)) ==> !(decided(
            s,
            decision,
        ).trail.dom().contains(lit) && decided(s, decision).trail.dom().contains(negate(lit))),
{
    lemma_step(s);
    if var_of(decision) < s.names.len() && unassigned(s.trail, var_of(decision)) {
        lemma_decide(s, decision);
    }
}

/// The search never gets stuck: when a propagation pass comes to rest
/// without a verdict, some variable is unset, so a decision can be made.
pub proof fn law_rest_leaves_a_choice(s: Search)
    requires
        inv(s),
        step(s).1,
        !step(s).0.finished,
    ensures
        step(s).0 == s,
        exists|var: int| 0 <= var < s.names.len() && unassigned(s.trail, var),
{
    lemma_first_active(s.trail, s.clauses, 0);
    let i = choose|i: int| 0 <= i < s.clauses.len() && !satisfied(s.trail, #[trigger] s.clauses[i]);
    let clause = s.clauses[i];
    assert(!is_active(s.trail, clause));
    let free = free_literals(s.trail, clause);
    assert(free.len() >= 2);
    let lit = free[0];
    assert(free.contains(lit));
    lemma_filter_mem(clause, not_false(s.trail), lit);
    let k = choose|k: int| 0 <= k < clause.len() && clause[k] == lit;
    assert(!is_true(s.trail, clause[k]));
    assert(in_range(clause, s.names.len() as int));
    assert(var_of(clause[k]) < s.names.len());
    lemma_negate(lit);
    assert forall|other: u32| #[trigger] s.trail.dom().contains(other) implies var_of(other)
        != var_of(lit) by {
        if var_of(other) == var_of(lit) {
            lemma_same_variable(other, lit);
        }
    }
    assert(unassigned(s.trail, var_of(lit)));
}

/// The assertion level of a clause lies strictly below the level of the
/// conflict, so a propagation pass never raises the decision level, and
/// lowers it whenever it learns a clause.
pub proof fn law_backjump_lowers_level(s: Search, clause: Seq<u32>)
    requires
        inv(s),
        s.level >= 1,
    ensures
        assertion_level(s.trail, clause) < s.level,
        step(s).0.level <= s.level,
        step(s).0.clauses.len() > s.clauses.len() ==> step(s).0.level < s.level,
{
    lemma_assertion_level_below(s, clause);
    let i = first_active(s.trail, s.clauses, 0);
    lemma_first_active(s.trail, s.clauses, 0);
    if 0 <= i < s.clauses.len() {
        let learned = crate::search::learned_clause(s, s.clauses[i]);
        lemma_assertion_level_below(s, learned);
    }
}

/// A propagation pass never raises the decision level.
pub proof fn law_pass_never_raises_level(s: Search)
    requires
        inv(s),
    ensures
        step(s).0.level <= s.level,
{
    if s.level >= 1 {
        law_backjump_lowers_level(s, Seq::empty());
    } else {
        lemma_first_active(s.trail, s.clauses, 0);
    }
}

/// Propagation stops: without a decision in between, the propagation passes
/// come to rest after at most `slack(s)` passes beyond the first, in a state
/// that keeps the invariant and that the next pass leaves as it is.
pub proof fn law_propagation_comes_to_rest(s: Search)
    requires
        inv(s),
    ensures
        0 <= slack(s),
        inv(rest_after(s, slack(s) as nat)),
        step(rest_after(s, slack(s) as nat)) == (rest_after(s, slack(s) as nat), true),
        rest_after(s, slack(s) as nat).level <= s.level,
{
    lemma_trail_is_finite(s);
    lemma_rest_after(s, slack(s) as nat);
}

/// A propagation pass that came to rest is stable: the next pass, with no
/// decision in between, comes to rest again and changes nothing.
pub proof fn law_rest_is_stable(s: Search)
    requires
        step(s).1,
    ensures
        step(step(s).0) == step(s),
{
}

/// Writing a literal is the inverse of encoding a token: the literal that a
/// well-formed token stands for, in the table of a solver that knows the
/// token's variable, is written as the token itself.
pub proof fn law_text_of_encoded_token(names: Seq<Seq<char>>, token: Seq<char>)
    requires
        is_numeral(token),
        !is_terminator(token),
        names.len() <= MAX_VARIABLES,
        names.no_duplicates(),
        names.contains(variable_name(token)),
    ensures
        var_of(literal_for(numbered(names), token)) < names.len(),
        is_negated(literal_for(numbered(names), token)) == is_negative(token),
        literal_text(names, literal_for(numbered(names), token)) == token,
{
    let entries = numbered(names);
    let name = variable_name(token);
    let i = choose|i: int| 0 <= i < names.len() && names[i] == name;
    assert(entries[i].0 == name);
    assert forall|a: int, b: int| 0 <= a < b < entries.len() implies (#[trigger] entries[a]).0 != (
    #[trigger] entries[b]).0 by {
        assert(names[a] != names[b]);
    }
    lemma_id_of(entries, i);
    if is_negative(token) {
        let n = token.len() as int;
        assert(is_digit(token[1]) && is_digit(token[n - 1]));
        reveal_with_fuel(skip_forward, 3);
        assert(skip_forward(token, '-', 0) == 1);
        assert(skip_backward(token, '-', n) == n);
        assert(seq!['-'] + token.subrange(1, n) =~= token);
    }
}

} // verus!
