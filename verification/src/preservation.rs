//! Every transition of the search keeps the invariant, and what that
//! implies for verdicts and runs.

use crate::analysis_lemmas::{learned_ok, lemma_learned_clause, lemma_learned_entailed};
use crate::clause_lemmas::{
    lemma_conflict_clause, lemma_filter_mem, lemma_first_active, lemma_highest_below,
    lemma_unit_clause,
};
use crate::literal::{lemma_negate, lemma_same_variable, negate, var_of, MAX_VARIABLES};
use crate::search::{
    all_satisfied, assertion_level, backjumped, confirmed, counted, decided, falsified,
    first_active, free_literals, has_record, highest, in_range, initial, input, inv, is_conflict,
    is_true, is_unit, knowledge_ok, learned_clause, level_of, passes_to, propagated, record_ok,
    records_ok, refuted, restarted, runs_to, satisfied, shape_ok, step, trail_ok, unassigned,
    Search,
};
use crate::semantics::{
    clause_holds, entails, lemma_negation_flips, lit_holds, models, unsatisfiable,
};
use vstd::prelude::*;

verus! {

/// The valuation that a trail describes: the variables whose positive literal
/// is asserted.
pub open spec fn valuation_of(trail: Map<u32, i32>) -> Set<int> {
    Set::new(
        |v: int|
            exists|lit: u32| #[trigger]
                trail.dom().contains(lit) && lit % 2 == 0 && var_of(lit) == v,
    )
}

/// A literal on a trail that never holds both polarities of a variable is
/// true in the valuation that the trail describes.
pub proof fn lemma_valuation_holds(s: Search, lit: u32)
    requires
        trail_ok(s),
        s.trail.dom().contains(lit),
    ensures
        lit_holds(valuation_of(s.trail), lit),
{
    let m = valuation_of(s.trail);
    if lit % 2 == 0 {
        assert(m.contains(var_of(lit)));
    } else {
        if m.contains(var_of(lit)) {
            let other = choose|other: u32| #[trigger]
                s.trail.dom().contains(other) && other % 2 == 0 && var_of(other) == var_of(lit);
            assert(other == negate(lit));
        }
    }
}

/// A trail that satisfies every clause describes a valuation that satisfies
/// the input.
pub proof fn lemma_trail_is_model(s: Search)
    requires
        shape_ok(s),
        trail_ok(s),
        all_satisfied(s.trail, s.clauses),
    ensures
        models(valuation_of(s.trail), input(s)),
{
    let m = valuation_of(s.trail);
    assert forall|i: int| 0 <= i < input(s).len() implies clause_holds(m, #[trigger] input(s)[i]) by {
        let clause = s.clauses[i];
        assert(satisfied(s.trail, clause));
        let k = choose|k: int| 0 <= k < clause.len() && is_true(s.trail, #[trigger] clause[k]);
        lemma_valuation_holds(s, clause[k]);
        assert(lit_holds(m, input(s)[i][k]));
    }
}

/// The negation of `lit` is asserted at level `k` or below.
pub open spec fn others_false(s: Search, k: int, lit: u32) -> bool {
    s.trail.dom().contains(negate(lit)) && s.trail[negate(lit)] <= k
}

/// The invariant holds before the search.
pub proof fn lemma_initial(names: Seq<Seq<char>>, clauses: Seq<Seq<u32>>)
    requires
        names.len() <= MAX_VARIABLES,
        forall|i: int| 0 <= i < clauses.len() ==> in_range(#[trigger] clauses[i], names.len() as int),
    ensures
        inv(initial(names, clauses)),
{
    let s = initial(names, clauses);
    assert(input(s) =~= clauses);
    assert(s.implications[0].len() == 0);
}

/// A restart keeps the invariant.
pub proof fn lemma_restart(s: Search)
    requires
        inv(s),
    ensures
        inv(restarted(s)),
{
    let t = restarted(s);
    assert(input(t) == input(s));
    assert(t.implications[0].len() == 0);
}

/// Counting a decision keeps the invariant.
pub proof fn lemma_counted(s: Search)
    requires
        inv(s),
    ensures
        inv(counted(s)),
{
    let t = counted(s);
    assert(input(t) == input(s));
    assert forall|k: int, j: int|
        0 <= k < t.implications.len() && 0 <= j < t.implications[k].len() implies record_ok(
        t,
        k,
        #[trigger] t.implications[k][j],
    ) by {
        assert(record_ok(s, k, s.implications[k][j]));
    }
}

/// Propagating a unit clause keeps the invariant.
pub proof fn lemma_propagate(s: Search, i: int)
    requires
        inv(s),
        0 <= i < s.clauses.len(),
        is_unit(s.trail, s.clauses[i]),
    ensures
        inv(propagated(s, i)),
{
    let t = propagated(s, i);
    let clause = s.clauses[i];
    let lit = free_literals(s.trail, clause)[0];
    let record = t.implications[s.level].last();
    lemma_unit_clause(s.trail, clause, 0);
    lemma_negate(lit);
    assert(input(t) == input(s));
    assert(in_range(clause, s.names.len() as int));
    let at = choose|at: int| 0 <= at < clause.len() && clause[at] == lit;
    assert(var_of(clause[at]) < s.names.len());
    assert(trail_ok(t)) by {
        assert forall|x: u32| #[trigger] t.trail.dom().contains(x) implies !t.trail.dom().contains(
            negate(x),
        ) && 0 <= t.trail[x] <= t.level && var_of(x) < t.names.len() by {
            lemma_negate(x);
            if x != lit {
                assert(s.trail.dom().contains(x));
            }
        }
        assert forall|k: int| 0 <= k < t.decisions.len() implies t.trail.dom().contains(
            #[trigger] t.decisions[k],
        ) && t.trail[t.decisions[k]] == k + 1 by {
            assert(s.trail.dom().contains(s.decisions[k]));
        }
    }
    assert(record_ok(t, s.level, record)) by {
        assert forall|k: int|
            0 <= k < clause.len() && #[trigger] clause[k] != lit implies t.trail.dom().contains(
            negate(clause[k]),
        ) && t.trail[negate(clause[k])] <= s.level by {
            lemma_unit_clause(s.trail, clause, k);
            assert(s.trail.dom().contains(negate(clause[k])));
        }
    }
    assert(records_ok(t)) by {
        assert forall|k: int, j: int|
            0 <= k < t.implications.len() && 0 <= j < t.implications[k].len() implies record_ok(
            t,
            k,
            #[trigger] t.implications[k][j],
        ) by {
            if k == s.level && j == s.implications[k].len() {
            } else {
                let r = s.implications[k][j];
                assert(record_ok(s, k, r));
                assert(t.implications[k][j] == r);
                assert forall|q: int|
                    0 <= q < r.clause.len() && #[trigger] r.clause[q] != r.literal implies others_false(
                    t,
                    k,
                    r.clause[q],
                ) by {
                    assert(s.trail.dom().contains(negate(r.clause[q])));
                }
            }
        }
        assert forall|k: int, a: int, b: int|
            0 <= k < t.implications.len() && 0 <= a <= b < t.implications[k].len() implies !(
            #[trigger] t.implications[k][a]).clause.contains(
            negate((#[trigger] t.implications[k][b]).literal),
        ) by {
            if k == s.level && b == s.implications[k].len() {
                let r = t.implications[k][a];
                if r.clause.contains(negate(lit)) {
                    let q = choose|q: int| 0 <= q < r.clause.len() && r.clause[q] == negate(lit);
                    if a == b {
                        lemma_unit_clause(s.trail, clause, q);
                    } else {
                        assert(record_ok(s, k, s.implications[k][a]));
                        assert(r.clause[q] != r.literal);
                        assert(s.trail.dom().contains(negate(r.clause[q])));
                    }
                }
            } else {
                assert(t.implications[k][a] == s.implications[k][a]);
                assert(t.implications[k][b] == s.implications[k][b]);
            }
        }
        assert forall|x: u32| #[trigger] t.trail.dom().contains(x) && t.trail[x] >= 1 implies x
            == t.decisions[t.trail[x] - 1] || has_record(t.implications[t.trail[x] as int], x) by {
            if x == lit {
                assert(t.implications[s.level][s.implications[s.level].len() as int].literal == lit);
            } else {
                let k = s.trail[x] as int;
                if has_record(s.implications[k], x) {
                    let j = choose|j: int|
                        0 <= j < s.implications[k].len() && (#[trigger] s.implications[k][j]).literal
                            == x;
                    assert(t.implications[k][j].literal == x);
                }
            }
        }
    }
    assert(knowledge_ok(t)) by {
        assert forall|m: Set<int>, x: u32|
            #[trigger] models(m, input(t)) && #[trigger] t.trail.dom().contains(x) && t.trail[x]
                == 0 implies lit_holds(m, x) by {
            if x == lit {
                assert(entails(input(s), s.clauses[i]));
                let q = choose|q: int| 0 <= q < clause.len() && lit_holds(m, #[trigger] clause[q]);
                if clause[q] != lit {
                    lemma_unit_clause(s.trail, clause, q);
                    assert(s.trail.dom().contains(negate(clause[q])));
                    lemma_negation_flips(m, clause[q]);
                }
            } else {
                assert(s.trail.dom().contains(x));
            }
        }
        if s.finished && s.satisfiable {
            assert(satisfied(s.trail, s.clauses[i]));
        }
    }
}

/// A falsified clause at level 0 shows that the input is unsatisfiable.
pub proof fn lemma_conflict_at_root(s: Search, i: int)
    requires
        inv(s),
        s.level == 0,
        0 <= i < s.clauses.len(),
        is_conflict(s.trail, s.clauses[i]),
    ensures
        unsatisfiable(input(s)),
        inv(refuted(s)),
{
    let clause = s.clauses[i];
    assert forall|m: Set<int>| !#[trigger] models(m, input(s)) by {
        if models(m, input(s)) {
            assert(entails(input(s), s.clauses[i]));
            let q = choose|q: int| 0 <= q < clause.len() && lit_holds(m, #[trigger] clause[q]);
            lemma_conflict_clause(s.trail, clause, q);
            assert(s.trail.dom().contains(negate(clause[q])));
            lemma_negation_flips(m, clause[q]);
        }
    }
    assert(input(refuted(s)) == input(s));
}

/// The assertion level of any clause lies below the current level, once a
/// decision has been made.
pub proof fn lemma_assertion_level_below(s: Search, clause: Seq<u32>)
    requires
        inv(s),
        s.level >= 1,
    ensures
        -1 <= assertion_level(s.trail, clause) < s.level,
{
    let n = clause.len() as int;
    let top = highest(s.trail, clause);
    lemma_highest_below(s.trail, clause, n, i32::MAX + 1, 0);
    lemma_highest_below(s.trail, clause, n, top, 0);
    if top >= 0 {
        let k = choose|k: int|
            0 <= k < n && level_of(s.trail, #[trigger] clause[k]) == Some(top as i32);
        lemma_negate(clause[k]);
        if s.trail.dom().contains(clause[k]) {
        } else {
            assert(s.trail.dom().contains(negate(clause[k])));
        }
    }
}

/// A learned clause without an assertion level shows that the input is
/// unsatisfiable.
pub proof fn lemma_learned_refutes(s: Search, clause: Seq<u32>)
    requires
        inv(s),
        learned_ok(s, clause),
        assertion_level(s.trail, clause) < 0,
    ensures
        unsatisfiable(input(s)),
        inv(refuted(s)),
{
    let kept = clause.filter(falsified(s.trail));
    let n = clause.len() as int;
    assert forall|m: Set<int>| !#[trigger] models(m, input(s)) by {
        if models(m, input(s)) {
            assert(clause_holds(m, kept));
            let a = choose|a: int| 0 <= a < kept.len() && lit_holds(m, #[trigger] kept[a]);
            let f = kept[a];
            assert(kept.contains(f));
            lemma_filter_mem(clause, falsified(s.trail), f);
            let q = choose|q: int| 0 <= q < clause.len() && clause[q] == f;
            lemma_negate(f);
            let t = negate(f);
            assert(s.trail.dom().contains(t));
            assert(level_of(s.trail, f) == Some(s.trail[t]));
            lemma_highest_below(s.trail, clause, n, i32::MAX + 1, q);
            lemma_highest_below(s.trail, clause, n, highest(s.trail, clause), q);
            assert(s.trail[t] == 0);
            lemma_negation_flips(m, f);
        }
    }
    assert(input(refuted(s)) == input(s));
}

/// Learning a clause and jumping back keeps the invariant.
pub proof fn lemma_backjump(s: Search, i: int, clause: Seq<u32>, level: int)
    requires
        inv(s),
        0 <= i < s.clauses.len(),
        is_conflict(s.trail, s.clauses[i]),
        learned_ok(s, clause),
        0 <= level < s.level,
    ensures
        inv(backjumped(s, clause, level)),
{
    let t = backjumped(s, clause, level);
    lemma_learned_entailed(s, clause);
    assert(input(t) =~= input(s));
    assert(shape_ok(t)) by {
        assert forall|k: int| 0 <= k < t.clauses.len() implies in_range(
            #[trigger] t.clauses[k],
            t.names.len() as int,
        ) by {
            if k < s.clauses.len() {
                assert(t.clauses[k] == s.clauses[k]);
            }
        }
    }
    assert(trail_ok(t)) by {
        assert forall|x: u32| #[trigger] t.trail.dom().contains(x) implies !t.trail.dom().contains(
            negate(x),
        ) && 0 <= t.trail[x] <= t.level && var_of(x) < t.names.len() by {
            assert(s.trail.dom().contains(x));
        }
        assert forall|k: int| 0 <= k < t.decisions.len() implies t.trail.dom().contains(
            #[trigger] t.decisions[k],
        ) && t.trail[t.decisions[k]] == k + 1 by {
            assert(s.trail.dom().contains(s.decisions[k]));
        }
    }
    assert(records_ok(t)) by {
        assert forall|k: int, j: int|
            0 <= k < t.implications.len() && 0 <= j < t.implications[k].len() implies record_ok(
            t,
            k,
            #[trigger] t.implications[k][j],
        ) by {
            let r = s.implications[k][j];
            assert(record_ok(s, k, r));
            assert forall|q: int|
                0 <= q < r.clause.len() && #[trigger] r.clause[q] != r.literal implies others_false(
                t,
                k,
                r.clause[q],
            ) by {
                assert(s.trail.dom().contains(negate(r.clause[q])));
            }
        }
        assert forall|k: int, a: int, b: int|
            0 <= k < t.implications.len() && 0 <= a <= b < t.implications[k].len() implies !(
            #[trigger] t.implications[k][a]).clause.contains(
            negate((#[trigger] t.implications[k][b]).literal),
        ) by {
            assert(t.implications[k][a] == s.implications[k][a]);
            assert(t.implications[k][b] == s.implications[k][b]);
        }
        assert forall|x: u32| #[trigger] t.trail.dom().contains(x) && t.trail[x] >= 1 implies x
            == t.decisions[t.trail[x] - 1] || has_record(t.implications[t.trail[x] as int], x) by {
            assert(s.trail.dom().contains(x));
            let k = s.trail[x] as int;
            if has_record(s.implications[k], x) {
                let j = choose|j: int|
                    0 <= j < s.implications[k].len() && (#[trigger] s.implications[k][j]).literal
                        == x;
                assert(t.implications[k][j].literal == x);
            }
        }
    }
    assert(knowledge_ok(t)) by {
        assert forall|k: int| 0 <= k < t.clauses.len() implies entails(
            input(t),
            #[trigger] t.clauses[k],
        ) by {
            if k < s.clauses.len() {
                assert(t.clauses[k] == s.clauses[k]);
            }
        }
        assert forall|m: Set<int>, x: u32|
            #[trigger] models(m, input(t)) && #[trigger] t.trail.dom().contains(x) && t.trail[x]
                == 0 implies lit_holds(m, x) by {
            assert(s.trail.dom().contains(x));
        }
        if s.finished && s.satisfiable {
            assert(satisfied(s.trail, s.clauses[i]));
        }
    }
}

/// Reaching the verdict "satisfiable" keeps the invariant.
pub proof fn lemma_confirm(s: Search)
    requires
        inv(s),
        all_satisfied(s.trail, s.clauses),
    ensures
        inv(confirmed(s)),
{
    assert(input(confirmed(s)) == input(s));
}

/// One propagation pass keeps the invariant.
pub proof fn lemma_step(s: Search)
    requires
        inv(s),
    ensures
        inv(step(s).0),
{
    let i = first_active(s.trail, s.clauses, 0);
    lemma_first_active(s.trail, s.clauses, 0);
    if i >= s.clauses.len() {
        if all_satisfied(s.trail, s.clauses) {
            lemma_confirm(s);
        }
    } else if is_unit(s.trail, s.clauses[i]) {
        lemma_propagate(s, i);
    } else if s.level == 0 {
        lemma_conflict_at_root(s, i);
    } else {
        let clause = learned_clause(s, s.clauses[i]);
        let level = assertion_level(s.trail, clause);
        assert(entails(input(s), s.clauses[i]));
        lemma_learned_clause(s, s.clauses[i]);
        lemma_assertion_level_below(s, clause);
        if level < 0 {
            lemma_learned_refutes(s, clause);
        } else {
            lemma_backjump(s, i, clause, level);
        }
    }
}

/// The variables of the decisions are pairwise distinct, so there are no
/// more decisions than set variables: with a variable still unset, the level
/// is below the number of variables.
pub proof fn lemma_level_below_variables(s: Search, free: int)
    requires
        inv(s),
        0 <= free < s.names.len(),
        unassigned(s.trail, free),
    ensures
        s.level < s.names.len(),
{
    let vars = s.decisions.map_values(|lit: u32| var_of(lit));
    assert forall|a: int, b: int| 0 <= a < vars.len() && 0 <= b < vars.len() && a != b implies vars[a]
        != vars[b] by {
        assert(s.trail.dom().contains(s.decisions[a]));
        assert(s.trail.dom().contains(s.decisions[b]));
        if vars[a] == vars[b] {
            lemma_same_variable(s.decisions[a], s.decisions[b]);
        }
    }
    assert(vars.no_duplicates());
    vars.unique_seq_to_set();
    let others = vstd::set_lib::set_int_range(0, s.names.len() as int).remove(free);
    vstd::set_lib::lemma_int_range(0, s.names.len() as int);
    assert forall|v: int| vars.to_set().contains(v) implies others.contains(v) by {
        let a = choose|a: int| 0 <= a < vars.len() && vars[a] == v;
        assert(s.trail.dom().contains(s.decisions[a]));
    }
    vstd::set_lib::lemma_len_subset(vars.to_set(), others);
}

/// Deciding a literal of an unset variable keeps the invariant.
pub proof fn lemma_decide(s: Search, lit: u32)
    requires
        inv(s),
        var_of(lit) < s.names.len(),
        unassigned(s.trail, var_of(lit)),
    ensures
        s.level < s.names.len(),
        inv(decided(s, lit)),
{
    let t = decided(s, lit);
    lemma_level_below_variables(s, var_of(lit));
    lemma_negate(lit);
    assert(input(t) == input(s));
    assert(!s.trail.dom().contains(lit));
    assert(!s.trail.dom().contains(negate(lit)));
    assert(trail_ok(t)) by {
        assert forall|x: u32| #[trigger] t.trail.dom().contains(x) implies !t.trail.dom().contains(
            negate(x),
        ) && 0 <= t.trail[x] <= t.level && var_of(x) < t.names.len() by {
            lemma_negate(x);
            if x != lit {
                assert(s.trail.dom().contains(x));
            }
        }
        assert forall|k: int| 0 <= k < t.decisions.len() implies t.trail.dom().contains(
            #[trigger] t.decisions[k],
        ) && t.trail[t.decisions[k]] == k + 1 by {
            if k < s.decisions.len() {
                assert(s.trail.dom().contains(s.decisions[k]));
            }
        }
    }
    assert(records_ok(t)) by {
        assert forall|k: int, j: int|
            0 <= k < t.implications.len() && 0 <= j < t.implications[k].len() implies record_ok(
            t,
            k,
            #[trigger] t.implications[k][j],
        ) by {
            let r = s.implications[k][j];
            assert(record_ok(s, k, r));
            assert forall|q: int|
                0 <= q < r.clause.len() && #[trigger] r.clause[q] != r.literal implies others_false(
                t,
                k,
                r.clause[q],
            ) by {
                assert(s.trail.dom().contains(negate(r.clause[q])));
            }
        }
        assert forall|k: int, a: int, b: int|
            0 <= k < t.implications.len() && 0 <= a <= b < t.implications[k].len() implies !(
            #[trigger] t.implications[k][a]).clause.contains(
            negate((#[trigger] t.implications[k][b]).literal),
        ) by {
            assert(t.implications[k][a] == s.implications[k][a]);
            assert(t.implications[k][b] == s.implications[k][b]);
        }
        assert forall|x: u32| #[trigger] t.trail.dom().contains(x) && t.trail[x] >= 1 implies x
            == t.decisions[t.trail[x] - 1] || has_record(t.implications[t.trail[x] as int], x) by {
            if x != lit {
                assert(s.trail.dom().contains(x));
                let k = s.trail[x] as int;
                if has_record(s.implications[k], x) {
                    let j = choose|j: int|
                        0 <= j < s.implications[k].len() && (
                        #[trigger] s.implications[k][j]).literal == x;
                    assert(t.implications[k][j].literal == x);
                }
            }
        }
    }
    assert(knowledge_ok(t)) by {
        assert forall|m: Set<int>, x: u32|
            #[trigger] models(m, input(t)) && #[trigger] t.trail.dom().contains(x) && t.trail[x]
                == 0 implies lit_holds(m, x) by {
            assert(s.trail.dom().contains(x));
        }
        if s.finished && s.satisfiable {
            assert forall|k: int| 0 <= k < t.clauses.len() implies satisfied(
                t.trail,
                #[trigger] t.clauses[k],
            ) by {
                assert(satisfied(s.trail, s.clauses[k]));
                let q = choose|q: int|
                    0 <= q < s.clauses[k].len() && is_true(s.trail, #[trigger] s.clauses[k][q]);
                assert(is_true(t.trail, t.clauses[k][q]));
            }
        }
    }
}

/// A run that can pass from `s` to `next` and end from there in `end`, with
/// one pass less, can end in `end` from `s`.
pub proof fn lemma_run_goes_on(s: Search, passes: nat, restart_after: int, next: Search, end: Search)
    requires
        passes > 0,
        !s.finished,
        passes_to(s, restart_after, next),
        runs_to(next, (passes - 1) as nat, restart_after, end),
    ensures
        runs_to(s, passes, restart_after, end),
{
}

} // verus!
