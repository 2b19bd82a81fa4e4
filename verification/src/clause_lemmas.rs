//! Facts about the operations of the model on clauses and variables:
//! filtering, the free literals of a clause, resolution, the levels of a
//! clause, and the search for an unset variable.

use crate::literal::{lemma_same_variable, negate, var_of, MAX_VARIABLES};
use crate::search::{
    first_active, first_unset, free_literals, highest_below, is_active, is_false, is_true,
    level_of, merged, no_clash, not_false, resolve, satisfied, unassigned,
};
use vstd::prelude::*;

verus! {

/// A filtered sequence holds exactly the elements that pass the predicate.
pub proof fn lemma_filter_mem<A>(s: Seq<A>, pred: spec_fn(A) -> bool, x: A)
    ensures
        s.filter(pred).contains(x) <==> s.contains(x) && pred(x),
    decreases s.len(),
{
    reveal(Seq::filter);
    if s.len() == 0 {
    } else {
        let rest = s.drop_last();
        lemma_filter_mem(rest, pred, x);
        if s.filter(pred).contains(x) {
            let i = choose|i: int| 0 <= i < s.filter(pred).len() && s.filter(pred)[i] == x;
            if pred(s.last()) && i == rest.filter(pred).len() {
                assert(s[s.len() - 1] == x);
            } else {
                assert(rest.filter(pred)[i] == x);
                let j = choose|j: int| 0 <= j < rest.len() && rest[j] == x;
                assert(s[j] == x);
            }
        }
        if s.contains(x) && pred(x) {
            let j = choose|j: int| 0 <= j < s.len() && s[j] == x;
            if j == s.len() - 1 {
                assert(s.filter(pred)[rest.filter(pred).len() as int] == x);
            } else {
                assert(rest[j] == x);
                let i = choose|i: int| 0 <= i < rest.filter(pred).len() && rest.filter(pred)[i] == x;
                assert(s.filter(pred)[i] == x);
            }
        }
    }
}

/// A filter that keeps nothing rejects every element.
pub proof fn lemma_filter_empty<A>(s: Seq<A>, pred: spec_fn(A) -> bool, i: int)
    requires
        s.filter(pred).len() == 0,
        0 <= i < s.len(),
    ensures
        !pred(s[i]),
{
    lemma_filter_mem(s, pred, s[i]);
    assert(s.contains(s[i]));
    if pred(s[i]) {
        let k = choose|k: int| 0 <= k < s.filter(pred).len() && s.filter(pred)[k] == s[i];
    }
}

/// A filter that keeps one element rejects every element that differs from it.
pub proof fn lemma_filter_single<A>(s: Seq<A>, pred: spec_fn(A) -> bool, i: int)
    requires
        s.filter(pred).len() == 1,
        0 <= i < s.len(),
    ensures
        pred(s[i]) ==> s[i] == s.filter(pred)[0],
        s.contains(s.filter(pred)[0]),
        pred(s.filter(pred)[0]),
{
    lemma_filter_mem(s, pred, s[i]);
    assert(s.contains(s[i]));
    if pred(s[i]) {
        let k = choose|k: int| 0 <= k < s.filter(pred).len() && s.filter(pred)[k] == s[i];
    }
    assert(s.filter(pred).contains(s.filter(pred)[0]));
    lemma_filter_mem(s, pred, s.filter(pred)[0]);
}

/// The free literal of a unit clause occurs in the clause and its variable is
/// unset; every other literal of the clause is falsified.
pub proof fn lemma_unit_clause(trail: Map<u32, i32>, clause: Seq<u32>, i: int)
    requires
        !satisfied(trail, clause),
        free_literals(trail, clause).len() == 1,
        0 <= i < clause.len(),
    ensures
        clause.contains(free_literals(trail, clause)[0]),
        !is_false(trail, free_literals(trail, clause)[0]),
        !is_true(trail, free_literals(trail, clause)[0]),
        clause[i] != free_literals(trail, clause)[0] ==> is_false(trail, clause[i]),
{
    lemma_filter_single(clause, not_false(trail), i);
    let lit = free_literals(trail, clause)[0];
    let k = choose|k: int| 0 <= k < clause.len() && clause[k] == lit;
    assert(!is_true(trail, clause[k]));
}

/// Every literal of a falsified clause is falsified.
pub proof fn lemma_conflict_clause(trail: Map<u32, i32>, clause: Seq<u32>, i: int)
    requires
        free_literals(trail, clause).len() == 0,
        0 <= i < clause.len(),
    ensures
        is_false(trail, clause[i]),
{
    lemma_filter_empty(clause, not_false(trail), i);
}

/// The first active clause at or after `from` is active, lies in range, and
/// nothing between `from` and it is active.
pub proof fn lemma_first_active(trail: Map<u32, i32>, clauses: Seq<Seq<u32>>, from: int)
    requires
        0 <= from <= clauses.len(),
    ensures
        from <= first_active(trail, clauses, from) <= clauses.len(),
        first_active(trail, clauses, from) < clauses.len() ==> is_active(
            trail,
            clauses[first_active(trail, clauses, from)],
        ),
        forall|j: int|
            from <= j < first_active(trail, clauses, from) ==> !is_active(trail, #[trigger] clauses[j]),
    decreases clauses.len() - from,
{
    if from < clauses.len() && !is_active(trail, clauses[from]) {
        lemma_first_active(trail, clauses, from + 1);
    }
}

/// If nothing from `from` up to `at` is active and `at` is active or the end,
/// then `at` is the first active clause from `from`.
pub proof fn lemma_first_active_is(trail: Map<u32, i32>, clauses: Seq<Seq<u32>>, from: int, at: int)
    requires
        0 <= from <= at <= clauses.len(),
        forall|j: int| from <= j < at ==> !is_active(trail, #[trigger] clauses[j]),
        at < clauses.len() ==> is_active(trail, clauses[at]),
    ensures
        first_active(trail, clauses, from) == at,
    decreases at - from,
{
    if from < at {
        lemma_first_active_is(trail, clauses, from + 1, at);
    }
}

/// What the extended working clause holds: the literals of `partial` that do
/// not clash with `current`, and those of the first `n` literals of `current`
/// that do not clash with `partial`.
pub proof fn lemma_merged_mem(partial: Seq<u32>, current: Seq<u32>, n: int, x: u32)
    requires
        0 <= n <= current.len(),
    ensures
        merged(partial, current, n).contains(x) <==> (partial.contains(x) && !current.contains(
            negate(x),
        )) || (current.take(n).contains(x) && !partial.contains(negate(x))),
    decreases n,
{
    if n == 0 {
        lemma_filter_mem(partial, no_clash(current), x);
        assert(current.take(0).len() == 0);
    } else {
        lemma_merged_mem(partial, current, n - 1, x);
        let before = merged(partial, current, n - 1);
        let lit = current[n - 1];
        assert(current.take(n) =~= current.take(n - 1).push(lit));
        assert(current.take(n).contains(x) <==> current.take(n - 1).contains(x) || x == lit) by {
            if current.take(n - 1).contains(x) {
                let shorter = current.take(n - 1);
                let k = choose|k: int| 0 <= k < shorter.len() && shorter[k] == x;
                assert(current.take(n)[k] == x);
            }
            if x == lit {
                assert(current.take(n)[n - 1] == x);
            }
        }
        if !partial.contains(negate(lit)) && !before.contains(lit) {
            assert(before.push(lit).contains(x) <==> before.contains(x) || x == lit) by {
                if before.contains(x) {
                    let k = choose|k: int| 0 <= k < before.len() && before[k] == x;
                    assert(before.push(lit)[k] == x);
                }
                if x == lit {
                    assert(before.push(lit)[before.len() as int] == x);
                }
            }
        }
    }
}

/// What a resolvent holds: the literals of either clause whose negation is
/// not in the other.
pub proof fn lemma_resolve_mem(partial: Seq<u32>, current: Seq<u32>, x: u32)
    ensures
        resolve(partial, current).contains(x) <==> (partial.contains(x) && !current.contains(
            negate(x),
        )) || (current.contains(x) && !partial.contains(negate(x))),
{
    lemma_merged_mem(partial, current, current.len() as int, x);
    assert(current.take(current.len() as int) =~= current);
}

/// The highest level below a bound is below the bound, is at least -1, and
/// is at least the level of every literal that is set below the bound.
pub proof fn lemma_highest_below(trail: Map<u32, i32>, clause: Seq<u32>, n: int, bound: int, i: int)
    requires
        0 <= n <= clause.len(),
    ensures
        -1 <= highest_below(trail, clause, n, bound),
        highest_below(trail, clause, n, bound) < bound || highest_below(trail, clause, n, bound)
            == -1,
        0 <= i < n ==> match level_of(trail, clause[i]) {
            Some(x) => x < bound ==> x <= highest_below(trail, clause, n, bound),
            None => true,
        },
        highest_below(trail, clause, n, bound) >= 0 ==> exists|k: int|
            0 <= k < n && level_of(trail, #[trigger] clause[k]) == Some(
                highest_below(trail, clause, n, bound) as i32,
            ),
    decreases n,
{
    if n > 0 {
        lemma_highest_below(trail, clause, n - 1, bound, i);
        let rest = highest_below(trail, clause, n - 1, bound);
        if rest >= 0 && highest_below(trail, clause, n, bound) == rest {
            let k = choose|k: int|
                0 <= k < n - 1 && level_of(trail, #[trigger] clause[k]) == Some(rest as i32);
            assert(level_of(trail, clause[k]) == Some(rest as i32));
        } else if highest_below(trail, clause, n, bound) >= 0 {
            assert(level_of(trail, clause[n - 1]) == Some(
                highest_below(trail, clause, n, bound) as i32,
            ));
        }
    }
}

/// A variable is unset exactly when neither of its two literals is asserted.
pub proof fn lemma_unassigned(trail: Map<u32, i32>, var: int)
    requires
        0 <= var <= MAX_VARIABLES,
    ensures
        unassigned(trail, var) <==> !trail.dom().contains((2 * var) as u32) && !trail.dom().contains(
            (2 * var + 1) as u32,
        ),
{
    let pos = (2 * var) as u32;
    let neg = (2 * var + 1) as u32;
    assert(var_of(pos) == var && var_of(neg) == var);
    if !trail.dom().contains(pos) && !trail.dom().contains(neg) {
        assert forall|lit: u32| #[trigger] trail.dom().contains(lit) implies var_of(lit) != var by {
            if var_of(lit) == var {
                lemma_same_variable(lit, pos);
            }
        }
    }
}

/// If no variable at fewer than `k` steps from `start` is unset, the first
/// unset variable is found from step `k` on.
pub proof fn lemma_first_unset(trail: Map<u32, i32>, n: int, start: int, k: int)
    requires
        0 <= k <= n,
        0 <= start < n,
        forall|j: int| 0 <= j < k ==> !unassigned(trail, #[trigger] ((start + j) % n)),
    ensures
        first_unset(trail, n, start, 0) == first_unset(trail, n, start, k),
    decreases k,
{
    if k > 0 {
        lemma_first_unset(trail, n, start, k - 1);
        assert(!unassigned(trail, (start + (k - 1)) % n));
    }
}

/// If no variable is unset within `n` steps from `start`, none is unset.
pub proof fn lemma_none_unset(trail: Map<u32, i32>, n: int, start: int, var: int)
    requires
        0 <= start < n,
        0 <= var < n,
        forall|j: int| 0 <= j < n ==> !unassigned(trail, #[trigger] ((start + j) % n)),
    ensures
        !unassigned(trail, var),
{
    let j = if var >= start {
        var - start
    } else {
        var - start + n
    };
    assert((start + j) % n == var) by {
        if var >= start {
            assert(start + j == var);
            vstd::arithmetic::div_mod::lemma_small_mod(var as nat, n as nat);
        } else {
            assert(start + j == var + n);
            vstd::arithmetic::div_mod::lemma_mod_add_multiples_vanish(var, n);
            vstd::arithmetic::div_mod::lemma_small_mod(var as nat, n as nat);
        }
    }
}

} // verus!
