//! Why conflict analysis is sound: the working clause stays entailed by the
//! input while it is resolved with the implication records of the conflict
//! level, and so is the clause that is learned in the end.

use crate::clause_lemmas::{lemma_conflict_clause, lemma_filter_mem, lemma_resolve_mem};
use crate::literal::{lemma_negate, negate, var_of};
use crate::search::{
    analysis, fallback, falsified, has_record, in_range, input, inv, is_conflict, is_false,
    is_true, learned_clause, level_of, record_ok, resolve, survives, Implication, Search,
};
use crate::semantics::{clause_holds, entails, lemma_weaken, lit_holds, models};
use vstd::prelude::*;

verus! {

/// One of the records from index `n` on forced `lit`.
pub open spec fn processed(records: Seq<Implication>, n: int, lit: u32) -> bool {
    exists|j: int| n <= j < records.len() && (#[trigger] records[j]).literal == lit
}

/// What holds of the working clause once the records of the current level
/// from index `n` on have been resolved into it: each of its literals is
/// falsified or was forced by one of those records; its falsified literals
/// alone form a clause that the input entails; and it holds the negation of
/// none of the literals that those records forced.
pub open spec fn working_ok(s: Search, n: int, working: Seq<u32>) -> bool {
    let records = s.implications[s.level];
    &&& forall|i: int|
        0 <= i < working.len() ==> is_false(s.trail, #[trigger] working[i]) || processed(
            records,
            n,
            working[i],
        )
    &&& entails(input(s), working.filter(falsified(s.trail)))
    &&& forall|j: int|
        n <= j < records.len() ==> !working.contains(negate((#[trigger] records[j]).literal))
}

/// What holds of a learned clause: the variable of each of its literals is
/// set, and its falsified literals alone form a clause that the input entails.
pub open spec fn learned_ok(s: Search, clause: Seq<u32>) -> bool {
    &&& forall|i: int|
        0 <= i < clause.len() ==> is_false(s.trail, #[trigger] clause[i]) || is_true(
            s.trail,
            clause[i],
        )
    &&& entails(input(s), clause.filter(falsified(s.trail)))
}

/// A clause that the input entails and whose literals are all falsified is a
/// working clause to start the analysis with.
pub proof fn lemma_analysis_start(s: Search, conflict: Seq<u32>)
    requires
        inv(s),
        is_conflict(s.trail, conflict),
        entails(input(s), conflict),
    ensures
        working_ok(s, s.implications[s.level].len() as int, conflict),
{
    let kept = conflict.filter(falsified(s.trail));
    assert forall|i: int| 0 <= i < conflict.len() implies is_false(s.trail, #[trigger] conflict[i])
        && kept.contains(conflict[i]) by {
        lemma_conflict_clause(s.trail, conflict, i);
        lemma_filter_mem(conflict, falsified(s.trail), conflict[i]);
        assert(conflict.contains(conflict[i]));
    }
    assert forall|m: Set<int>| #[trigger] models(m, input(s)) implies clause_holds(m, kept) by {
        lemma_weaken(m, conflict, kept);
    }
}

/// Resolving the working clause with the record before index `n` keeps what
/// holds of it.
pub proof fn lemma_analysis_step(s: Search, n: int, working: Seq<u32>)
    requires
        inv(s),
        1 <= n <= s.implications[s.level].len(),
        working_ok(s, n, working),
    ensures
        working_ok(s, n - 1, resolve(working, s.implications[s.level][n - 1].clause)),
{
    let records = s.implications[s.level];
    let r = records[n - 1];
    let next = resolve(working, r.clause);
    assert(record_ok(s, s.level, s.implications[s.level][n - 1]));
    assert forall|i: int| 0 <= i < next.len() implies is_false(s.trail, #[trigger] next[i])
        || processed(records, n - 1, next[i]) by {
        let x = next[i];
        assert(next.contains(x));
        lemma_resolve_mem(working, r.clause, x);
        if working.contains(x) && !r.clause.contains(negate(x)) {
            let k = choose|k: int| 0 <= k < working.len() && working[k] == x;
            assert(is_false(s.trail, working[k]) || processed(records, n, working[k]));
            if processed(records, n, x) {
                let j = choose|j: int| n <= j < records.len() && (#[trigger] records[j]).literal == x;
                assert(records[j].literal == x);
            }
        } else {
            let k = choose|k: int| 0 <= k < r.clause.len() && r.clause[k] == x;
            if x == r.literal {
                assert(records[n - 1].literal == x);
            } else {
                assert(r.clause[k] != r.literal);
            }
        }
    }
    assert forall|j: int| n - 1 <= j < records.len() implies !next.contains(
        negate((#[trigger] records[j]).literal),
    ) by {
        let y = negate(records[j].literal);
        lemma_negate(records[j].literal);
        lemma_resolve_mem(working, r.clause, y);
        assert(!s.implications[s.level][n - 1].clause.contains(
            negate(s.implications[s.level][j].literal),
        ));
    }
    assert forall|m: Set<int>| #[trigger] models(m, input(s)) implies clause_holds(
        m,
        next.filter(falsified(s.trail)),
    ) by {
        let kept = working.filter(falsified(s.trail));
        assert(clause_holds(m, kept));
        let a = choose|a: int| 0 <= a < kept.len() && lit_holds(m, #[trigger] kept[a]);
        let f = kept[a];
        assert(kept.contains(f));
        lemma_filter_mem(working, falsified(s.trail), f);
        assert(clause_holds(m, r.clause));
        let b = choose|b: int| 0 <= b < r.clause.len() && lit_holds(m, #[trigger] r.clause[b]);
        let r0 = r.clause[b];
        assert(r.clause.contains(r0));
        lemma_resolve_mem(working, r.clause, f);
        lemma_resolve_mem(working, r.clause, r0);
        lemma_negate(f);
        lemma_negate(r0);
        let witness = if !r.clause.contains(negate(f)) {
            f
        } else {
            r0
        };
        if r.clause.contains(negate(f)) {
            let k = choose|k: int| 0 <= k < r.clause.len() && r.clause[k] == negate(f);
            assert(s.trail.dom().contains(negate(f)));
            if r.clause[k] != r.literal {
                assert(s.trail.dom().contains(negate(r.clause[k])));
            }
            assert(negate(f) == r.literal);
            assert(r0 != r.literal);
            assert(r.clause[b] != r.literal);
            assert(is_false(s.trail, r0));
            if working.contains(negate(r0)) {
                let kk = choose|kk: int| 0 <= kk < working.len() && working[kk] == negate(r0);
                assert(is_false(s.trail, working[kk]) || processed(records, n, working[kk]));
                assert(s.trail.dom().contains(negate(r0)));
                assert(!is_false(s.trail, negate(r0)));
                let j = choose|j: int|
                    n <= j < records.len() && (#[trigger] records[j]).literal == negate(r0);
                assert(!s.implications[s.level][n - 1].clause.contains(
                    negate(s.implications[s.level][j].literal),
                ));
            }
        }
        assert(next.contains(witness));
        assert(is_false(s.trail, witness));
        assert(lit_holds(m, witness));
        lemma_filter_mem(next, falsified(s.trail), witness);
        let kept_next = next.filter(falsified(s.trail));
        let c = choose|c: int| 0 <= c < kept_next.len() && kept_next[c] == witness;
        assert(lit_holds(m, kept_next[c]));
    }
}

/// A working clause is a learned clause as it stands.
pub proof fn lemma_working_is_learned(s: Search, n: int, working: Seq<u32>)
    requires
        inv(s),
        0 <= n,
        working_ok(s, n, working),
    ensures
        learned_ok(s, working),
{
    let records = s.implications[s.level];
    assert forall|i: int| 0 <= i < working.len() implies is_false(s.trail, #[trigger] working[i])
        || is_true(s.trail, working[i]) by {
        if processed(records, n, working[i]) {
            let j = choose|j: int|
                n <= j < records.len() && (#[trigger] records[j]).literal == working[i];
            assert(record_ok(s, s.level, s.implications[s.level][j]));
        }
    }
}

/// The analysis ends with a learned clause; if it ends without a single
/// literal of the current level, every record has been resolved.
pub proof fn lemma_analysis(s: Search, n: int, working: Seq<u32>)
    requires
        inv(s),
        0 <= n <= s.implications[s.level].len(),
        working_ok(s, n, working),
    ensures
        learned_ok(s, analysis(s.trail, s.level, s.implications[s.level], n, working).0),
        !analysis(s.trail, s.level, s.implications[s.level], n, working).1 ==> working_ok(
            s,
            0,
            analysis(s.trail, s.level, s.implications[s.level], n, working).0,
        ),
    decreases n,
{
    if n <= 0 {
        lemma_working_is_learned(s, n, working);
    } else {
        let next = resolve(working, s.implications[s.level][n - 1].clause);
        lemma_analysis_step(s, n, working);
        lemma_working_is_learned(s, n - 1, next);
        lemma_analysis(s, n - 1, next);
    }
}

/// Once every record of the current level has been resolved, the fallback
/// filter drops no falsified literal, so what it leaves is a learned clause.
pub proof fn lemma_fallback(s: Search, working: Seq<u32>)
    requires
        inv(s),
        s.level >= 1,
        working_ok(s, 0, working),
    ensures
        learned_ok(s, fallback(s.trail, s.level, s.decisions.last(), working)),
{
    let records = s.implications[s.level];
    let decision = s.decisions.last();
    let keep = survives(s.trail, s.level, decision);
    let left = fallback(s.trail, s.level, decision, working);
    let kept = working.filter(falsified(s.trail));
    let kept_left = left.filter(falsified(s.trail));
    lemma_working_is_learned(s, 0, working);
    assert forall|i: int| 0 <= i < left.len() implies is_false(s.trail, #[trigger] left[i])
        || is_true(s.trail, left[i]) by {
        assert(left.contains(left[i]));
        lemma_filter_mem(working, keep, left[i]);
        let k = choose|k: int| 0 <= k < working.len() && working[k] == left[i];
        assert(is_false(s.trail, working[k]) || is_true(s.trail, working[k]));
    }
    assert forall|i: int| 0 <= i < kept.len() implies kept_left.contains(#[trigger] kept[i]) by {
        let f = kept[i];
        assert(kept.contains(f));
        lemma_filter_mem(working, falsified(s.trail), f);
        lemma_negate(f);
        let t = negate(f);
        assert(s.trail.dom().contains(t));
        assert(!s.trail.dom().contains(f));
        assert(level_of(s.trail, f) == Some(s.trail[t]));
        if s.trail[t] == s.level {
            if has_record(s.implications[s.trail[t] as int], t) {
                let j = choose|j: int| 0 <= j < records.len() && (#[trigger] records[j]).literal == t;
                assert(!working.contains(negate(records[j].literal)));
            }
            assert(t == s.decisions[s.trail[t] - 1]);
        }
        assert(keep(f));
        lemma_filter_mem(working, keep, f);
        lemma_filter_mem(left, falsified(s.trail), f);
    }
    assert forall|m: Set<int>| #[trigger] models(m, input(s)) implies clause_holds(m, kept_left) by {
        lemma_weaken(m, kept, kept_left);
    }
}

/// The clause learned from a falsified clause of the database is a learned
/// clause.
pub proof fn lemma_learned_clause(s: Search, conflict: Seq<u32>)
    requires
        inv(s),
        s.level >= 1,
        is_conflict(s.trail, conflict),
        entails(input(s), conflict),
    ensures
        learned_ok(s, learned_clause(s, conflict)),
{
    let records = s.implications[s.level];
    lemma_analysis_start(s, conflict);
    lemma_analysis(s, records.len() as int, conflict);
    let (working, found) = analysis(s.trail, s.level, records, records.len() as int, conflict);
    if !found {
        lemma_fallback(s, working);
    }
}

/// The input entails a learned clause, and the clause speaks of known
/// variables only.
pub proof fn lemma_learned_entailed(s: Search, clause: Seq<u32>)
    requires
        inv(s),
        learned_ok(s, clause),
    ensures
        entails(input(s), clause),
        in_range(clause, s.names.len() as int),
{
    let kept = clause.filter(falsified(s.trail));
    assert forall|i: int| 0 <= i < kept.len() implies clause.contains(#[trigger] kept[i]) by {
        assert(kept.contains(kept[i]));
        lemma_filter_mem(clause, falsified(s.trail), kept[i]);
    }
    assert forall|m: Set<int>| #[trigger] models(m, input(s)) implies clause_holds(m, clause) by {
        lemma_weaken(m, kept, clause);
    }
    assert forall|i: int| 0 <= i < clause.len() implies var_of(#[trigger] clause[i])
        < s.names.len() by {
        lemma_negate(clause[i]);
        if is_false(s.trail, clause[i]) {
            assert(s.trail.dom().contains(negate(clause[i])));
        } else {
            assert(s.trail.dom().contains(clause[i]));
        }
    }
}

} // verus!
