//! The mathematical model of the solver: the search state, the classification
//! of clauses against the trail, conflict analysis, and the transitions that
//! the executable solver performs.

use crate::literal::{negate, var_of, MAX_VARIABLES};
use crate::semantics::{entails, lit_holds, models, unsatisfiable};
use vstd::prelude::*;

verus! {

/// Why a literal was forced: the literal, the trail literals that made its
/// clause unit, and that clause.
pub struct Implication {
    pub literal: u32,
    pub antecedents: Seq<u32>,
    pub clause: Seq<u32>,
}

/// The state of a search.
pub struct Search {
    /// The variable names; a variable's identifier is its index here.
    pub names: Seq<Seq<char>>,
    /// The clause database: the input clauses, then the learned ones.
    pub clauses: Seq<Seq<u32>>,
    /// How many clauses of the database are input clauses.
    pub input_count: int,
    /// The asserted literals, each with the decision level it was set at.
    pub trail: Map<u32, i32>,
    /// The decision literal of each level, level 1 first.
    pub decisions: Seq<u32>,
    /// The current decision level.
    pub level: int,
    /// For each level from 0 to the current one, what was propagated at it.
    pub implications: Seq<Seq<Implication>>,
    /// One more than the number of random decisions since the last restart;
    /// it stops at `u32::MAX`.
    pub decide_count: int,
    /// Whether a verdict was reached.
    pub finished: bool,
    /// The verdict, once finished.
    pub satisfiable: bool,
}

/// The formula that was given: the input clauses.
pub open spec fn input(s: Search) -> Seq<Seq<u32>> {
    s.clauses.take(s.input_count)
}

// ---------------------------------------------------------------------
// Literals and clauses against a trail

/// The literal is asserted.
pub open spec fn is_true(trail: Map<u32, i32>, lit: u32) -> bool {
    trail.dom().contains(lit)
}

/// The literal's negation is asserted.
pub open spec fn is_false(trail: Map<u32, i32>, lit: u32) -> bool {
    trail.dom().contains(negate(lit))
}

/// The level at which the literal's variable was set: looked up by the
/// literal first, then by its negation.
pub open spec fn level_of(trail: Map<u32, i32>, lit: u32) -> Option<i32> {
    if trail.dom().contains(lit) {
        Some(trail[lit])
    } else if trail.dom().contains(negate(lit)) {
        Some(trail[negate(lit)])
    } else {
        None
    }
}

/// The literal or its negation is asserted at level `level`.
pub open spec fn at_level(trail: Map<u32, i32>, lit: u32, level: int) -> bool {
    ||| trail.dom().contains(lit) && trail[lit] == level
    ||| trail.dom().contains(negate(lit)) && trail[negate(lit)] == level
}

/// Some literal of the clause is asserted.
pub open spec fn satisfied(trail: Map<u32, i32>, clause: Seq<u32>) -> bool {
    exists|i: int| 0 <= i < clause.len() && is_true(trail, #[trigger] clause[i])
}

/// Every clause of the database is satisfied.
pub open spec fn all_satisfied(trail: Map<u32, i32>, clauses: Seq<Seq<u32>>) -> bool {
    forall|i: int| 0 <= i < clauses.len() ==> satisfied(trail, #[trigger] clauses[i])
}

/// The predicate "not falsified by the trail".
pub open spec fn not_false(trail: Map<u32, i32>) -> spec_fn(u32) -> bool {
    |lit: u32| !is_false(trail, lit)
}

/// The predicate "falsified by the trail".
pub open spec fn falsified(trail: Map<u32, i32>) -> spec_fn(u32) -> bool {
    |lit: u32| is_false(trail, lit)
}

/// The literals of the clause that the trail does not falsify, in order.
pub open spec fn free_literals(trail: Map<u32, i32>, clause: Seq<u32>) -> Seq<u32> {
    clause.filter(not_false(trail))
}

/// The asserted literals that falsify literals of the clause, in the
/// clause's order.
pub open spec fn antecedents(trail: Map<u32, i32>, clause: Seq<u32>) -> Seq<u32> {
    clause.filter(falsified(trail)).map_values(|lit: u32| negate(lit))
}

/// The clause is unsatisfied and exactly one of its literals is not falsified.
pub open spec fn is_unit(trail: Map<u32, i32>, clause: Seq<u32>) -> bool {
    !satisfied(trail, clause) && free_literals(trail, clause).len() == 1
}

/// Every literal of the clause is falsified.
pub open spec fn is_conflict(trail: Map<u32, i32>, clause: Seq<u32>) -> bool {
    !satisfied(trail, clause) && free_literals(trail, clause).len() == 0
}

/// The clause forces a literal or is falsified.
pub open spec fn is_active(trail: Map<u32, i32>, clause: Seq<u32>) -> bool {
    is_unit(trail, clause) || is_conflict(trail, clause)
}

/// The index of the first active clause at or after `from`, or the number of
/// clauses if there is none.
pub open spec fn first_active(trail: Map<u32, i32>, clauses: Seq<Seq<u32>>, from: int) -> int
    decreases clauses.len() - from,
{
    if from < 0 || from >= clauses.len() {
        clauses.len() as int
    } else if is_active(trail, clauses[from]) {
        from
    } else {
        first_active(trail, clauses, from + 1)
    }
}

// ---------------------------------------------------------------------
// Resolution

/// The predicate "its negation does not occur in `other`".
pub open spec fn no_clash(other: Seq<u32>) -> spec_fn(u32) -> bool {
    |lit: u32| !other.contains(negate(lit))
}

/// The working clause extended by the first `n` literals of `current`: a
/// literal is appended unless its negation occurs in `partial` or it is there
/// already.
pub open spec fn merged(partial: Seq<u32>, current: Seq<u32>, n: int) -> Seq<u32>
    decreases n,
{
    if n <= 0 {
        partial.filter(no_clash(current))
    } else {
        let before = merged(partial, current, n - 1);
        let lit = current[n - 1];
        if !partial.contains(negate(lit)) && !before.contains(lit) {
            before.push(lit)
        } else {
            before
        }
    }
}

/// The resolvent of the working clause `partial` with `current`: the literals
/// of `partial` whose negation is not in `current`, then the literals of
/// `current` whose negation is not in `partial` and which are not there yet.
pub open spec fn resolve(partial: Seq<u32>, current: Seq<u32>) -> Seq<u32> {
    merged(partial, current, current.len() as int)
}

// ---------------------------------------------------------------------
// Conflict analysis

/// The predicate "set at level `level`, in either polarity".
pub open spec fn on_level(trail: Map<u32, i32>, level: int) -> spec_fn(u32) -> bool {
    |lit: u32| at_level(trail, lit, level)
}

/// How many literals of the clause are set at level `level`.
pub open spec fn level_count(trail: Map<u32, i32>, clause: Seq<u32>, level: int) -> nat {
    clause.filter(on_level(trail, level)).len()
}

/// Resolves the working clause with the clauses of the first `n` records,
/// last record first, and stops as soon as exactly one literal of the working
/// clause is set at level `level`. The flag says whether it stopped so.
pub open spec fn analysis(
    trail: Map<u32, i32>,
    level: int,
    records: Seq<Implication>,
    n: int,
    working: Seq<u32>,
) -> (Seq<u32>, bool)
    decreases n,
{
    if n <= 0 {
        (working, false)
    } else {
        let next = resolve(working, records[n - 1].clause);
        if level_count(trail, next, level) == 1 {
            (next, true)
        } else {
            analysis(trail, level, records, n - 1, next)
        }
    }
}

/// The predicate of the fallback filter: the literal's variable is set, and
/// not at level `level` unless the literal is the negation of `decision`.
pub open spec fn survives(trail: Map<u32, i32>, level: int, decision: u32) -> spec_fn(u32) -> bool {
    |lit: u32|
        match level_of(trail, lit) {
            Some(x) => x != level || lit == negate(decision),
            None => false,
        }
}

/// The working clause without the literals of level `level`, but for the
/// negation of that level's decision.
pub open spec fn fallback(trail: Map<u32, i32>, level: int, decision: u32, working: Seq<u32>) -> Seq<
    u32,
> {
    working.filter(survives(trail, level, decision))
}

/// The clause learned from the falsified clause `conflict`.
pub open spec fn learned_clause(s: Search, conflict: Seq<u32>) -> Seq<u32> {
    let records = s.implications[s.level];
    let (working, found) = analysis(s.trail, s.level, records, records.len() as int, conflict);
    if found {
        working
    } else {
        fallback(s.trail, s.level, s.decisions.last(), working)
    }
}

/// The highest level below `bound` among the first `n` literals of the
/// clause, or -1 if none of them is set below `bound`.
pub open spec fn highest_below(trail: Map<u32, i32>, clause: Seq<u32>, n: int, bound: int) -> int
    decreases n,
{
    if n <= 0 {
        -1
    } else {
        let rest = highest_below(trail, clause, n - 1, bound);
        match level_of(trail, clause[n - 1]) {
            Some(x) => if rest < x < bound { x as int } else { rest },
            None => rest,
        }
    }
}

/// The highest level among the literals of the clause, or -1.
pub open spec fn highest(trail: Map<u32, i32>, clause: Seq<u32>) -> int {
    highest_below(trail, clause, clause.len() as int, i32::MAX + 1)
}

/// The second highest level among the literals of the clause, or -1.
pub open spec fn second_highest(trail: Map<u32, i32>, clause: Seq<u32>) -> int {
    highest_below(trail, clause, clause.len() as int, highest(trail, clause))
}

/// The level to jump back to after learning `clause`, or -1 when the clause
/// refutes the formula. A unit clause is asserted at level 0, unless its
/// literal was set at level 0. A longer clause is asserted at the second
/// highest of its levels, or one below its only level.
pub open spec fn assertion_level(trail: Map<u32, i32>, clause: Seq<u32>) -> int {
    if clause.len() == 1 {
        if level_of(trail, clause[0]) == Some(0i32) {
            -1
        } else {
            0
        }
    } else if second_highest(trail, clause) >= 0 {
        second_highest(trail, clause)
    } else if highest(trail, clause) >= 0 {
        highest(trail, clause) - 1
    } else {
        -1
    }
}

// ---------------------------------------------------------------------
// Transitions

/// The trail without the entries above level `level`.
pub open spec fn kept_up_to(trail: Map<u32, i32>, level: int) -> Map<u32, i32> {
    Map::new(|lit: u32| trail.dom().contains(lit) && trail[lit] <= level, |lit: u32| trail[lit])
}

/// The state after clause `i`, which is unit, has forced its free literal.
pub open spec fn propagated(s: Search, i: int) -> Search {
    let clause = s.clauses[i];
    let lit = free_literals(s.trail, clause)[0];
    let record = Implication { literal: lit, antecedents: antecedents(s.trail, clause), clause };
    Search {
        trail: s.trail.insert(lit, s.level as i32),
        implications: s.implications.update(s.level, s.implications[s.level].push(record)),
        ..s
    }
}

/// The state after the verdict "unsatisfiable".
pub open spec fn refuted(s: Search) -> Search {
    Search { finished: true, satisfiable: false, ..s }
}

/// The state after the verdict "satisfiable".
pub open spec fn confirmed(s: Search) -> Search {
    Search { finished: true, satisfiable: true, ..s }
}

/// The state after learning `clause` and jumping back to level `level`.
pub open spec fn backjumped(s: Search, clause: Seq<u32>, level: int) -> Search {
    Search {
        clauses: s.clauses.push(clause),
        trail: kept_up_to(s.trail, level),
        decisions: s.decisions.take(level),
        level,
        implications: s.implications.take(level + 1),
        ..s
    }
}

/// One propagation pass: the next state, and whether the pass came to rest
/// (a fixpoint or a verdict).
pub open spec fn step(s: Search) -> (Search, bool) {
    let i = first_active(s.trail, s.clauses, 0);
    if i >= s.clauses.len() {
        if all_satisfied(s.trail, s.clauses) {
            (confirmed(s), true)
        } else {
            (s, true)
        }
    } else if is_unit(s.trail, s.clauses[i]) {
        (propagated(s, i), false)
    } else if s.level == 0 {
        (refuted(s), true)
    } else {
        let clause = learned_clause(s, s.clauses[i]);
        let level = assertion_level(s.trail, clause);
        if level < 0 {
            (refuted(s), true)
        } else {
            (backjumped(s, clause, level), false)
        }
    }
}

/// Neither the variable's positive nor its negated literal is asserted.
pub open spec fn unassigned(trail: Map<u32, i32>, var: int) -> bool {
    forall|lit: u32| #[trigger] trail.dom().contains(lit) ==> var_of(lit) != var
}

/// The first variable from `start` on, in cyclic order over `n` variables and
/// looking at `k` or more steps ahead, that is unset; `n` if there is none.
pub open spec fn first_unset(trail: Map<u32, i32>, n: int, start: int, k: int) -> int
    decreases n - k,
{
    if k < 0 || k >= n {
        n
    } else if unassigned(trail, (start + k) % n) {
        (start + k) % n
    } else {
        first_unset(trail, n, start, k + 1)
    }
}

/// The first unset variable at or after `start`, in cyclic order of the
/// identifiers; the number of variables if none is unset.
pub open spec fn next_unset(s: Search, start: int) -> int {
    first_unset(s.trail, s.names.len() as int, start, 0)
}

/// The truth value that a trail gives a variable, if it is set.
pub open spec fn value_of(trail: Map<u32, i32>, var: int) -> Option<bool> {
    if trail.dom().contains((2 * var) as u32) {
        Some(true)
    } else if trail.dom().contains((2 * var + 1) as u32) {
        Some(false)
    } else {
        None
    }
}

/// The state after deciding `lit` at a new level.
pub open spec fn decided(s: Search, lit: u32) -> Search {
    Search {
        trail: s.trail.insert(lit, (s.level + 1) as i32),
        decisions: s.decisions.push(lit),
        level: s.level + 1,
        implications: s.implications.push(Seq::empty()),
        ..s
    }
}

/// The state with one more decision counted; the count stops at `u32::MAX`.
pub open spec fn counted(s: Search) -> Search {
    Search {
        decide_count: if s.decide_count < u32::MAX {
            s.decide_count + 1
        } else {
            s.decide_count
        },
        ..s
    }
}

/// The state after a restart: the clauses stay, the search starts over.
pub open spec fn restarted(s: Search) -> Search {
    Search {
        trail: Map::empty(),
        decisions: Seq::empty(),
        level: 0,
        implications: seq![Seq::empty()],
        decide_count: 1,
        finished: false,
        satisfiable: false,
        ..s
    }
}

/// What a run does between two propagation passes: `next` is a state that
/// can follow `s` after one pass. If the pass comes to rest without a
/// verdict, the search restarts when more than `restart_after` decisions
/// have been counted since the last restart, and else decides some literal
/// of an unset variable.
pub open spec fn passes_to(s: Search, restart_after: int, next: Search) -> bool {
    let (rested, rest) = step(s);
    if rest && !rested.finished {
        if rested.decide_count > restart_after {
            next == restarted(rested)
        } else {
            exists|lit: u32|
                var_of(lit) < rested.names.len() && unassigned(rested.trail, var_of(lit)) && next
                    == #[trigger] counted(decided(rested, lit))
        }
    } else {
        next == rested
    }
}

/// `end` is a state that a run of at most `passes` propagation passes from
/// `s` can end in: the run stops at a verdict, or when the passes are used up.
pub open spec fn runs_to(s: Search, passes: nat, restart_after: int, end: Search) -> bool
    decreases passes,
{
    if passes == 0 || s.finished {
        end == s
    } else {
        exists|next: Search| #[trigger]
            passes_to(s, restart_after, next) && runs_to(
                next,
                (passes - 1) as nat,
                restart_after,
                end,
            )
    }
}

/// The state before the search: the given clauses over the given variables.
pub open spec fn initial(names: Seq<Seq<char>>, clauses: Seq<Seq<u32>>) -> Search {
    Search {
        names,
        clauses,
        input_count: clauses.len() as int,
        trail: Map::empty(),
        decisions: Seq::empty(),
        level: 0,
        implications: seq![Seq::empty()],
        decide_count: 1,
        finished: false,
        satisfiable: false,
    }
}

// ---------------------------------------------------------------------
// The invariant

/// Every literal of the clause speaks of one of the first `n` variables.
pub open spec fn in_range(clause: Seq<u32>, n: int) -> bool {
    forall|i: int| 0 <= i < clause.len() ==> var_of(#[trigger] clause[i]) < n
}

/// Sizes agree: one decision and one implication list per level, and every
/// clause over the known variables.
pub open spec fn shape_ok(s: Search) -> bool {
    &&& s.names.len() <= MAX_VARIABLES
    &&& 0 <= s.input_count <= s.clauses.len()
    &&& forall|i: int|
        0 <= i < s.clauses.len() ==> in_range(#[trigger] s.clauses[i], s.names.len() as int)
    &&& 0 <= s.level == s.decisions.len()
    &&& s.level <= s.names.len()
    &&& s.implications.len() == s.level + 1
    &&& 1 <= s.decide_count <= u32::MAX
}

/// The trail never holds a literal and its negation, its levels lie between
/// 0 and the current level, and each level's decision is on it at that level.
pub open spec fn trail_ok(s: Search) -> bool {
    &&& forall|lit: u32| #[trigger]
        s.trail.dom().contains(lit) ==> {
            &&& !s.trail.dom().contains(negate(lit))
            &&& 0 <= s.trail[lit] <= s.level
            &&& var_of(lit) < s.names.len()
        }
    &&& forall|k: int|
        0 <= k < s.decisions.len() ==> {
            &&& s.trail.dom().contains(#[trigger] s.decisions[k])
            &&& s.trail[s.decisions[k]] == k + 1
        }
}

/// An implication record of level `k` is justified: its literal is asserted
/// at level `k`, occurs in its clause, every other literal of the clause is
/// falsified at level `k` or below, and the input entails the clause.
pub open spec fn record_ok(s: Search, k: int, r: Implication) -> bool {
    &&& s.trail.dom().contains(r.literal)
    &&& s.trail[r.literal] == k
    &&& r.clause.contains(r.literal)
    &&& forall|i: int|
        0 <= i < r.clause.len() && #[trigger] r.clause[i] != r.literal ==> {
            &&& s.trail.dom().contains(negate(r.clause[i]))
            &&& s.trail[negate(r.clause[i])] <= k
        }
    &&& entails(input(s), r.clause)
}

/// Every record is justified; within a level, no clause mentions the
/// negation of a literal that was forced by it or after it; and every literal
/// set at a level above 0 is that level's decision or has a record there.
pub open spec fn records_ok(s: Search) -> bool {
    &&& forall|k: int, j: int|
        0 <= k < s.implications.len() && 0 <= j < s.implications[k].len() ==> record_ok(
            s,
            k,
            #[trigger] s.implications[k][j],
        )
    &&& forall|k: int, i: int, j: int|
        0 <= k < s.implications.len() && 0 <= i <= j < s.implications[k].len()
            ==> !(#[trigger] s.implications[k][i]).clause.contains(
            negate((#[trigger] s.implications[k][j]).literal),
        )
    &&& forall|lit: u32| #[trigger]
        s.trail.dom().contains(lit) && s.trail[lit] >= 1 ==> {
            ||| lit == s.decisions[s.trail[lit] - 1]
            ||| has_record(s.implications[s.trail[lit] as int], lit)
        }
}

/// Some record of the list forced `lit`.
pub open spec fn has_record(records: Seq<Implication>, lit: u32) -> bool {
    exists|j: int| 0 <= j < records.len() && (#[trigger] records[j]).literal == lit
}

/// What the search has established follows from the input: every clause of
/// the database, every literal set at level 0, and the verdict.
pub open spec fn knowledge_ok(s: Search) -> bool {
    &&& forall|i: int| 0 <= i < s.clauses.len() ==> entails(input(s), #[trigger] s.clauses[i])
    &&& forall|m: Set<int>, lit: u32|
        #[trigger] models(m, input(s)) && #[trigger] s.trail.dom().contains(lit) && s.trail[lit]
            == 0 ==> lit_holds(m, lit)
    &&& s.finished && s.satisfiable ==> all_satisfied(s.trail, s.clauses)
    &&& s.finished && !s.satisfiable ==> unsatisfiable(input(s))
}

/// The invariant of the search.
pub open spec fn inv(s: Search) -> bool {
    &&& shape_ok(s)
    &&& trail_ok(s)
    &&& records_ok(s)
    &&& knowledge_ok(s)
}

} // verus!
