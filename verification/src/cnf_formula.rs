//! The executable solver. Its state is modelled by `Search`; every operation
//! says which transition of the model it performs.

use crate::clause_lemmas::{
    lemma_first_active_is, lemma_first_unset, lemma_none_unset, lemma_unassigned,
};
use crate::encoding::{
    all_numerals, distinct_names, encode_tokens, encoded_clause, encoded_pile, is_variable_token,
    lemma_encoded_in_range, lemma_with_clauses, literal_text, names_of, numbered,
    register_tokens, registered, table_ok, variable_names, well_formed, with_clauses,
};
use crate::laws::{
    law_backjump_lowers_level, law_learned_clauses_are_entailed, law_model_satisfies_input,
    law_rest_leaves_a_choice,
};
use crate::literal::{
    encode, is_negated, lemma_negate, literal_of, negate, negated, negative, var_of, variable,
    MAX_VARIABLES,
};
use crate::preservation::{
    lemma_assertion_level_below, lemma_counted, lemma_decide, lemma_initial, lemma_restart,
    lemma_run_goes_on, lemma_step, valuation_of,
};
use crate::progress::{
    lemma_pass_lowers_slack, lemma_rest_after, lemma_trail_is_finite, rest_after, slack,
};
use crate::random::{random_below, thread_generator};
use crate::search::{
    all_satisfied, analysis, antecedents, assertion_level, at_level, backjumped, confirmed,
    counted, decided, fallback, falsified, first_unset, free_literals, highest_below, in_range,
    initial, input, inv, is_active, is_false, is_true, learned_clause, level_count, level_of,
    merged, next_unset, no_clash, not_false, on_level, passes_to, propagated, refuted, resolve, restarted, satisfied,
    runs_to, step, survives, unassigned, value_of, Implication, Search,
};
use crate::semantics::{models, unsatisfiable};
use crate::store::{
    table_entries, table_get_index, table_len, table_new, trail_clear, trail_entries, trail_get,
    trail_insert, trail_map, trail_new, trail_remove,
};
use crate::token::variable_name;
use crate::vectors::{contains_literal, copy_clause, copy_tokens};
use indexmap::IndexMap;
use vstd::prelude::*;

verus! {

/// Why a literal was forced by unit propagation.
pub struct ImplicationInformation {
    /// The forced literal.
    pub literal: u32,
    /// The asserted literals that made the clause unit.
    pub implied_by_vars: Vec<u32>,
    /// The clause that forced the literal.
    pub implied_by_clause: Vec<u32>,
}

impl DeepView for ImplicationInformation {
    type V = Implication;

    open spec fn deep_view(&self) -> Implication {
        Implication {
            literal: self.literal,
            antecedents: self.implied_by_vars@,
            clause: self.implied_by_clause@,
        }
    }
}

/// A formula in conjunctive normal form together with the state of the
/// search for a satisfying assignment.
pub struct CNFFormula {
    m_decide_count: u32,
    m_finished: bool,
    m_satisfiable: bool,
    m_clauses: Vec<Vec<u32>>,
    m_input_count: usize,
    m_variables: IndexMap<String, u32>,
    m_assignments: IndexMap<u32, i32>,
    m_decisions: Vec<u32>,
    m_decision_level: i32,
    m_implications: Vec<Vec<ImplicationInformation>>,
}

impl View for CNFFormula {
    type V = Search;

    closed spec fn view(&self) -> Search {
        Search {
            names: names_of(table_entries(self.m_variables)),
            clauses: self.m_clauses.deep_view(),
            input_count: self.m_input_count as int,
            trail: trail_map(self.m_assignments),
            decisions: self.m_decisions@,
            level: self.m_decision_level as int,
            implications: self.m_implications.deep_view(),
            decide_count: self.m_decide_count as int,
            finished: self.m_finished,
            satisfiable: self.m_satisfiable,
        }
    }
}

/// Some literal of the clause has the value that the list gives its variable.
pub open spec fn agrees(values: Seq<(String, Option<bool>)>, clause: Seq<u32>) -> bool {
    exists|k: int|
        0 <= k < clause.len() && 0 <= var_of(#[trigger] clause[k]) < values.len() && values[var_of(
            clause[k],
        )].1 == Some(!is_negated(clause[k]))
}

/// A trail that never holds both literals of a variable gives the variable
/// of each literal it holds the value that makes the literal true.
pub proof fn lemma_value_of(s: Search, lit: u32)
    requires
        inv(s),
        s.trail.dom().contains(lit),
    ensures
        value_of(s.trail, var_of(lit)) == Some(!is_negated(lit)),
        0 <= var_of(lit) < s.names.len(),
{
    lemma_negate(lit);
    assert(!s.trail.dom().contains(negate(lit)));
    if is_negated(lit) {
        assert((2 * var_of(lit) + 1) as u32 == lit);
        assert((2 * var_of(lit)) as u32 == negate(lit));
    } else {
        assert((2 * var_of(lit)) as u32 == lit);
    }
}

/// The model of a clause database lists the clauses as they are stored.
pub proof fn lemma_clauses_view(clauses: Vec<Vec<u32>>)
    ensures
        clauses.deep_view().len() == clauses.len(),
        forall|i: int| 0 <= i < clauses.len() ==> #[trigger] clauses.deep_view()[i] == clauses@[i]@,
{
    assert forall|i: int| 0 <= i < clauses.len() implies #[trigger] clauses.deep_view()[i]
        == clauses@[i]@ by {
        assert(clauses@[i].deep_view() =~= clauses@[i]@);
    }
}

/// The model of the implication lists holds the records as they are stored.
pub proof fn lemma_records_view(lists: Vec<Vec<ImplicationInformation>>)
    ensures
        lists.deep_view().len() == lists.len(),
        forall|k: int|
            0 <= k < lists.len() ==> (#[trigger] lists.deep_view()[k]).len() == lists@[k].len(),
        forall|k: int, j: int|
            0 <= k < lists.len() && 0 <= j < lists@[k].len() ==> #[trigger] lists.deep_view()[k][j]
                == lists@[k]@[j].deep_view(),
{
}

impl CNFFormula {
    /// The variable table gives each name its position as identifier.
    pub closed spec fn table_wf(&self) -> bool {
        table_ok(table_entries(self.m_variables))
    }

    /// The state is one that the solver can be in: the invariant of the
    /// search holds of it.
    pub open spec fn wf(&self) -> bool {
        self.table_wf() && inv(self@)
    }

    /// Encodes the tokens of a clause, in order: the token `0` gives nothing,
    /// a token that starts with `-` gives the negated literal of the variable
    /// named by the rest, any other token gives the positive literal of the
    /// variable it names. The variable of every token but `0` must be in the
    /// table.
    pub fn add_clause(variables: &IndexMap<String, u32>, clause: Vec<String>) -> (literals: Vec<u32>)
        requires
            distinct_names(table_entries(*variables)),
            forall|k: int|
                0 <= k < clause.len() && is_variable_token(#[trigger] clause.deep_view()[k])
                    ==> registered(table_entries(*variables), clause.deep_view()[k]),
        ensures
            literals@ == encoded_clause(table_entries(*variables), clause.deep_view()),
    {
        encode_tokens(variables, &clause)
    }

    /// Builds a solver for the clauses given as token sequences. Variables
    /// get their identifiers in the order they are first seen. There is no
    /// solver for a pile with a token that is not well formed, nor for one
    /// with more than `MAX_VARIABLES` variables.
    pub fn try_new(clause_pile: Vec<Vec<String>>) -> (built: Option<CNFFormula>)
        ensures
            built.is_some() <==> well_formed(clause_pile.deep_view()) && variable_names(
                clause_pile.deep_view(),
            ).len() <= MAX_VARIABLES,
            built.is_some() ==> built.unwrap().wf() && built.unwrap()@ == initial(
                variable_names(clause_pile.deep_view()),
                encoded_pile(
                    numbered(variable_names(clause_pile.deep_view())),
                    clause_pile.deep_view(),
                ),
            ),
    {
        if !all_numerals(&clause_pile) {
            return None;
        }
        let ghost pile = clause_pile.deep_view();
        let mut variables = table_new();
        let mut c: usize = 0;
        assert(names_of(table_entries(variables)) =~= with_clauses(Seq::empty(), pile, 0));
        while c < clause_pile.len()
            invariant
                0 <= c <= clause_pile.len(),
                pile == clause_pile.deep_view(),
                table_ok(table_entries(variables)),
                names_of(table_entries(variables)) == with_clauses(Seq::empty(), pile, c as int),
            decreases clause_pile.len() - c,
        {
            proof {
                lemma_with_clauses(Seq::empty(), pile, c as int + 1, pile.len() as int);
                assert(pile[c as int] == clause_pile[c as int].deep_view());
            }
            if !register_tokens(&mut variables, &clause_pile[c]) {
                return None;
            }
            c += 1;
        }
        let ghost entries = table_entries(variables);
        let ghost names = variable_names(pile);
        proof {
            assert(entries =~= numbered(names));
            lemma_with_clauses(Seq::empty(), pile, 0, pile.len() as int);
            assert forall|q: int, k: int|
                0 <= q < pile.len() && 0 <= k < pile[q].len() && is_variable_token(
                    #[trigger] pile[q][k],
                ) implies registered(entries, pile[q][k]) by {
                let name = variable_name(pile[q][k]);
                let i = choose|i: int| 0 <= i < names.len() && names[i] == name;
                assert(entries[i].0 == name);
            }
        }
        let mut clauses: Vec<Vec<u32>> = Vec::new();
        let mut c: usize = 0;
        while c < clause_pile.len()
            invariant
                0 <= c <= clause_pile.len(),
                pile == clause_pile.deep_view(),
                entries == table_entries(variables),
                table_ok(entries),
                forall|q: int, k: int|
                    0 <= q < pile.len() && 0 <= k < pile[q].len() && is_variable_token(
                        #[trigger] pile[q][k],
                    ) ==> registered(entries, pile[q][k]),
                clauses.len() == c,
                forall|q: int|
                    0 <= q < c ==> (#[trigger] clauses@[q])@ == encoded_clause(entries, pile[q]),
                forall|q: int| 0 <= q < c ==> in_range((#[trigger] clauses@[q])@, entries.len() as int),
            decreases clause_pile.len() - c,
        {
            proof {
                assert(pile[c as int] == clause_pile[c as int].deep_view());
                lemma_encoded_in_range(entries, pile[c as int], pile[c as int].len() as int);
            }
            let literals = Self::add_clause(&variables, copy_tokens(&clause_pile[c]));
            clauses.push(literals);
            c += 1;
        }
        assert(clauses.deep_view() =~= encoded_pile(entries, pile)) by {
            assert forall|q: int| 0 <= q < clauses.len() implies #[trigger] clauses.deep_view()[q]
                == encoded_clause(entries, pile[q]) by {
                assert(clauses@[q].deep_view() =~= clauses@[q]@);
            }
        }
        let input_count = clauses.len();
        let mut implications: Vec<Vec<ImplicationInformation>> = Vec::new();
        implications.push(Vec::new());
        let formula = CNFFormula {
            m_decide_count: 1,
            m_finished: false,
            m_satisfiable: false,
            m_clauses: clauses,
            m_input_count: input_count,
            m_variables: variables,
            m_assignments: trail_new(),
            m_decisions: Vec::new(),
            m_decision_level: 0,
            m_implications: implications,
        };
        proof {
            let target = initial(names, encoded_pile(numbered(names), pile));
            assert(formula@.implications =~~= target.implications);
            assert(formula@.decisions =~= target.decisions);
            assert(formula@ == target);
            lemma_initial(names, encoded_pile(numbered(names), pile));
        }
        Some(formula)
    }

    /// Builds a solver for the clauses given as token sequences, each token
    /// well formed. Variables get their identifiers in the order they are
    /// first seen.
    pub fn new(clause_pile: Vec<Vec<String>>) -> (formula: CNFFormula)
        requires
            well_formed(clause_pile.deep_view()),
            variable_names(clause_pile.deep_view()).len() <= MAX_VARIABLES,
        ensures
            formula.wf(),
            formula@ == initial(
                variable_names(clause_pile.deep_view()),
                encoded_pile(
                    numbered(variable_names(clause_pile.deep_view())),
                    clause_pile.deep_view(),
                ),
            ),
    {
        Self::try_new(clause_pile).unwrap()
    }

    /// Whether a verdict was reached.
    pub fn is_finished(&self) -> (b: bool)
        ensures
            b == self@.finished,
    {
        self.m_finished
    }

    /// Whether the verdict is "satisfiable".
    pub fn is_satisfiable(&self) -> (b: bool)
        ensures
            b == (self@.finished && self@.satisfiable),
    {
        self.m_finished && self.m_satisfiable
    }

    /// The current decision level.
    pub fn decision_level(&self) -> (level: i32)
        ensures
            level == self@.level,
    {
        self.m_decision_level
    }

    /// One more than the number of random decisions since the last restart;
    /// the count stops at `u32::MAX`.
    pub fn decide_count(&self) -> (count: u32)
        ensures
            count == self@.decide_count,
    {
        self.m_decide_count
    }

    /// The number of variables.
    pub fn variable_count(&self) -> (count: usize)
        ensures
            count == self@.names.len(),
    {
        table_len(&self.m_variables)
    }

    /// The variable table: each name with its identifier, in the order of
    /// the identifiers.
    pub fn variables(&self) -> (table: &IndexMap<String, u32>)
        requires
            self.wf(),
        ensures
            table_ok(table_entries(*table)),
            names_of(table_entries(*table)) == self@.names,
    {
        &self.m_variables
    }

    /// The clause database: the input clauses, then the learned ones.
    pub fn clauses(&self) -> (clauses: &Vec<Vec<u32>>)
        ensures
            clauses.deep_view() == self@.clauses,
    {
        &self.m_clauses
    }

    /// How many clauses of the database are input clauses.
    pub fn input_count(&self) -> (count: usize)
        ensures
            count == self@.input_count,
    {
        self.m_input_count
    }

    /// The decision literal of each level, level 1 first.
    pub fn decisions(&self) -> (decisions: &Vec<u32>)
        ensures
            decisions@ == self@.decisions,
    {
        &self.m_decisions
    }

    /// What was propagated at the current level, in order.
    pub fn current_level_implications(&self) -> (records: &Vec<ImplicationInformation>)
        requires
            self.wf(),
        ensures
            records.deep_view() == self@.implications[self@.level],
    {
        &self.m_implications[self.m_decision_level as usize]
    }

    /// The trail: every asserted literal once, with its level.
    pub fn assignments(&self) -> (entries: Vec<(u32, i32)>)
        ensures
            forall|i: int|
                0 <= i < entries@.len() ==> self@.trail.dom().contains(#[trigger] entries@[i].0)
                    && self@.trail[entries@[i].0] == entries@[i].1,
            forall|i: int, j: int| 0 <= i < j < entries@.len() ==> entries@[i].0 != entries@[j].0,
            forall|lit: u32|
                self@.trail.dom().contains(lit) ==> exists|i: int|
                    0 <= i < entries@.len() && #[trigger] entries@[i].0 == lit,
    {
        trail_entries(&self.m_assignments)
    }

    /// Whether the variable is unset.
    pub fn is_unassigned(&self, var: u32) -> (b: bool)
        requires
            var <= MAX_VARIABLES,
        ensures
            b == unassigned(self@.trail, var as int),
    {
        proof {
            lemma_unassigned(self@.trail, var as int);
        }
        trail_get(&self.m_assignments, encode(var, false)).is_none() && trail_get(
            &self.m_assignments,
            encode(var, true),
        ).is_none()
    }

    /// Whether some variable is unset.
    pub fn has_unassigned_variable(&self) -> (b: bool)
        requires
            self.wf(),
        ensures
            b == exists|var: int| 0 <= var < self@.names.len() && unassigned(self@.trail, var),
    {
        let n = table_len(&self.m_variables);
        let mut var: usize = 0;
        while var < n
            invariant
                0 <= var <= n == self@.names.len() <= MAX_VARIABLES,
                forall|v: int| 0 <= v < var ==> !unassigned(self@.trail, v),
            decreases n - var,
        {
            if self.is_unassigned(var as u32) {
                return true;
            }
            var += 1;
        }
        false
    }

    /// The truth value of each variable, in the order of the identifiers: the
    /// variable's name, and its value if the trail sets it. Once the solver
    /// has finished with the verdict "satisfiable", these values satisfy
    /// every clause, whatever values the unset variables take.
    pub fn model(&self) -> (values: Vec<(String, Option<bool>)>)
        requires
            self.wf(),
        ensures
            values.len() == self@.names.len(),
            forall|var: int|
                0 <= var < values.len() ==> (#[trigger] values@[var]).0@ == self@.names[var]
                    && values@[var].1 == value_of(self@.trail, var),
            self@.finished && self@.satisfiable ==> forall|i: int|
                0 <= i < self@.clauses.len() ==> agrees(values@, #[trigger] self@.clauses[i]),
    {
        let n = table_len(&self.m_variables);
        let mut values: Vec<(String, Option<bool>)> = Vec::new();
        let mut var: usize = 0;
        while var < n
            invariant
                0 <= var <= n == self@.names.len() <= MAX_VARIABLES,
                self.wf(),
                values.len() == var,
                forall|v: int|
                    0 <= v < var ==> (#[trigger] values@[v]).0@ == self@.names[v] && values@[v].1
                        == value_of(self@.trail, v),
            decreases n - var,
        {
            let value = if trail_get(&self.m_assignments, encode(var as u32, false)).is_some() {
                Some(true)
            } else if trail_get(&self.m_assignments, encode(var as u32, true)).is_some() {
                Some(false)
            } else {
                None
            };
            let name = match table_get_index(&self.m_variables, var) {
                Some((name, _)) => name.clone(),
                None => {
                    proof {
                        assert(false);
                    }
                    String::new()
                },
            };
            values.push((name, value));
            var += 1;
        }
        proof {
            if self@.finished && self@.satisfiable {
                assert forall|i: int| 0 <= i < self@.clauses.len() implies agrees(
                    values@,
                    #[trigger] self@.clauses[i],
                ) by {
                    let clause = self@.clauses[i];
                    assert(satisfied(self@.trail, clause));
                    let k = choose|k: int|
                        0 <= k < clause.len() && is_true(self@.trail, #[trigger] clause[k]);
                    lemma_value_of(self@, clause[k]);
                }
            }
        }
        values
    }

    /// The level at which the literal's variable was set: looked up by the
    /// literal first, then by its negation.
    pub fn assignment_find_decision_level(&self, literal: &u32) -> (level: Option<i32>)
        ensures
            level == level_of(self@.trail, *literal),
    {
        match trail_get(&self.m_assignments, *literal) {
            Some(level) => Some(level),
            None => trail_get(&self.m_assignments, negated(*literal)),
        }
    }

    /// Whether the literal or its negation is asserted at the given level.
    pub fn assignments_find_at_decisionlevel(&self, literal: &u32, dec_level: &i32) -> (found: bool)
        ensures
            found == at_level(self@.trail, *literal, *dec_level as int),
    {
        let direct = match trail_get(&self.m_assignments, *literal) {
            Some(level) => level == *dec_level,
            None => false,
        };
        let opposite = match trail_get(&self.m_assignments, negated(*literal)) {
            Some(level) => level == *dec_level,
            None => false,
        };
        direct || opposite
    }

    /// Writes a literal as text: the name of its variable, after a `-` if it
    /// is negated.
    pub fn lit_to_string(&self, literal: u32) -> (text: String)
        requires
            self.wf(),
            var_of(literal) < self@.names.len(),
        ensures
            text@ == literal_text(self@.names, literal),
    {
        let entry = table_get_index(&self.m_variables, variable(literal) as usize);
        match entry {
            Some((name, _)) => {
                if negative(literal) {
                    proof {
                        reveal_strlit("-");
                        assert("-"@ =~= seq!['-']);
                    }
                    String::from_str("-").concat(name.as_str())
                } else {
                    name.clone()
                }
            },
            None => {
                proof {
                    assert(false);
                }
                String::new()
            },
        }
    }

    /// Writes each literal of a list as text.
    pub fn lit_list_to_strings(&self, literals: Vec<u32>) -> (texts: Vec<String>)
        requires
            self.wf(),
            in_range(literals@, self@.names.len() as int),
        ensures
            texts.len() == literals.len(),
            forall|i: int|
                0 <= i < literals.len() ==> (#[trigger] texts@[i])@ == literal_text(
                    self@.names,
                    literals@[i],
                ),
    {
        let mut texts: Vec<String> = Vec::new();
        let mut i: usize = 0;
        while i < literals.len()
            invariant
                0 <= i <= literals.len(),
                self.wf(),
                in_range(literals@, self@.names.len() as int),
                texts.len() == i,
                forall|k: int|
                    0 <= k < i ==> (#[trigger] texts@[k])@ == literal_text(
                        self@.names,
                        literals@[k],
                    ),
            decreases literals.len() - i,
        {
            texts.push(self.lit_to_string(literals[i]));
            i += 1;
        }
        texts
    }

    /// Resolves the working clause with another clause: keeps the literals of
    /// `partial_clause` whose negation is not in `current_clause`, then adds
    /// the literals of `current_clause` whose negation is not in
    /// `partial_clause` and which are not there yet.
    pub fn update_partial_clause(partial_clause: &Vec<u32>, current_clause: &Vec<u32>) -> (resolvent:
        Vec<u32>)
        ensures
            resolvent@ == resolve(partial_clause@, current_clause@),
    {
        let mut new_partial_clause: Vec<u32> = Vec::new();
        let mut i: usize = 0;
        assert(partial_clause@.take(0) =~= Seq::empty());
        assert(Seq::<u32>::empty().filter(no_clash(current_clause@)) =~= Seq::empty()) by {
            reveal(Seq::filter);
        }
        while i < partial_clause.len()
            invariant
                0 <= i <= partial_clause.len(),
                new_partial_clause@ == partial_clause@.take(i as int).filter(
                    no_clash(current_clause@),
                ),
            decreases partial_clause.len() - i,
        {
            let literal = partial_clause[i];
            proof {
                partial_clause@.take(i as int).lemma_filter_push(literal, no_clash(current_clause@));
                assert(partial_clause@.take(i as int + 1) =~= partial_clause@.take(i as int).push(
                    literal,
                ));
            }
            if !contains_literal(current_clause, negated(literal)) {
                new_partial_clause.push(literal);
            }
            i += 1;
        }
        assert(partial_clause@.take(partial_clause.len() as int) =~= partial_clause@);
        let mut j: usize = 0;
        while j < current_clause.len()
            invariant
                0 <= j <= current_clause.len(),
                new_partial_clause@ == merged(partial_clause@, current_clause@, j as int),
            decreases current_clause.len() - j,
        {
            let literal = current_clause[j];
            if !contains_literal(partial_clause, negated(literal)) && !contains_literal(
                &new_partial_clause,
                literal,
            ) {
                new_partial_clause.push(literal);
            }
            j += 1;
        }
        new_partial_clause
    }

    /// Decides the variable `decision` at a new level: true if `truthval`,
    /// false otherwise. The variable must be unset.
    pub fn make_decision_fake(&mut self, decision: u32, truthval: bool)
        requires
            old(self).wf(),
            decision < old(self)@.names.len(),
            unassigned(old(self)@.trail, decision as int),
        ensures
            final(self).wf(),
            final(self)@ == decided(old(self)@, literal_of(decision as int, !truthval) as u32),
    {
        let id = match table_get_index(&self.m_variables, decision as usize) {
            Some((_, id)) => id,
            None => {
                proof {
                    assert(false);
                }
                decision
            },
        };
        let literal = encode(id, !truthval);
        proof {
            lemma_decide(self@, literal);
        }
        self.m_decision_level += 1;
        self.m_implications.push(Vec::new());
        trail_insert(&mut self.m_assignments, literal, self.m_decision_level);
        self.m_decisions.push(literal);
        proof {
            let target = decided(old(self)@, literal);
            assert(self@.implications =~= target.implications) by {
                assert(self.m_implications@.last().deep_view() =~= Seq::<Implication>::empty());
            }
            assert(self@ == target);
        }
    }

    /// Decides the variable `decision` as `make_decision_fake` does, if
    /// there is such a variable and it is unset; else nothing changes. The
    /// result says whether the decision was made.
    pub fn make_decision_checked(&mut self, decision: u32, truthval: bool) -> (made: bool)
        requires
            old(self).wf(),
        ensures
            final(self).wf(),
            made == (decision < old(self)@.names.len() && unassigned(
                old(self)@.trail,
                decision as int,
            )),
            made ==> final(self)@ == decided(
                old(self)@,
                literal_of(decision as int, !truthval) as u32,
            ),
            !made ==> final(self)@ == old(self)@,
    {
        if (decision as usize) < table_len(&self.m_variables) && self.is_unassigned(decision) {
            self.make_decision_fake(decision, truthval);
            true
        } else {
            false
        }
    }

    /// Decides the first unset variable at or after `start`, in cyclic order
    /// of the identifiers, at a new level: false if `negated`, true otherwise.
    pub fn make_decision_from(&mut self, start: u32, negated: bool)
        requires
            old(self).wf(),
            start < old(self)@.names.len(),
            exists|var: int| 0 <= var < old(self)@.names.len() && unassigned(old(self)@.trail, var),
        ensures
            final(self).wf(),
            0 <= next_unset(old(self)@, start as int) < old(self)@.names.len(),
            unassigned(old(self)@.trail, next_unset(old(self)@, start as int)),
            final(self)@ == counted(
                decided(
                    old(self)@,
                    literal_of(next_unset(old(self)@, start as int), negated) as u32,
                ),
            ),
    {
        let n = table_len(&self.m_variables);
        let mut k: usize = 0;
        let mut chosen: u32 = start;
        let mut found = false;
        while k < n && !found
            invariant
                0 <= k <= n == self@.names.len() <= MAX_VARIABLES,
                start < n,
                *self == *old(self),
                forall|j: int| 0 <= j < k && !found ==> !unassigned(
                    self@.trail,
                    #[trigger] ((start + j) % (n as int)),
                ),
                found ==> chosen < n && unassigned(self@.trail, chosen as int) && chosen
                    == first_unset(self@.trail, n as int, start as int, 0),
            decreases n - k + if found { 0int } else { 1int },
        {
            let var = ((start as u64 + k as u64) % (n as u64)) as u32;
            if self.is_unassigned(var) {
                proof {
                    lemma_first_unset(self@.trail, n as int, start as int, k as int);
                }
                chosen = var;
                found = true;
            } else {
                k += 1;
            }
        }
        proof {
            if !found {
                let var = choose|var: int| 0 <= var < n && unassigned(self@.trail, var);
                lemma_none_unset(self@.trail, n as int, start as int, var);
            }
        }
        if self.m_decide_count < u32::MAX {
            self.m_decide_count += 1;
        }
        proof {
            assert(self@ == counted(old(self)@));
            lemma_counted(old(self)@);
        }
        self.make_decision_fake(chosen, !negated);
    }

    /// Decides a randomly chosen unset variable with a random polarity at a
    /// new level. Some variable must be unset.
    pub fn make_decision(&mut self)
        requires
            old(self).wf(),
            exists|var: int| 0 <= var < old(self)@.names.len() && unassigned(old(self)@.trail, var),
        ensures
            final(self).wf(),
            exists|lit: u32|
                var_of(lit) < old(self)@.names.len() && unassigned(old(self)@.trail, var_of(lit))
                    && #[trigger] counted(decided(old(self)@, lit)) == final(self)@,
    {
        let n = table_len(&self.m_variables);
        let mut generator = thread_generator();
        let index = random_below(&mut generator, n);
        let zero_or_one = random_below(&mut generator, 2);
        let ghost var = next_unset(self@, index as int);
        let ghost lit = literal_of(var, zero_or_one == 1) as u32;
        self.make_decision_from(index as u32, zero_or_one == 1);
        assert(counted(decided(old(self)@, lit)) == self@);
        assert(var_of(lit) == var);
    }

    /// Starts the search over: the trail, the decisions, the implication
    /// records and the verdict are dropped; the clauses, learned ones
    /// included, stay.
    pub fn restart(&mut self)
        requires
            old(self).wf(),
        ensures
            final(self).wf(),
            final(self)@ == restarted(old(self)@),
    {
        self.m_implications.clear();
        self.m_implications.push(Vec::new());
        self.m_decision_level = 0;
        trail_clear(&mut self.m_assignments);
        self.m_decisions.clear();
        self.m_decide_count = 1;
        self.m_finished = false;
        self.m_satisfiable = false;
        proof {
            let target = restarted(old(self)@);
            assert(self@.implications =~= target.implications) by {
                assert(self.m_implications@[0].deep_view() =~= Seq::<Implication>::empty());
            }
            assert(self@.decisions =~= target.decisions);
            assert(self@ == target);
            lemma_restart(old(self)@);
        }
    }

    /// Classifies a clause against the trail: whether it is satisfied, its
    /// literals that are not falsified, and the asserted literals that
    /// falsify the others.
    pub fn classify(&self, clause: &Vec<u32>) -> (status: (bool, Vec<u32>, Vec<u32>))
        ensures
            status.0 == satisfied(self@.trail, clause@),
            status.1@ == free_literals(self@.trail, clause@),
            status.2@ == antecedents(self@.trail, clause@),
    {
        let ghost trail = self@.trail;
        let mut currently_sat = false;
        let mut free_literals_found: Vec<u32> = Vec::new();
        let mut implication_literals: Vec<u32> = Vec::new();
        let mut k: usize = 0;
        proof {
            reveal(Seq::filter);
            assert(clause@.take(0) =~= Seq::empty());
            assert(free_literals(trail, clause@.take(0)) =~= Seq::empty());
            assert(antecedents(trail, clause@.take(0)) =~= Seq::empty());
        }
        while k < clause.len()
            invariant
                0 <= k <= clause.len(),
                trail == self@.trail,
                currently_sat == exists|j: int| 0 <= j < k && is_true(trail, #[trigger] clause@[j]),
                free_literals_found@ == free_literals(trail, clause@.take(k as int)),
                implication_literals@ == antecedents(trail, clause@.take(k as int)),
            decreases clause.len() - k,
        {
            let literal = clause[k];
            proof {
                let prefix = clause@.take(k as int);
                assert(clause@.take(k as int + 1) =~= prefix.push(literal));
                prefix.lemma_filter_push(literal, not_false(trail));
                prefix.lemma_filter_push(literal, falsified(trail));
                if is_false(trail, literal) {
                    assert(antecedents(trail, prefix.push(literal)) =~= antecedents(
                        trail,
                        prefix,
                    ).push(negate(literal)));
                }
            }
            if trail_get(&self.m_assignments, negated(literal)).is_some() {
                implication_literals.push(negated(literal));
            } else {
                free_literals_found.push(literal);
            }
            if trail_get(&self.m_assignments, literal).is_some() {
                currently_sat = true;
            }
            k += 1;
        }
        assert(clause@.take(clause.len() as int) =~= clause@);
        (currently_sat, free_literals_found, implication_literals)
    }

    /// How many literals of the clause are set at the given level.
    pub fn count_at_level(&self, clause: &Vec<u32>, level: i32) -> (count: usize)
        ensures
            count == level_count(self@.trail, clause@, level as int),
    {
        let ghost trail = self@.trail;
        let mut count: usize = 0;
        let mut k: usize = 0;
        proof {
            reveal(Seq::filter);
            assert(clause@.take(0) =~= Seq::empty());
        }
        while k < clause.len()
            invariant
                0 <= k <= clause.len(),
                trail == self@.trail,
                count <= k,
                count == level_count(trail, clause@.take(k as int), level as int),
            decreases clause.len() - k,
        {
            let literal = clause[k];
            proof {
                let prefix = clause@.take(k as int);
                assert(clause@.take(k as int + 1) =~= prefix.push(literal));
                prefix.lemma_filter_push(literal, on_level(trail, level as int));
            }
            if self.assignments_find_at_decisionlevel(&literal, &level) {
                count += 1;
            }
            k += 1;
        }
        assert(clause@.take(clause.len() as int) =~= clause@);
        count
    }

    /// The working clause without the literals of the current level, but for
    /// the negation of `decision`.
    pub fn fallback_filter(&self, working: &Vec<u32>, decision: u32) -> (clause: Vec<u32>)
        ensures
            clause@ == fallback(self@.trail, self@.level, decision, working@),
    {
        let ghost trail = self@.trail;
        let ghost keep = survives(trail, self@.level, decision);
        let mut clause: Vec<u32> = Vec::new();
        let mut k: usize = 0;
        proof {
            reveal(Seq::filter);
            assert(working@.take(0) =~= Seq::empty());
        }
        while k < working.len()
            invariant
                0 <= k <= working.len(),
                trail == self@.trail,
                keep == survives(trail, self@.level, decision),
                clause@ == working@.take(k as int).filter(keep),
            decreases working.len() - k,
        {
            let literal = working[k];
            proof {
                let prefix = working@.take(k as int);
                assert(working@.take(k as int + 1) =~= prefix.push(literal));
                prefix.lemma_filter_push(literal, keep);
            }
            match self.assignment_find_decision_level(&literal) {
                Some(x) => {
                    if x != self.m_decision_level || literal == negated(decision) {
                        clause.push(literal);
                    }
                },
                None => {},
            }
            k += 1;
        }
        assert(working@.take(working.len() as int) =~= working@);
        clause
    }

    /// The highest level below `bound` among the literals of the clause, or
    /// -1 if none of them is set below `bound`.
    pub fn highest_level_below(&self, clause: &Vec<u32>, bound: i64) -> (level: i32)
        ensures
            level == highest_below(self@.trail, clause@, clause.len() as int, bound as int),
    {
        let mut best: i32 = -1;
        let mut k: usize = 0;
        while k < clause.len()
            invariant
                0 <= k <= clause.len(),
                best == highest_below(self@.trail, clause@, k as int, bound as int),
            decreases clause.len() - k,
        {
            match self.assignment_find_decision_level(&clause[k]) {
                Some(x) => {
                    if best < x && (x as i64) < bound {
                        best = x;
                    }
                },
                None => {},
            }
            k += 1;
        }
        best
    }

    /// The level to jump back to after learning `clause`, or -1 when the
    /// clause refutes the formula.
    pub fn assertion_level(&self, clause: &Vec<u32>) -> (level: i32)
        ensures
            level == assertion_level(self@.trail, clause@),
    {
        if clause.len() == 1 {
            match self.assignment_find_decision_level(&clause[0]) {
                Some(x) => if x == 0 {
                    -1
                } else {
                    0
                },
                None => 0,
            }
        } else {
            let top = self.highest_level_below(clause, 0x8000_0000);
            let second = self.highest_level_below(clause, top as i64);
            if second >= 0 {
                second
            } else if top >= 0 {
                top - 1
            } else {
                -1
            }
        }
    }

    /// Learns a clause from a falsified one: resolves it with the clauses
    /// that forced literals at the current level, last first, until exactly
    /// one literal of the current level is left; if that never happens, drops
    /// the literals of the current level but for the negated decision.
    pub fn learn(&self, conflict: &Vec<u32>) -> (clause: Vec<u32>)
        requires
            self.wf(),
            self@.level >= 1,
        ensures
            clause@ == learned_clause(self@, conflict@),
    {
        proof {
            lemma_records_view(self.m_implications);
        }
        let records = &self.m_implications[self.m_decision_level as usize];
        let ghost trail = self@.trail;
        let ghost level = self@.level;
        let ghost model = self@.implications[level];
        let mut working = copy_clause(conflict);
        let mut n: usize = records.len();
        let mut found = false;
        while n > 0 && !found
            invariant
                0 <= n <= records.len(),
                trail == self@.trail,
                level == self@.level == self.m_decision_level,
                model.len() == records.len(),
                forall|j: int| 0 <= j < records.len() ==> (#[trigger] model[j]).clause
                    == records@[j].implied_by_clause@,
                analysis(trail, level, model, model.len() as int, conflict@) == if found {
                    (working@, true)
                } else {
                    analysis(trail, level, model, n as int, working@)
                },
            decreases n + if found { 0int } else { 1int },
        {
            working = Self::update_partial_clause(&working, &records[n - 1].implied_by_clause);
            n -= 1;
            if self.count_at_level(&working, self.m_decision_level) == 1 {
                found = true;
            }
        }
        if !found {
            let decision = self.m_decisions[self.m_decisions.len() - 1];
            working = self.fallback_filter(&working, decision);
        }
        working
    }

    /// Adds the learned clause and jumps back to `level`: drops what the
    /// trail holds above that level, the decisions of the levels above, and
    /// their implication records.
    fn backjump(&mut self, clause: Vec<u32>, level: i32)
        requires
            old(self).wf(),
            0 <= level < old(self)@.level,
        ensures
            final(self)@ == backjumped(old(self)@, clause@, level as int),
            final(self).table_wf(),
    {
        proof {
            lemma_clauses_view(self.m_clauses);
            lemma_records_view(self.m_implications);
        }
        self.m_clauses.push(clause);
        let entries = trail_entries(&self.m_assignments);
        let ghost before = trail_map(self.m_assignments);
        let mut k: usize = 0;
        while k < entries.len()
            invariant
                0 <= k <= entries.len(),
                forall|i: int|
                    0 <= i < entries@.len() ==> before.dom().contains(#[trigger] entries@[i].0)
                        && before[entries@[i].0] == entries@[i].1,
                forall|lit: u32| #[trigger]
                    trail_map(self.m_assignments).dom().contains(lit) <==> before.dom().contains(lit)
                        && !exists|i: int|
                        0 <= i < k && #[trigger] entries@[i].0 == lit && entries@[i].1 > level,
                forall|lit: u32| #[trigger]
                    trail_map(self.m_assignments).dom().contains(lit) ==> trail_map(
                        self.m_assignments,
                    )[lit] == before[lit],
                self.m_clauses@ == old(self).m_clauses@.push(clause),
                self.m_variables == old(self).m_variables,
                self.m_decisions == old(self).m_decisions,
                self.m_implications == old(self).m_implications,
                self.m_decision_level == old(self).m_decision_level,
                self.m_input_count == old(self).m_input_count,
                self.m_decide_count == old(self).m_decide_count,
                self.m_finished == old(self).m_finished,
                self.m_satisfiable == old(self).m_satisfiable,
            decreases entries.len() - k,
        {
            let (lit, set_at) = entries[k];
            if set_at > level {
                let ghost current = trail_map(self.m_assignments);
                trail_remove(&mut self.m_assignments, lit);
                proof {
                    assert forall|x: u32| #[trigger]
                        trail_map(self.m_assignments).dom().contains(x) <==> before.dom().contains(x)
                            && !exists|i: int|
                            0 <= i < k + 1 && #[trigger] entries@[i].0 == x && entries@[i].1
                                > level by {
                        if x == lit {
                            assert(entries@[k as int].0 == x);
                        } else if current.dom().contains(x) {
                            if exists|i: int|
                                0 <= i < k + 1 && #[trigger] entries@[i].0 == x && entries@[i].1
                                    > level {
                                let i = choose|i: int|
                                    0 <= i < k + 1 && #[trigger] entries@[i].0 == x && entries@[i].1
                                        > level;
                                assert(i < k);
                            }
                        } else if before.dom().contains(x) {
                            let i = choose|i: int|
                                0 <= i < k && #[trigger] entries@[i].0 == x && entries@[i].1 > level;
                            assert(entries@[i].0 == x);
                        }
                    }
                }
            } else {
                proof {
                    assert forall|x: u32| #[trigger]
                        trail_map(self.m_assignments).dom().contains(x) <==> before.dom().contains(x)
                            && !exists|i: int|
                            0 <= i < k + 1 && #[trigger] entries@[i].0 == x && entries@[i].1
                                > level by {
                        if trail_map(self.m_assignments).dom().contains(x) {
                            if exists|i: int|
                                0 <= i < k + 1 && #[trigger] entries@[i].0 == x && entries@[i].1
                                    > level {
                                let i = choose|i: int|
                                    0 <= i < k + 1 && #[trigger] entries@[i].0 == x && entries@[i].1
                                        > level;
                                assert(i < k);
                            }
                        } else if before.dom().contains(x) {
                            let i = choose|i: int|
                                0 <= i < k && #[trigger] entries@[i].0 == x && entries@[i].1 > level;
                            assert(entries@[i].0 == x);
                        }
                    }
                }
            }
            k += 1;
        }
        self.m_decisions.truncate(level as usize);
        self.m_implications.truncate(level as usize + 1);
        self.m_decision_level = level;
        proof {
            let target = backjumped(old(self)@, clause@, level as int);
            lemma_clauses_view(self.m_clauses);
            lemma_records_view(self.m_implications);
            assert(self@.clauses =~= target.clauses);
            assert(self@.decisions =~= target.decisions);
            assert(self@.implications =~= target.implications) by {
                assert forall|q: int| 0 <= q < level + 1 implies #[trigger] self@.implications[q]
                    =~= target.implications[q] by {}
            }
            assert(self@.trail =~= target.trail) by {
                assert forall|x: u32| self@.trail.dom().contains(x) <==> target.trail.dom().contains(
                    x,
                ) by {
                    if before.dom().contains(x) && before[x] > level {
                        let i = choose|i: int| 0 <= i < entries@.len() && #[trigger] entries@[i].0 == x;
                        assert(entries@[i].1 > level);
                    }
                    if before.dom().contains(x) && before[x] <= level {
                        if exists|i: int|
                            0 <= i < entries@.len() && #[trigger] entries@[i].0 == x && entries@[i].1
                                > level {
                            let i = choose|i: int|
                                0 <= i < entries@.len() && #[trigger] entries@[i].0 == x
                                    && entries@[i].1 > level;
                            assert(before[entries@[i].0] == entries@[i].1);
                        }
                    }
                }
            }
            assert(self@ == target);
        }
    }

    /// One propagation pass over the clauses, in order, up to the first
    /// clause that forces a literal or is falsified. A forced literal is
    /// asserted at the current level, with a record of why. A falsified
    /// clause at level 0 ends the search as unsatisfiable; at a higher level a
    /// clause is learned from it, and the search jumps back to the clause's
    /// assertion level, or ends as unsatisfiable if it has none. If no clause
    /// forces anything and all are satisfied, the search ends as satisfiable.
    /// The result is `true` when the pass came to rest: at a verdict, or with
    /// nothing to propagate; `false` asks for another pass.
    pub fn solve(&mut self) -> (rest: bool)
        requires
            old(self).wf(),
        ensures
            final(self).wf(),
            (final(self)@, rest) == step(old(self)@),
            final(self)@.level <= old(self)@.level,
            final(self)@.finished && final(self)@.satisfiable ==> all_satisfied(
                final(self)@.trail,
                final(self)@.clauses,
            ),
            final(self)@.finished && !final(self)@.satisfiable ==> unsatisfiable(
                input(final(self)@),
            ),
    {
        proof {
            lemma_step(self@);
            if self@.level >= 1 {
                law_backjump_lowers_level(self@, Seq::empty());
            }
            lemma_clauses_view(self.m_clauses);
            lemma_records_view(self.m_implications);
        }
        let ghost start = self@;
        let mut sat_count: usize = 0;
        let mut i: usize = 0;
        while i < self.m_clauses.len()
            invariant
                0 <= i <= self.m_clauses.len(),
                *self == *old(self),
                start == self@,
                self.wf(),
                inv(step(start).0),
                step(start).0.level <= start.level,
                sat_count <= i,
                sat_count == i <==> forall|j: int|
                    0 <= j < i ==> satisfied(start.trail, #[trigger] start.clauses[j]),
                forall|j: int| 0 <= j < i ==> !is_active(start.trail, #[trigger] start.clauses[j]),
                forall|j: int|
                    0 <= j < self.m_clauses.len() ==> #[trigger] start.clauses[j]
                        == self.m_clauses@[j]@,
                start.clauses.len() == self.m_clauses.len(),
            decreases self.m_clauses.len() - i,
        {
            let (currently_sat, free, implication_literals) = self.classify(&self.m_clauses[i]);
            assert(start.clauses[i as int] == self.m_clauses@[i as int]@);
            if free.len() == 1 && !currently_sat {
                proof {
                    lemma_first_active_is(start.trail, start.clauses, 0, i as int);
                }
                let implication_info = ImplicationInformation {
                    literal: free[0],
                    implied_by_vars: implication_literals,
                    implied_by_clause: copy_clause(&self.m_clauses[i]),
                };
                let ghost record = implication_info.deep_view();
                let mut list = self.m_implications.pop().unwrap();
                list.push(implication_info);
                self.m_implications.push(list);
                trail_insert(&mut self.m_assignments, free[0], self.m_decision_level);
                proof {
                    let target = propagated(start, i as int);
                    lemma_records_view(self.m_implications);
                    lemma_records_view(old(self).m_implications);
                    assert(self@.implications =~= target.implications) by {
                        assert forall|q: int| 0 <= q < start.level + 1 implies (
                        #[trigger] self@.implications[q]) =~= target.implications[q] by {}
                    }
                    assert(self@ == target);
                }
                return false;
            }
            if free.len() == 0 && !currently_sat {
                proof {
                    lemma_first_active_is(start.trail, start.clauses, 0, i as int);
                }
                if self.m_decision_level == 0 {
                    self.m_finished = true;
                    self.m_satisfiable = false;
                    assert(self@ == refuted(start));
                    return true;
                }
                let conflict_clause = self.learn(&self.m_clauses[i]);
                let a_level = self.assertion_level(&conflict_clause);
                if a_level < 0 {
                    self.m_finished = true;
                    self.m_satisfiable = false;
                    assert(self@ == refuted(start));
                    return true;
                }
                proof {
                    lemma_assertion_level_below(start, conflict_clause@);
                }
                self.backjump(conflict_clause, a_level);
                return false;
            }
            if currently_sat {
                sat_count += 1;
            }
            i += 1;
        }
        proof {
            lemma_first_active_is(start.trail, start.clauses, 0, i as int);
        }
        if sat_count == self.m_clauses.len() {
            self.m_finished = true;
            self.m_satisfiable = true;
            assert(self@ == confirmed(start));
        }
        true
    }

    /// Propagates until rest: makes propagation passes until one comes to
    /// rest, at a verdict or with nothing left to propagate. This takes at
    /// most `slack` passes beyond the first.
    pub fn propagate(&mut self)
        requires
            old(self).wf(),
        ensures
            final(self).wf(),
            final(self)@ == rest_after(old(self)@, slack(old(self)@) as nat),
            step(final(self)@) == (final(self)@, true),
            final(self)@.level <= old(self)@.level,
    {
        let ghost goal = rest_after(self@, slack(self@) as nat);
        proof {
            lemma_trail_is_finite(self@);
            lemma_rest_after(self@, slack(self@) as nat);
        }
        let mut rest = false;
        while !rest
            invariant
                self.wf(),
                rest ==> self@ == goal,
                !rest ==> rest_after(self@, slack(self@) as nat) == goal,
            decreases
                    slack(self@) + if rest {
                        0int
                    } else {
                        1int
                    },
        {
            proof {
                lemma_trail_is_finite(self@);
                if !step(self@).1 {
                    lemma_pass_lowers_slack(self@);
                    lemma_rest_after(step(self@).0, (slack(self@) - 1) as nat);
                }
            }
            rest = self.solve();
        }
    }

    /// Runs the search: propagates until rest, then decides at random, and
    /// so on, until a verdict is reached or `passes` propagation passes have
    /// been made. After `restart_after` random decisions since the last
    /// restart, the search restarts instead of deciding again. The result is
    /// the verdict, if one was reached.
    pub fn run(&mut self, passes: usize, restart_after: u32) -> (verdict: Option<bool>)
        requires
            old(self).wf(),
        ensures
            final(self).wf(),
            runs_to(old(self)@, passes as nat, restart_after as int, final(self)@),
            final(self)@.names == old(self)@.names,
            input(final(self)@) == input(old(self)@),
            verdict == if final(self)@.finished {
                Some(final(self)@.satisfiable)
            } else {
                None
            },
            verdict == Some(true) ==> all_satisfied(final(self)@.trail, final(self)@.clauses)
                && models(valuation_of(final(self)@.trail), input(old(self)@)),
            verdict == Some(false) ==> unsatisfiable(input(old(self)@)),
    {
        let ghost goal = old(self)@;
        let mut left = passes;
        while left > 0 && !self.m_finished
            invariant
                self.wf(),
                self@.names == goal.names,
                input(self@) == input(goal),
                forall|end: Search| #[trigger]
                    runs_to(self@, left as nat, restart_after as int, end) ==> runs_to(
                        goal,
                        passes as nat,
                        restart_after as int,
                        end,
                    ),
            decreases left,
        {
            left -= 1;
            let ghost before = self@;
            let rest = self.solve();
            proof {
                law_learned_clauses_are_entailed(before);
            }
            if rest && !self.m_finished {
                proof {
                    law_rest_leaves_a_choice(before);
                }
                if self.m_decide_count > restart_after {
                    self.restart();
                    assert(input(self@) == input(before));
                } else {
                    self.make_decision();
                    proof {
                        let lit = choose|lit: u32|
                            var_of(lit) < before.names.len() && unassigned(
                                before.trail,
                                var_of(lit),
                            ) && #[trigger] counted(decided(before, lit)) == self@;
                        assert(input(self@) == input(before));
                    }
                }
            }
            proof {
                assert(passes_to(before, restart_after as int, self@));
                assert forall|end: Search| #[trigger]
                    runs_to(self@, left as nat, restart_after as int, end) implies runs_to(
                    goal,
                    passes as nat,
                    restart_after as int,
                    end,
                ) by {
                    lemma_run_goes_on(
                        before,
                        (left + 1) as nat,
                        restart_after as int,
                        self@,
                        end,
                    );
                }
            }
        }
        proof {
            assert(runs_to(self@, left as nat, restart_after as int, self@));
            if self@.finished && self@.satisfiable {
                law_model_satisfies_input(self@);
            }
        }
        if self.m_finished {
            Some(self.m_satisfiable)
        } else {
            None
        }
    }
}

} // verus!
