//! From literal tokens to literals: which variable names a pile of clauses
//! mentions, in the order they are first seen, and the literals that the
//! tokens of a clause stand for.

use crate::literal::{encode, is_negated, var_of, MAX_VARIABLES};
use crate::search::in_range;
use crate::store::{
    table_entries, table_get, table_insert, table_len,
};
use crate::token::{
    is_negative, is_numeral, is_terminator, numeral, starts_with, terminator, trim, variable_name,
};
use indexmap::IndexMap;
use vstd::prelude::*;

verus! {

/// The token stands for a literal: it is not the terminator.
pub open spec fn is_variable_token(token: Seq<char>) -> bool {
    !is_terminator(token)
}

/// Every token of every clause is well formed.
pub open spec fn well_formed(pile: Seq<Seq<Seq<char>>>) -> bool {
    forall|c: int, k: int|
        0 <= c < pile.len() && 0 <= k < pile[c].len() ==> is_numeral(#[trigger] pile[c][k])
}

/// The names of a table's entries, in order.
pub open spec fn names_of(entries: Seq<(Seq<char>, u32)>) -> Seq<Seq<char>> {
    entries.map_values(|entry: (Seq<char>, u32)| entry.0)
}

/// The table that gives each name its position as identifier.
pub open spec fn numbered(names: Seq<Seq<char>>) -> Seq<(Seq<char>, u32)> {
    Seq::new(names.len(), |i: int| (names[i], i as u32))
}

/// No two entries of the table share a name.
pub open spec fn distinct_names(entries: Seq<(Seq<char>, u32)>) -> bool {
    forall|i: int, j: int|
        0 <= i < j < entries.len() ==> (#[trigger] entries[i]).0 != (#[trigger] entries[j]).0
}

/// The table of a solver: at most `MAX_VARIABLES` entries with distinct
/// names, each with its position as identifier.
pub open spec fn table_ok(entries: Seq<(Seq<char>, u32)>) -> bool {
    &&& entries.len() <= MAX_VARIABLES
    &&& distinct_names(entries)
    &&& forall|i: int| 0 <= i < entries.len() ==> (#[trigger] entries[i]).1 == i
}

/// The table has an entry for the token's variable, with an identifier that
/// fits a literal.
pub open spec fn registered(entries: Seq<(Seq<char>, u32)>, token: Seq<char>) -> bool {
    exists|i: int|
        0 <= i < entries.len() && (#[trigger] entries[i]).0 == variable_name(token) && entries[i].1
            <= MAX_VARIABLES
}

/// The identifier that the table stores for `name`.
pub open spec fn id_of(entries: Seq<(Seq<char>, u32)>, name: Seq<char>) -> u32 {
    entries[choose|i: int| 0 <= i < entries.len() && (#[trigger] entries[i]).0 == name].1
}

/// The literal that a token stands for: twice its variable's identifier, plus
/// one if it is negated.
pub open spec fn literal_for(entries: Seq<(Seq<char>, u32)>, token: Seq<char>) -> u32 {
    (2 * id_of(entries, variable_name(token)) + if is_negative(token) {
        1int
    } else {
        0int
    }) as u32
}

/// The literals of the first `n` tokens, terminators dropped.
pub open spec fn encoded(entries: Seq<(Seq<char>, u32)>, tokens: Seq<Seq<char>>, n: int) -> Seq<u32>
    decreases n,
{
    if n <= 0 {
        Seq::empty()
    } else {
        let before = encoded(entries, tokens, n - 1);
        if is_variable_token(tokens[n - 1]) {
            before.push(literal_for(entries, tokens[n - 1]))
        } else {
            before
        }
    }
}

/// The clause that a sequence of tokens stands for.
pub open spec fn encoded_clause(entries: Seq<(Seq<char>, u32)>, tokens: Seq<Seq<char>>) -> Seq<u32> {
    encoded(entries, tokens, tokens.len() as int)
}

/// The clauses that a pile of token sequences stands for.
pub open spec fn encoded_pile(entries: Seq<(Seq<char>, u32)>, pile: Seq<Seq<Seq<char>>>) -> Seq<
    Seq<u32>,
> {
    Seq::new(pile.len(), |i: int| encoded_clause(entries, pile[i]))
}

/// How a literal is written: the name of its variable, after a `-` if it is
/// negated.
pub open spec fn literal_text(names: Seq<Seq<char>>, lit: u32) -> Seq<char> {
    if is_negated(lit) {
        seq!['-'] + names[var_of(lit)]
    } else {
        names[var_of(lit)]
    }
}

/// The names with the token's variable added, if it is new.
pub open spec fn with_token(names: Seq<Seq<char>>, token: Seq<char>) -> Seq<Seq<char>> {
    if is_variable_token(token) && !names.contains(variable_name(token)) {
        names.push(variable_name(token))
    } else {
        names
    }
}

/// The names with the variables of the first `n` tokens added.
pub open spec fn with_tokens(names: Seq<Seq<char>>, tokens: Seq<Seq<char>>, n: int) -> Seq<Seq<char>>
    decreases n,
{
    if n <= 0 {
        names
    } else {
        with_token(with_tokens(names, tokens, n - 1), tokens[n - 1])
    }
}

/// The names with the variables of the first `n` clauses added.
pub open spec fn with_clauses(names: Seq<Seq<char>>, pile: Seq<Seq<Seq<char>>>, n: int) -> Seq<
    Seq<char>,
>
    decreases n,
{
    if n <= 0 {
        names
    } else {
        with_tokens(with_clauses(names, pile, n - 1), pile[n - 1], pile[n - 1].len() as int)
    }
}

/// The variable names that a pile of clauses mentions, in the order they are
/// first seen.
pub open spec fn variable_names(pile: Seq<Seq<Seq<char>>>) -> Seq<Seq<char>> {
    with_clauses(Seq::empty(), pile, pile.len() as int)
}

/// Adding tokens keeps the names that are there, in place, and adds the
/// variable of each token.
pub proof fn lemma_with_tokens(names: Seq<Seq<char>>, tokens: Seq<Seq<char>>, n: int, m: int)
    requires
        0 <= n <= m <= tokens.len(),
    ensures
        with_tokens(names, tokens, n).len() <= with_tokens(names, tokens, m).len(),
        forall|i: int|
            0 <= i < with_tokens(names, tokens, n).len() ==> with_tokens(names, tokens, m)[i]
                == #[trigger] with_tokens(names, tokens, n)[i],
        forall|k: int|
            0 <= k < m && is_variable_token(#[trigger] tokens[k]) ==> with_tokens(
                names,
                tokens,
                m,
            ).contains(variable_name(tokens[k])),
    decreases m,
{
    if m > 0 {
        let before = with_tokens(names, tokens, m - 1);
        let after = with_tokens(names, tokens, m);
        if n < m {
            lemma_with_tokens(names, tokens, n, m - 1);
        } else {
            lemma_with_tokens(names, tokens, m - 1, m - 1);
        }
        assert forall|k: int|
            0 <= k < m && is_variable_token(#[trigger] tokens[k]) implies after.contains(
            variable_name(tokens[k]),
        ) by {
            if k < m - 1 {
                let i = choose|i: int| 0 <= i < before.len() && before[i] == variable_name(tokens[k]);
                assert(after[i] == variable_name(tokens[k]));
            } else if before.contains(variable_name(tokens[k])) {
            } else {
                assert(after[before.len() as int] == variable_name(tokens[k]));
            }
        }
    }
}

/// Adding clauses keeps the names that are there, in place, and adds the
/// variable of each token of each clause.
pub proof fn lemma_with_clauses(names: Seq<Seq<char>>, pile: Seq<Seq<Seq<char>>>, n: int, m: int)
    requires
        0 <= n <= m <= pile.len(),
    ensures
        with_clauses(names, pile, n).len() <= with_clauses(names, pile, m).len(),
        forall|i: int|
            0 <= i < with_clauses(names, pile, n).len() ==> with_clauses(names, pile, m)[i]
                == #[trigger] with_clauses(names, pile, n)[i],
        forall|c: int, k: int|
            0 <= c < m && 0 <= k < pile[c].len() && is_variable_token(#[trigger] pile[c][k])
                ==> with_clauses(names, pile, m).contains(variable_name(pile[c][k])),
    decreases m,
{
    if m > 0 {
        let before = with_clauses(names, pile, m - 1);
        let after = with_clauses(names, pile, m);
        let tokens = pile[m - 1];
        if n < m {
            lemma_with_clauses(names, pile, n, m - 1);
        } else {
            lemma_with_clauses(names, pile, m - 1, m - 1);
        }
        lemma_with_tokens(before, tokens, 0, tokens.len() as int);
        assert forall|c: int, k: int|
            0 <= c < m && 0 <= k < pile[c].len() && is_variable_token(
                #[trigger] pile[c][k],
            ) implies after.contains(variable_name(pile[c][k])) by {
            if c < m - 1 {
                let i = choose|i: int| 0 <= i < before.len() && before[i] == variable_name(pile[c][k]);
                assert(after[i] == variable_name(pile[c][k]));
            }
        }
    }
}

/// In a table with distinct names, the identifier of a name is the one of
/// the entry that has the name.
pub proof fn lemma_id_of(entries: Seq<(Seq<char>, u32)>, i: int)
    requires
        distinct_names(entries),
        0 <= i < entries.len(),
    ensures
        id_of(entries, entries[i].0) == entries[i].1,
{
    let j = choose|j: int| 0 <= j < entries.len() && (#[trigger] entries[j]).0 == entries[i].0;
    assert(entries[i].0 == entries[i].0);
    if i < j {
        assert(entries[i].0 != entries[j].0);
    } else if j < i {
        assert(entries[j].0 != entries[i].0);
    }
}

/// A clause encoded with a solver's table speaks of the table's variables.
pub proof fn lemma_encoded_in_range(entries: Seq<(Seq<char>, u32)>, tokens: Seq<Seq<char>>, n: int)
    requires
        table_ok(entries),
        0 <= n <= tokens.len(),
        forall|k: int|
            0 <= k < tokens.len() && is_variable_token(#[trigger] tokens[k]) ==> registered(
                entries,
                tokens[k],
            ),
    ensures
        in_range(encoded(entries, tokens, n), entries.len() as int),
    decreases n,
{
    if n > 0 {
        lemma_encoded_in_range(entries, tokens, n - 1);
        if is_variable_token(tokens[n - 1]) {
            assert(registered(entries, tokens[n - 1]));
            let i = choose|i: int|
                0 <= i < entries.len() && (#[trigger] entries[i]).0 == variable_name(tokens[n - 1])
                    && entries[i].1 <= MAX_VARIABLES;
            lemma_id_of(entries, i);
            let lit = literal_for(entries, tokens[n - 1]);
            assert(var_of(lit) == i);
        }
    }
}

/// Whether every token of every clause is well formed.
pub fn all_numerals(clause_pile: &Vec<Vec<String>>) -> (b: bool)
    ensures
        b == well_formed(clause_pile.deep_view()),
{
    let ghost pile = clause_pile.deep_view();
    let mut c: usize = 0;
    while c < clause_pile.len()
        invariant
            0 <= c <= clause_pile.len(),
            pile == clause_pile.deep_view(),
            forall|q: int, k: int|
                0 <= q < c && 0 <= k < pile[q].len() ==> is_numeral(#[trigger] pile[q][k]),
        decreases clause_pile.len() - c,
    {
        let clause = &clause_pile[c];
        assert(pile[c as int] == clause.deep_view());
        let mut k: usize = 0;
        while k < clause.len()
            invariant
                0 <= k <= clause.len(),
                0 <= c < clause_pile.len(),
                pile == clause_pile.deep_view(),
                pile[c as int] == clause.deep_view(),
                forall|j: int| 0 <= j < k ==> is_numeral(#[trigger] pile[c as int][j]),
            decreases clause.len() - k,
        {
            assert(clause[k as int]@ == pile[c as int][k as int]);
            if !numeral(clause[k].as_str()) {
                return false;
            }
            k += 1;
        }
        c += 1;
    }
    true
}

/// Registers the variables of a clause's tokens that the table does not hold
/// yet, each with the next free identifier. Gives up, with `false`, when the
/// table would grow beyond `MAX_VARIABLES` entries.
pub(crate) fn register_tokens(table: &mut IndexMap<String, u32>, clause: &Vec<String>) -> (fits: bool)
    requires
        table_ok(table_entries(*old(table))),
    ensures
        fits ==> table_ok(table_entries(*final(table))) && names_of(table_entries(*final(table)))
            == with_tokens(
            names_of(table_entries(*old(table))),
            clause.deep_view(),
            clause.len() as int,
        ),
        !fits ==> with_tokens(
            names_of(table_entries(*old(table))),
            clause.deep_view(),
            clause.len() as int,
        ).len() > MAX_VARIABLES,
{
    let ghost start = names_of(table_entries(*table));
    let ghost tokens = clause.deep_view();
    let mut k: usize = 0;
    while k < clause.len()
        invariant
            0 <= k <= clause.len(),
            tokens == clause.deep_view(),
            start == names_of(table_entries(*old(table))),
            table_ok(table_entries(*table)),
            names_of(table_entries(*table)) == with_tokens(start, tokens, k as int),
        decreases clause.len() - k,
    {
        let token = clause[k].as_str();
        assert(token@ == tokens[k as int]);
        let negative = starts_with(token, '-');
        let variable = !terminator(token);
        if variable {
            let name = if negative {
                trim(token, '-')
            } else {
                token
            };
            let ghost entries = table_entries(*table);
            let found = table_get(table, name);
            proof {
                lemma_with_tokens(start, tokens, k as int + 1, clause.len() as int);
                if found.is_some() {
                    let i = choose|i: int|
                        0 <= i < entries.len() && #[trigger] entries[i] == (name@, found.unwrap());
                    assert(names_of(entries)[i] == name@);
                } else {
                    if names_of(entries).contains(name@) {
                        let i = choose|i: int|
                            0 <= i < names_of(entries).len() && names_of(entries)[i] == name@;
                        assert(entries[i].0 == name@);
                    }
                }
            }
            if found.is_none() {
                let id = table_len(table);
                if id >= MAX_VARIABLES as usize {
                    proof {
                        assert(!names_of(entries).contains(name@));
                        assert(with_tokens(start, tokens, k as int + 1) == names_of(entries).push(
                            name@,
                        ));
                    }
                    return false;
                }
                table_insert(table, name.to_owned(), id as u32);
                proof {
                    let grown = table_entries(*table);
                    assert(names_of(grown) =~= names_of(entries).push(name@));
                    assert forall|i: int, j: int| 0 <= i < j < grown.len() implies (
                    #[trigger] grown[i]).0 != (#[trigger] grown[j]).0 by {
                        if j == entries.len() {
                            assert(entries[i].0 != name@);
                        } else {
                            assert(entries[i].0 != entries[j].0);
                        }
                    }
                }
            }
        }
        k += 1;
    }
    true
}

/// Encodes the tokens of a clause with the identifiers of a table.
pub(crate) fn encode_tokens(table: &IndexMap<String, u32>, clause: &Vec<String>) -> (literals: Vec<
    u32,
>)
    requires
        distinct_names(table_entries(*table)),
        forall|k: int|
            0 <= k < clause.len() && is_variable_token(#[trigger] clause.deep_view()[k])
                ==> registered(table_entries(*table), clause.deep_view()[k]),
    ensures
        literals@ == encoded_clause(table_entries(*table), clause.deep_view()),
{
    let ghost entries = table_entries(*table);
    let ghost tokens = clause.deep_view();
    let mut literals: Vec<u32> = Vec::new();
    let mut k: usize = 0;
    while k < clause.len()
        invariant
            0 <= k <= clause.len(),
            tokens == clause.deep_view(),
            entries == table_entries(*table),
            distinct_names(entries),
            forall|q: int|
                0 <= q < tokens.len() && is_variable_token(#[trigger] tokens[q]) ==> registered(
                    entries,
                    tokens[q],
                ),
            literals@ == encoded(entries, tokens, k as int),
        decreases clause.len() - k,
    {
        let token = clause[k].as_str();
        assert(token@ == tokens[k as int]);
        let negative = starts_with(token, '-');
        let variable = !terminator(token);
        if variable {
            let name = if negative {
                trim(token, '-')
            } else {
                token
            };
            let found = table_get(table, name);
            proof {
                assert(registered(entries, tokens[k as int]));
                let i = choose|i: int|
                    0 <= i < entries.len() && (#[trigger] entries[i]).0 == variable_name(
                        tokens[k as int],
                    ) && entries[i].1 <= MAX_VARIABLES;
                lemma_id_of(entries, i);
                if found.is_some() {
                    let j = choose|j: int|
                        0 <= j < entries.len() && #[trigger] entries[j] == (name@, found.unwrap());
                    lemma_id_of(entries, j);
                }
            }
            match found {
                Some(id) => {
                    literals.push(encode(id, negative));
                },
                None => {
                    proof {
                        assert(false);
                    }
                },
            }
        }
        k += 1;
    }
    literals
}

} // verus!
