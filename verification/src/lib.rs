//! A conflict-driven clause learning engine for propositional formulas in
//! conjunctive normal form.
//!
//! The executable solver is `cnf_formula::CNFFormula`. Its contracts speak of
//! a mathematical model of the search:
//!
//! - `literal` fixes how variables and polarities are packed into integers,
//!   `token` and `encoding` how literal tokens become literals;
//! - `semantics` says what it means for a clause to hold and for a formula to
//!   entail a clause;
//! - `search` is the model: the state of a search, its transitions, and the
//!   invariant that the transitions keep;
//! - `clause_lemmas`, `analysis_lemmas` and `preservation` prove that they
//!   keep it, `progress` that propagation comes to rest, and `laws` states
//!   what follows for the user of the solver;
//! - `store` and `random` hold what is taken on trust of the hash maps and of
//!   the random number generator that the solver uses.

pub mod analysis_lemmas;
pub mod clause_lemmas;
pub mod cnf_formula;
pub mod encoding;
pub mod laws;
pub mod literal;
pub mod preservation;
pub mod progress;
pub mod random;
pub mod search;
pub mod semantics;
pub mod store;
pub mod token;
pub mod vectors;
