use rusty_sat::cnf_formula::CNFFormula;

fn pile(clauses: &[&[&str]]) -> Vec<Vec<String>> {
    clauses
        .iter()
        .map(|clause| clause.iter().map(|token| token.to_string()).collect())
        .collect()
}

/// A small deterministic generator of pseudo-random numbers.
struct Lcg(u64);

impl Lcg {
    fn next(&mut self, bound: u64) -> u64 {
        self.0 = self.0.wrapping_mul(6364136223846793005).wrapping_add(1442695040888963407);
        (self.0 >> 33) % bound
    }
}

fn holds(assignment: u32, literal: u32) -> bool {
    ((assignment >> (literal >> 1)) & 1 == 1) != (literal & 1 == 1)
}

fn satisfies(assignment: u32, clauses: &[Vec<u32>]) -> bool {
    clauses.iter().all(|clause| clause.iter().any(|&literal| holds(assignment, literal)))
}

fn brute_force(variables: u32, clauses: &[Vec<u32>]) -> bool {
    (0..1u32 << variables).any(|assignment| satisfies(assignment, clauses))
}

fn entailed(variables: u32, clauses: &[Vec<u32>], clause: &[u32]) -> bool {
    (0..1u32 << variables).all(|assignment| {
        !satisfies(assignment, clauses) || clause.iter().any(|&literal| holds(assignment, literal))
    })
}

fn check_trail(formula: &CNFFormula) {
    let entries = formula.assignments();
    for &(literal, level) in &entries {
        assert!(entries.iter().all(|&(other, _)| other != literal ^ 1));
        assert!(0 <= level && level <= formula.decision_level());
    }
}

enum Decide {
    Forced,
    Cyclic(u64),
    Random,
}

/// Alternates propagation and decisions until the solver has finished. With
/// `decide_first` a decision is made before anything is propagated.
fn run(formula: &mut CNFFormula, how: &Decide, decide_first: bool) -> bool {
    let mut generator = Lcg(match how {
        Decide::Cyclic(seed) => *seed,
        _ => 1,
    });
    let variables = formula.variable_count();
    let mut first = true;
    let mut passes = 0;
    loop {
        if (!first || decide_first) && !formula.is_finished() && formula.has_unassigned_variable() {
            match how {
                Decide::Forced => {
                    let var = (0..variables as u32).find(|&var| formula.is_unassigned(var)).unwrap();
                    formula.make_decision_fake(var, true);
                },
                Decide::Cyclic(_) => {
                    let start = generator.next(variables as u64) as u32;
                    let polarity = generator.next(2) == 1;
                    formula.make_decision_from(start, polarity);
                },
                Decide::Random => formula.make_decision(),
            }
            check_trail(formula);
        }
        first = false;
        loop {
            let level = formula.decision_level();
            let rest = formula.solve();
            check_trail(formula);
            assert!(formula.decision_level() <= level);
            passes += 1;
            assert!(passes < 100_000, "the search does not end");
            if rest {
                break;
            }
        }
        if formula.is_finished() {
            return formula.is_satisfiable();
        }
    }
}

#[test]
fn a_variable_and_its_negation_are_unsatisfiable() {
    let mut formula = CNFFormula::new(pile(&[&["1", "0"], &["-1", "0"]]));
    assert!(!formula.solve());
    assert!(formula.solve());
    assert!(formula.is_finished());
    assert!(!formula.is_satisfiable());
    assert_eq!(formula.decision_level(), 0);
    assert!(formula.decisions().is_empty());
    assert_eq!(formula.clauses().len(), 2);
}

#[test]
fn two_variables_with_three_clauses_are_satisfiable() {
    for decide_first in [false, true] {
        for how in [Decide::Forced, Decide::Cyclic(3), Decide::Cyclic(4), Decide::Random] {
            let mut formula =
                CNFFormula::new(pile(&[&["1", "2", "0"], &["-1", "2", "0"], &["1", "-2", "0"]]));
            assert!(run(&mut formula, &how, decide_first));
            let model = formula.model();
            assert_eq!(model[0], ("1".to_string(), Some(true)));
            assert_eq!(model[1], ("2".to_string(), Some(true)));
        }
    }
}

#[test]
fn at_most_one_of_three_is_satisfiable() {
    for decide_first in [false, true] {
        for how in [Decide::Forced, Decide::Cyclic(1), Decide::Cyclic(7), Decide::Random] {
            let mut formula = CNFFormula::new(pile(&[
                &["1", "2", "3", "0"],
                &["-1", "-2", "0"],
                &["-2", "-3", "0"],
                &["-1", "-3", "0"],
            ]));
            assert!(run(&mut formula, &how, decide_first));
            let model = formula.model();
            let chosen = model.iter().filter(|(_, value)| *value == Some(true)).count();
            assert_eq!(chosen, 1);
            let rejected = model.iter().filter(|(_, value)| *value == Some(false)).count();
            assert_eq!(rejected, 2);
        }
    }
}

fn pigeons(pigeons: usize, holes: usize) -> Vec<Vec<String>> {
    let name = |pigeon: usize, hole: usize| format!("{}", pigeon * holes + hole + 1);
    let mut clauses = Vec::new();
    for pigeon in 0..pigeons {
        let mut clause: Vec<String> = (0..holes).map(|hole| name(pigeon, hole)).collect();
        clause.push("0".to_string());
        clauses.push(clause);
    }
    for hole in 0..holes {
        for first in 0..pigeons {
            for second in first + 1..pigeons {
                clauses.push(vec![
                    format!("-{}", name(first, hole)),
                    format!("-{}", name(second, hole)),
                    "0".to_string(),
                ]);
            }
        }
    }
    clauses
}

#[test]
fn three_pigeons_do_not_fit_two_holes() {
    for decide_first in [false, true] {
        for how in [Decide::Forced, Decide::Cyclic(5), Decide::Cyclic(11), Decide::Random] {
            let mut formula = CNFFormula::new(pigeons(3, 2));
            assert_eq!(formula.variable_count(), 6);
            assert_eq!(formula.clauses().len(), 9);
            assert!(!run(&mut formula, &how, decide_first));
            assert!(formula.is_finished());
        }
    }
}

#[test]
fn four_pigeons_do_not_fit_three_holes_and_three_fit() {
    let mut formula = CNFFormula::new(pigeons(4, 3));
    assert!(!run(&mut formula, &Decide::Cyclic(2), true));
    let mut formula = CNFFormula::new(pigeons(3, 3));
    assert!(run(&mut formula, &Decide::Cyclic(2), true));
}

#[test]
fn a_single_unit_clause_needs_no_decision() {
    let mut formula = CNFFormula::new(pile(&[&["1", "0"]]));
    assert!(!formula.solve());
    assert_eq!(formula.assignments(), vec![(0u32, 0i32)]);
    assert!(formula.solve());
    assert!(formula.is_finished());
    assert!(formula.is_satisfiable());
    assert!(formula.decisions().is_empty());
    assert_eq!(formula.decide_count(), 1);
    assert_eq!(formula.model(), vec![("1".to_string(), Some(true))]);
}

#[test]
fn the_empty_clause_is_unsatisfiable() {
    let mut formula = CNFFormula::new(pile(&[&["1", "2"], &["0"]]));
    assert!(formula.solve());
    assert!(formula.is_finished());
    assert!(!formula.is_satisfiable());
}

#[test]
fn the_empty_formula_is_satisfiable() {
    let mut formula = CNFFormula::new(Vec::new());
    assert!(formula.solve());
    assert!(formula.is_finished());
    assert!(formula.is_satisfiable());
    assert!(formula.model().is_empty());
}

#[test]
fn a_conflict_above_level_zero_does_not_end_the_search() {
    let mut formula = CNFFormula::new(pile(&[&["1", "0"]]));
    formula.make_decision_fake(0, false);
    assert!(!formula.solve());
    assert!(!formula.is_finished());
    assert_eq!(formula.decision_level(), 0);
    assert_eq!(formula.clauses(), &vec![vec![0u32], vec![0]]);
    assert!(!formula.solve());
    assert!(formula.solve());
    assert!(formula.is_satisfiable());
}

fn random_formula(generator: &mut Lcg) -> (u32, Vec<Vec<String>>, Vec<Vec<u32>>) {
    let variables = 1 + generator.next(6) as u32;
    let count = generator.next(15);
    let mut tokens = Vec::new();
    let mut clauses = Vec::new();
    // every variable is named once, so that identifiers are the numbers used below
    let mut first: Vec<String> = (0..variables).map(|var| format!("{}", var + 1)).collect();
    first.push("0".to_string());
    tokens.push(first);
    clauses.push((0..variables).map(|var| 2 * var).collect::<Vec<u32>>());
    for _ in 0..count {
        let width = 1 + generator.next(3) as u32;
        let mut clause_tokens = Vec::new();
        let mut clause = Vec::new();
        let mut var = generator.next(variables as u64) as u32;
        for _ in 0..width.min(variables) {
            let negative = generator.next(2) == 1;
            clause_tokens.push(format!("{}{}", if negative { "-" } else { "" }, var + 1));
            clause.push(2 * var + negative as u32);
            var = (var + 1) % variables;
        }
        clause_tokens.push("0".to_string());
        tokens.push(clause_tokens);
        clauses.push(clause);
    }
    (variables, tokens, clauses)
}

#[test]
fn verdicts_agree_with_exhaustive_search() {
    let mut generator = Lcg(2024);
    let mut satisfiable = 0;
    let mut refuted = 0;
    for round in 0..400 {
        let (variables, tokens, clauses) = random_formula(&mut generator);
        let expected = brute_force(variables, &clauses);
        for decide_first in [false, true] {
            for how in [Decide::Forced, Decide::Cyclic(round), Decide::Random] {
                let mut formula = CNFFormula::new(tokens.clone());
                assert_eq!(formula.clauses(), &clauses);
                let verdict = run(&mut formula, &how, decide_first);
                assert_eq!(verdict, expected, "formula {:?}", clauses);
            }
        }
        if expected {
            satisfiable += 1;
        } else {
            refuted += 1;
        }
    }
    assert!(satisfiable > 20 && refuted > 20);
}

#[test]
fn models_satisfy_every_input_clause() {
    let mut generator = Lcg(77);
    for round in 0..300 {
        let (_, tokens, clauses) = random_formula(&mut generator);
        let mut formula = CNFFormula::new(tokens);
        if run(&mut formula, &Decide::Cyclic(round), round % 2 == 0) {
            let model = formula.model();
            for clause in &clauses {
                assert!(clause.iter().any(|&literal| {
                    model[(literal >> 1) as usize].1 == Some(literal & 1 == 0)
                }));
                assert!(clause
                    .iter()
                    .any(|literal| formula.assignments().iter().any(|(set, _)| set == literal)));
            }
        }
    }
}

#[test]
fn learned_clauses_follow_from_the_input() {
    let mut generator = Lcg(4711);
    let mut learned = 0;
    for round in 0..300 {
        let (variables, tokens, clauses) = random_formula(&mut generator);
        let mut formula = CNFFormula::new(tokens);
        run(&mut formula, &Decide::Cyclic(round), true);
        assert_eq!(formula.input_count(), clauses.len());
        assert_eq!(&formula.clauses()[..clauses.len()], &clauses[..]);
        for clause in &formula.clauses()[clauses.len()..] {
            assert!(entailed(variables, &clauses, clause), "{:?} from {:?}", clause, clauses);
            learned += 1;
        }
    }
    assert!(learned > 50);
}

#[test]
fn a_pass_after_rest_changes_nothing() {
    let mut generator = Lcg(99);
    for round in 0..200 {
        let (variables, tokens, _) = random_formula(&mut generator);
        let mut formula = CNFFormula::new(tokens);
        let mut decisions = 0;
        loop {
            while !formula.solve() {}
            let level = formula.decision_level();
            let finished = formula.is_finished();
            let satisfiable = formula.is_satisfiable();
            let entries = formula.assignments();
            let clauses = formula.clauses().clone();
            let chosen = formula.decisions().clone();
            let records = formula.current_level_implications().len();
            assert!(formula.solve());
            assert_eq!(formula.decision_level(), level);
            assert_eq!(formula.is_finished(), finished);
            assert_eq!(formula.is_satisfiable(), satisfiable);
            assert_eq!(formula.assignments(), entries);
            assert_eq!(formula.clauses(), &clauses);
            assert_eq!(formula.decisions(), &chosen);
            assert_eq!(formula.current_level_implications().len(), records);
            if finished || !formula.has_unassigned_variable() {
                break;
            }
            formula.make_decision_from(((round + decisions) % variables as u64) as u32, round % 3 == 0);
            decisions += 1;
            assert!(decisions < 10_000);
        }
    }
}

#[test]
fn the_verdict_survives_restarts() {
    let mut generator = Lcg(5);
    for round in 0..100 {
        let (variables, tokens, clauses) = random_formula(&mut generator);
        let expected = brute_force(variables, &clauses);
        let mut formula = CNFFormula::new(tokens);
        formula.make_decision_from(0, false);
        while !formula.solve() {}
        let learned = formula.clauses().len();
        if !formula.is_finished() {
            formula.restart();
            assert_eq!(formula.clauses().len(), learned);
        }
        assert_eq!(run(&mut formula, &Decide::Cyclic(round), false), expected);
    }
}

#[test]
fn run_reaches_the_right_verdicts() {
    let mut formula = CNFFormula::new(pile(&[&["1", "0"], &["-1", "0"]]));
    assert_eq!(formula.run(usize::MAX, u32::MAX), Some(false));
    assert!(formula.decisions().is_empty());
    let mut formula = CNFFormula::new(pile(&[&["1", "0"]]));
    assert_eq!(formula.run(usize::MAX, u32::MAX), Some(true));
    assert!(formula.decisions().is_empty());
    assert_eq!(formula.decide_count(), 1);
    let mut formula =
        CNFFormula::new(pile(&[&["1", "2", "0"], &["-1", "2", "0"], &["1", "-2", "0"]]));
    assert_eq!(formula.run(usize::MAX, u32::MAX), Some(true));
    assert_eq!(
        formula.model(),
        vec![("1".to_string(), Some(true)), ("2".to_string(), Some(true))]
    );
    let mut formula = CNFFormula::new(pigeons(3, 2));
    assert_eq!(formula.run(usize::MAX, u32::MAX), Some(false));
    assert!(formula.is_finished());
    assert!(!formula.is_satisfiable());
}

#[test]
fn run_stops_when_the_passes_are_used_up() {
    let mut formula = CNFFormula::new(pigeons(3, 2));
    assert_eq!(formula.run(0, u32::MAX), None);
    assert!(formula.assignments().is_empty());
    assert_eq!(formula.decision_level(), 0);
    assert_eq!(formula.run(1, u32::MAX), None);
    assert_eq!(formula.decision_level(), 1);
    assert_eq!(formula.assignments().len(), 1);
    assert_eq!(formula.decide_count(), 2);
    assert_eq!(formula.run(1, u32::MAX), None);
    assert_eq!(formula.assignments().len(), 2);
    assert_eq!(formula.run(usize::MAX, u32::MAX), Some(false));
    assert_eq!(formula.run(5, u32::MAX), Some(false));
}

#[test]
fn run_restarts_after_the_given_number_of_decisions() {
    // with no decision allowed, every rest ends in a restart
    let mut formula = CNFFormula::new(pile(&[&["1", "2", "3", "4"], &["-1", "-2"]]));
    assert_eq!(formula.run(50, 0), None);
    assert!(formula.assignments().is_empty());
    assert_eq!(formula.decide_count(), 1);
    assert_eq!(formula.decision_level(), 0);
    // three clauses that share no variable, each of four literals: one or two
    // decisions, whatever they are, force nothing and leave a clause unsatisfied
    let wide: &[&[&str]] =
        &[&["1", "2", "3", "4"], &["5", "6", "7", "8"], &["9", "10", "11", "12"]];
    let mut formula = CNFFormula::new(pile(wide));
    assert_eq!(formula.run(1, 1), None);
    assert_eq!(formula.decide_count(), 2);
    assert_eq!(formula.decision_level(), 1);
    assert_eq!(formula.assignments().len(), 1);
    assert_eq!(formula.run(1, 1), None);
    assert_eq!(formula.decide_count(), 1);
    assert_eq!(formula.decision_level(), 0);
    assert!(formula.assignments().is_empty());
    assert!(formula.decisions().is_empty());
    let mut formula = CNFFormula::new(pile(wide));
    assert_eq!(formula.run(2, 2), None);
    assert_eq!(formula.decide_count(), 3);
    assert_eq!(formula.decision_level(), 2);
    assert_eq!(formula.assignments().len(), 2);
    assert_eq!(formula.run(1, 2), None);
    assert_eq!(formula.decide_count(), 1);
    assert_eq!(formula.decision_level(), 0);
    assert!(formula.assignments().is_empty());
    assert_eq!(formula.clauses().len(), 3);
}

#[test]
fn run_keeps_what_was_learned_over_a_restart() {
    // 1 and 2 must both be true; the last clause needs a decision
    let mut formula = CNFFormula::new(pile(&[
        &["1", "2"],
        &["-1", "2"],
        &["1", "-2"],
        &["3", "4", "5"],
    ]));
    formula.make_decision_fake(0, false);
    // 2 is forced, the third clause is falsified, the clause (1) is learned,
    // then 1 and 2 are forced at level 0 and the search rests
    assert_eq!(formula.run(5, 0), None);
    assert_eq!(formula.clauses().len(), 5);
    assert_eq!(formula.clauses()[4], vec![0]);
    // the decision that is due is replaced by a restart
    assert!(formula.assignments().is_empty());
    assert_eq!(formula.decision_level(), 0);
    assert_eq!(formula.decide_count(), 1);
    // the learned clause forces 1 again, and 1 forces 2
    assert_eq!(formula.run(2, 0), None);
    let mut entries = formula.assignments();
    entries.sort();
    assert_eq!(entries, vec![(0u32, 0i32), (2, 0)]);
    assert_eq!(formula.clauses().len(), 5);
    // with decisions allowed, the last clause is satisfied in the end
    assert_eq!(formula.run(usize::MAX, u32::MAX), Some(true));
    let model = formula.model();
    assert_eq!(model[0], ("1".to_string(), Some(true)));
    assert_eq!(model[1], ("2".to_string(), Some(true)));
    assert!(model[2..].iter().any(|(_, value)| *value == Some(true)));
    assert_eq!(formula.clauses().len(), 5);
}

#[test]
fn run_agrees_with_exhaustive_search() {
    let mut generator = Lcg(31337);
    for _ in 0..300 {
        let (variables, tokens, clauses) = random_formula(&mut generator);
        let expected = brute_force(variables, &clauses);
        let mut formula = CNFFormula::new(tokens);
        assert_eq!(formula.run(1_000_000, u32::MAX), Some(expected), "formula {:?}", clauses);
        check_trail(&formula);
        if expected {
            let model = formula.model();
            for clause in &clauses {
                assert!(clause.iter().any(|&literal| {
                    model[(literal >> 1) as usize].1 == Some(literal & 1 == 0)
                }));
            }
        }
        for clause in &formula.clauses()[clauses.len()..] {
            assert!(entailed(variables, &clauses, clause));
        }
    }
}

/// Every clause over the given number of variables that holds no variable
/// twice, as tokens; the empty clause is left out.
fn all_clauses(variables: u32) -> Vec<Vec<String>> {
    let mut clauses = Vec::new();
    for code in 1..3u32.pow(variables) {
        let mut clause = Vec::new();
        let mut rest = code;
        for var in 0..variables {
            match rest % 3 {
                1 => clause.push(format!("{}", var + 1)),
                2 => clause.push(format!("-{}", var + 1)),
                _ => {},
            }
            rest /= 3;
        }
        clause.push("0".to_string());
        clauses.push(clause);
    }
    clauses
}

fn check_against_exhaustive_search(tokens: Vec<Vec<String>>, seed: u64) {
    let mut formula = CNFFormula::new(tokens);
    let variables = formula.variable_count() as u32;
    let clauses = formula.clauses().clone();
    let expected = brute_force(variables, &clauses);
    let verdict = run(&mut formula, &Decide::Cyclic(seed), seed % 2 == 0);
    assert_eq!(verdict, expected, "formula {:?}", clauses);
    for clause in &formula.clauses()[clauses.len()..] {
        assert!(entailed(variables, &clauses, clause));
    }
}

#[test]
fn every_formula_over_two_variables_gets_the_right_verdict() {
    let clauses = all_clauses(2);
    assert_eq!(clauses.len(), 8);
    for subset in 0..1u32 << clauses.len() {
        let tokens: Vec<Vec<String>> = clauses
            .iter()
            .enumerate()
            .filter(|(index, _)| subset >> index & 1 == 1)
            .map(|(_, clause)| clause.clone())
            .collect();
        check_against_exhaustive_search(tokens, subset as u64);
    }
}

#[test]
fn every_small_formula_over_three_variables_gets_the_right_verdict() {
    let clauses = all_clauses(3);
    assert_eq!(clauses.len(), 26);
    let mut seed = 0;
    for first in 0..clauses.len() {
        check_against_exhaustive_search(vec![clauses[first].clone()], seed);
        for second in first + 1..clauses.len() {
            check_against_exhaustive_search(
                vec![clauses[first].clone(), clauses[second].clone()],
                seed,
            );
            for third in second + 1..clauses.len() {
                seed += 1;
                check_against_exhaustive_search(
                    vec![clauses[first].clone(), clauses[second].clone(), clauses[third].clone()],
                    seed,
                );
            }
        }
    }
}

#[test]
fn all_clauses_over_three_variables_together_are_unsatisfiable() {
    let mut formula = CNFFormula::new(all_clauses(3));
    assert_eq!(formula.run(usize::MAX, u32::MAX), Some(false));
    let mut formula = CNFFormula::new(all_clauses(3));
    assert!(!run(&mut formula, &Decide::Forced, true));
}

#[test]
fn propagation_and_forced_decisions_agree_with_exhaustive_search() {
    let mut generator = Lcg(808);
    for _ in 0..300 {
        let (variables, tokens, clauses) = random_formula(&mut generator);
        let expected = brute_force(variables, &clauses);
        let mut formula = CNFFormula::new(tokens);
        let mut decisions = 0;
        loop {
            formula.propagate();
            check_trail(&formula);
            if formula.is_finished() {
                break;
            }
            let start = generator.next(variables as u64) as u32;
            let var = (0..variables)
                .map(|k| (start + k) % variables)
                .find(|&var| formula.is_unassigned(var))
                .unwrap();
            assert!(formula.make_decision_checked(var, generator.next(2) == 1));
            decisions += 1;
            assert!(decisions < 10_000, "the search does not end");
        }
        assert_eq!(formula.is_satisfiable(), expected, "formula {:?}", clauses);
    }
}
