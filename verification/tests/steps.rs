use rusty_sat::cnf_formula::CNFFormula;

fn pile(clauses: &[&[&str]]) -> Vec<Vec<String>> {
    clauses
        .iter()
        .map(|clause| clause.iter().map(|token| token.to_string()).collect())
        .collect()
}

fn sorted(mut entries: Vec<(u32, i32)>) -> Vec<(u32, i32)> {
    entries.sort();
    entries
}

/// Clauses 0: (a or b), 1: (not a or b), 2: (a or not b), over a = 0, b = 1.
fn two_variables() -> CNFFormula {
    CNFFormula::new(pile(&[&["1", "2", "0"], &["-1", "2", "0"], &["1", "-2", "0"]]))
}

#[test]
fn a_pass_without_units_rests_and_changes_nothing() {
    let mut formula = two_variables();
    assert!(formula.solve());
    assert!(!formula.is_finished());
    assert!(formula.assignments().is_empty());
    assert_eq!(formula.clauses().len(), 3);
    assert_eq!(formula.decision_level(), 0);
}

#[test]
fn a_forced_decision_opens_a_level() {
    let mut formula = two_variables();
    formula.make_decision_fake(0, false);
    assert_eq!(formula.decision_level(), 1);
    assert_eq!(formula.decisions(), &vec![1u32]);
    assert_eq!(formula.assignments(), vec![(1u32, 1i32)]);
    assert!(formula.current_level_implications().is_empty());
    assert_eq!(formula.decide_count(), 1);
    assert!(!formula.is_unassigned(0));
    assert!(formula.is_unassigned(1));
    formula.make_decision_fake(1, true);
    assert_eq!(formula.decision_level(), 2);
    assert_eq!(formula.decisions(), &vec![1u32, 2]);
    assert_eq!(sorted(formula.assignments()), vec![(1u32, 1i32), (2, 2)]);
    assert!(!formula.has_unassigned_variable());
}

#[test]
fn lookups_find_either_polarity() {
    let mut formula = two_variables();
    formula.make_decision_fake(1, false);
    assert_eq!(formula.assignment_find_decision_level(&3), Some(1));
    assert_eq!(formula.assignment_find_decision_level(&2), Some(1));
    assert_eq!(formula.assignment_find_decision_level(&0), None);
    assert_eq!(formula.assignment_find_decision_level(&1), None);
    assert!(formula.assignments_find_at_decisionlevel(&3, &1));
    assert!(formula.assignments_find_at_decisionlevel(&2, &1));
    assert!(!formula.assignments_find_at_decisionlevel(&2, &0));
    assert!(!formula.assignments_find_at_decisionlevel(&0, &1));
}

#[test]
fn classify_tells_satisfied_free_and_falsifying() {
    let mut formula = CNFFormula::new(pile(&[&["1", "2", "3", "4"]]));
    formula.make_decision_fake(0, false);
    formula.make_decision_fake(2, true);
    let (satisfied, free, falsifying) = formula.classify(&vec![0, 2, 4, 6]);
    assert!(satisfied);
    assert_eq!(free, vec![2, 4, 6]);
    assert_eq!(falsifying, vec![1]);
    let (satisfied, free, falsifying) = formula.classify(&vec![5, 0, 7]);
    assert!(!satisfied);
    assert_eq!(free, vec![7]);
    assert_eq!(falsifying, vec![4, 1]);
    let (satisfied, free, falsifying) = formula.classify(&vec![0, 5]);
    assert!(!satisfied);
    assert_eq!(free, Vec::<u32>::new());
    assert_eq!(falsifying, vec![1, 4]);
    let (satisfied, free, falsifying) = formula.classify(&Vec::new());
    assert!(!satisfied);
    assert!(free.is_empty());
    assert!(falsifying.is_empty());
}

#[test]
fn propagation_asserts_the_free_literal_with_its_reason() {
    let mut formula = two_variables();
    formula.make_decision_fake(0, false);
    assert!(!formula.solve());
    assert_eq!(sorted(formula.assignments()), vec![(1u32, 1i32), (2, 1)]);
    let records = formula.current_level_implications();
    assert_eq!(records.len(), 1);
    assert_eq!(records[0].literal, 2);
    assert_eq!(records[0].implied_by_vars, vec![1]);
    assert_eq!(records[0].implied_by_clause, vec![0, 2]);
    assert_eq!(formula.decision_level(), 1);
    assert_eq!(formula.clauses().len(), 3);
}

#[test]
fn a_conflict_learns_a_clause_and_jumps_back() {
    let mut formula = two_variables();
    formula.make_decision_fake(0, false);
    assert!(!formula.solve());
    assert_eq!(formula.learn(&vec![0, 3]), vec![0]);
    assert_eq!(formula.assertion_level(&vec![0]), 0);
    assert!(!formula.solve());
    assert_eq!(formula.clauses(), &vec![vec![0u32, 2], vec![1, 2], vec![0, 3], vec![0]]);
    assert_eq!(formula.input_count(), 3);
    assert_eq!(formula.decision_level(), 0);
    assert!(formula.assignments().is_empty());
    assert!(formula.decisions().is_empty());
    assert!(formula.current_level_implications().is_empty());
    assert!(!formula.is_finished());
}

#[test]
fn the_learned_unit_is_asserted_at_level_zero_and_the_search_ends() {
    let mut formula = two_variables();
    formula.make_decision_fake(0, false);
    assert!(!formula.solve());
    assert!(!formula.solve());
    assert!(!formula.solve());
    assert_eq!(formula.assignments(), vec![(0u32, 0i32)]);
    assert!(!formula.solve());
    assert_eq!(sorted(formula.assignments()), vec![(0u32, 0i32), (2, 0)]);
    assert!(formula.solve());
    assert!(formula.is_finished());
    assert!(formula.is_satisfiable());
    let model = formula.model();
    assert_eq!(model, vec![("1".to_string(), Some(true)), ("2".to_string(), Some(true))]);
}

#[test]
fn count_at_level_counts_both_polarities() {
    let mut formula = CNFFormula::new(pile(&[&["1", "2", "3", "4"]]));
    formula.make_decision_fake(0, true);
    formula.make_decision_fake(1, false);
    assert_eq!(formula.count_at_level(&vec![0, 1, 2, 3, 4], 1), 2);
    assert_eq!(formula.count_at_level(&vec![0, 1, 2, 3, 4], 2), 2);
    assert_eq!(formula.count_at_level(&vec![4, 6], 1), 0);
    assert_eq!(formula.count_at_level(&vec![3, 3], 2), 2);
    assert_eq!(formula.count_at_level(&Vec::new(), 1), 0);
}

#[test]
fn highest_level_below_ignores_unset_literals() {
    let mut formula = CNFFormula::new(pile(&[&["1", "2", "3", "4"]]));
    formula.make_decision_fake(0, true);
    formula.make_decision_fake(1, false);
    formula.make_decision_fake(2, true);
    assert_eq!(formula.highest_level_below(&vec![0, 3, 5, 6], 100), 3);
    assert_eq!(formula.highest_level_below(&vec![0, 3, 5, 6], 3), 2);
    assert_eq!(formula.highest_level_below(&vec![0, 3, 5, 6], 2), 1);
    assert_eq!(formula.highest_level_below(&vec![0, 3, 5, 6], 1), -1);
    assert_eq!(formula.highest_level_below(&vec![6, 7], 100), -1);
    assert_eq!(formula.highest_level_below(&Vec::new(), 100), -1);
}

#[test]
fn assertion_level_is_the_second_highest_level() {
    let mut formula = CNFFormula::new(pile(&[&["1", "2", "3", "4"]]));
    formula.make_decision_fake(0, true);
    formula.make_decision_fake(1, false);
    formula.make_decision_fake(2, true);
    assert_eq!(formula.assertion_level(&vec![1, 2, 5]), 2);
    assert_eq!(formula.assertion_level(&vec![5, 1]), 1);
    assert_eq!(formula.assertion_level(&vec![1, 5, 6]), 1);
    assert_eq!(formula.assertion_level(&vec![2, 4, 3]), 2);
}

#[test]
fn assertion_level_of_a_single_level_is_one_below() {
    let mut formula = CNFFormula::new(pile(&[&["1", "2", "3", "4"]]));
    formula.make_decision_fake(0, true);
    formula.make_decision_fake(1, false);
    formula.make_decision_fake(2, true);
    assert_eq!(formula.assertion_level(&vec![5, 4]), 2);
    assert_eq!(formula.assertion_level(&vec![2, 3]), 1);
    assert_eq!(formula.assertion_level(&vec![0, 1]), 0);
    assert_eq!(formula.assertion_level(&vec![6, 7]), -1);
    assert_eq!(formula.assertion_level(&Vec::new()), -1);
}

#[test]
fn assertion_level_of_a_unit_clause_is_zero_or_none() {
    let mut formula = CNFFormula::new(pile(&[&["1"], &["1", "2", "3"]]));
    assert!(!formula.solve());
    formula.make_decision_fake(1, true);
    assert_eq!(formula.assertion_level(&vec![1]), -1);
    assert_eq!(formula.assertion_level(&vec![0]), -1);
    assert_eq!(formula.assertion_level(&vec![3]), 0);
    assert_eq!(formula.assertion_level(&vec![2]), 0);
    assert_eq!(formula.assertion_level(&vec![4]), 0);
}

#[test]
fn fallback_keeps_lower_levels_and_the_negated_decision() {
    let mut formula = CNFFormula::new(pile(&[&["1", "2", "3", "4"]]));
    formula.make_decision_fake(0, true);
    formula.make_decision_fake(1, true);
    formula.make_decision_fake(2, false);
    assert_eq!(formula.fallback_filter(&vec![1, 3, 4, 6, 5], 5), vec![1, 3, 4]);
    assert_eq!(formula.fallback_filter(&vec![5, 0, 7], 4), vec![5, 0]);
    assert_eq!(formula.fallback_filter(&vec![4, 5], 0), Vec::<u32>::new());
}

#[test]
fn learning_without_records_falls_back_to_the_decision() {
    let mut formula = CNFFormula::new(pile(&[&["1", "2"], &["-1", "-2"]]));
    formula.make_decision_fake(0, true);
    formula.make_decision_fake(1, true);
    assert_eq!(formula.learn(&vec![1, 3]), vec![1, 3]);
    assert_eq!(formula.assertion_level(&vec![1, 3]), 1);
    assert!(!formula.solve());
    assert_eq!(formula.clauses(), &vec![vec![0u32, 2], vec![1, 3], vec![1, 3]]);
    assert_eq!(formula.decision_level(), 1);
    assert_eq!(formula.assignments(), vec![(0u32, 1i32)]);
    assert_eq!(formula.decisions(), &vec![0u32]);
}

#[test]
fn learning_stops_at_the_first_single_literal_of_the_level() {
    // 1 -> 2, 1 -> 3, (not 2 or not 3 or 4), (not 4 or 5), (not 4 or not 5)
    let mut formula = CNFFormula::new(pile(&[
        &["-1", "2"],
        &["-1", "3"],
        &["-2", "-3", "4"],
        &["-4", "5"],
        &["-4", "-5"],
    ]));
    formula.make_decision_fake(0, true);
    assert!(!formula.solve());
    assert!(!formula.solve());
    assert!(!formula.solve());
    assert!(!formula.solve());
    assert_eq!(formula.current_level_implications().len(), 4);
    // the conflict is (not 4 or not 5); resolving with the reason of 5 leaves (not 4)
    assert_eq!(formula.learn(&vec![7, 9]), vec![7]);
    assert!(!formula.solve());
    assert_eq!(formula.clauses().len(), 6);
    assert_eq!(formula.clauses()[5], vec![7]);
    assert_eq!(formula.decision_level(), 0);
    assert!(formula.assignments().is_empty());
}

#[test]
fn a_decision_from_a_start_takes_the_next_unset_variable() {
    let mut formula = CNFFormula::new(pile(&[&["1", "2", "3", "4"]]));
    formula.make_decision_from(2, false);
    assert_eq!(formula.decisions(), &vec![4u32]);
    assert_eq!(formula.decide_count(), 2);
    formula.make_decision_from(2, true);
    assert_eq!(formula.decisions(), &vec![4u32, 7]);
    formula.make_decision_from(2, true);
    assert_eq!(formula.decisions(), &vec![4u32, 7, 1]);
    formula.make_decision_from(0, false);
    assert_eq!(formula.decisions(), &vec![4u32, 7, 1, 2]);
    assert_eq!(formula.decide_count(), 5);
    assert_eq!(formula.decision_level(), 4);
    assert!(!formula.has_unassigned_variable());
}

#[test]
fn a_random_decision_sets_one_unset_variable() {
    for _ in 0..50 {
        let mut formula = CNFFormula::new(pile(&[&["1", "2", "3"]]));
        formula.make_decision_fake(1, true);
        formula.make_decision();
        assert_eq!(formula.decision_level(), 2);
        assert_eq!(formula.decide_count(), 2);
        let entries = formula.assignments();
        assert_eq!(entries.len(), 2);
        let decided = formula.decisions()[1];
        assert!(decided >> 1 == 0 || decided >> 1 == 2);
        assert_eq!(formula.assignment_find_decision_level(&decided), Some(2));
        formula.make_decision();
        assert!(!formula.has_unassigned_variable());
        assert_eq!(formula.decision_level(), 3);
    }
}

#[test]
fn random_decisions_reach_both_polarities_and_all_variables() {
    let mut seen = [false; 8];
    for _ in 0..400 {
        let mut formula = CNFFormula::new(pile(&[&["1", "2", "3", "4"]]));
        formula.make_decision();
        seen[formula.decisions()[0] as usize] = true;
    }
    assert!(seen.iter().all(|&hit| hit));
}

#[test]
fn restart_keeps_the_clauses_and_drops_the_search() {
    let mut formula = two_variables();
    formula.make_decision_from(0, true);
    assert!(!formula.solve());
    assert!(!formula.solve());
    assert_eq!(formula.clauses().len(), 4);
    assert!(!formula.solve());
    formula.make_decision_from(1, true);
    formula.restart();
    assert_eq!(formula.clauses(), &vec![vec![0u32, 2], vec![1, 2], vec![0, 3], vec![0]]);
    assert_eq!(formula.input_count(), 3);
    assert_eq!(formula.decision_level(), 0);
    assert_eq!(formula.decide_count(), 1);
    assert!(formula.assignments().is_empty());
    assert!(formula.decisions().is_empty());
    assert!(formula.current_level_implications().is_empty());
    assert!(!formula.is_finished());
    assert!(formula.has_unassigned_variable());
}

#[test]
fn restart_withdraws_the_verdict() {
    let mut formula = CNFFormula::new(pile(&[&["1"]]));
    assert!(!formula.solve());
    assert!(formula.solve());
    assert!(formula.is_satisfiable());
    formula.restart();
    assert!(!formula.is_finished());
    assert!(!formula.is_satisfiable());
    assert!(!formula.solve());
    assert!(formula.solve());
    assert!(formula.is_satisfiable());
}

#[test]
fn model_lists_every_variable_with_its_value() {
    let mut formula = CNFFormula::new(pile(&[&["7", "-8", "9"]]));
    formula.make_decision_fake(1, false);
    formula.make_decision_fake(0, true);
    assert_eq!(
        formula.model(),
        vec![
            ("7".to_string(), Some(true)),
            ("8".to_string(), Some(false)),
            ("9".to_string(), None)
        ]
    );
}

#[test]
fn a_checked_decision_is_made_only_on_an_unset_variable() {
    let mut formula = two_variables();
    assert!(formula.make_decision_checked(1, false));
    assert_eq!(formula.decision_level(), 1);
    assert_eq!(formula.decisions(), &vec![3u32]);
    assert_eq!(formula.assignments(), vec![(3u32, 1i32)]);
    // the variable is set: nothing changes, whatever the value asked for
    assert!(!formula.make_decision_checked(1, false));
    assert!(!formula.make_decision_checked(1, true));
    // there is no such variable: nothing changes
    assert!(!formula.make_decision_checked(2, true));
    assert!(!formula.make_decision_checked(u32::MAX, true));
    assert_eq!(formula.decision_level(), 1);
    assert_eq!(formula.decisions(), &vec![3u32]);
    assert_eq!(formula.assignments(), vec![(3u32, 1i32)]);
    assert_eq!(formula.current_level_implications().len(), 0);
    assert_eq!(formula.decide_count(), 1);
    assert!(formula.make_decision_checked(0, true));
    assert_eq!(formula.decisions(), &vec![3u32, 0]);
    assert_eq!(sorted(formula.assignments()), vec![(0u32, 2i32), (3, 1)]);
}

#[test]
fn a_checked_decision_leaves_a_forced_variable_alone() {
    let mut formula = CNFFormula::new(pile(&[&["1"], &["1", "2"]]));
    assert!(!formula.solve());
    assert!(!formula.make_decision_checked(0, false));
    assert!(!formula.make_decision_checked(0, true));
    assert_eq!(formula.assignments(), vec![(0u32, 0i32)]);
    assert_eq!(formula.decision_level(), 0);
}

#[test]
fn propagate_goes_on_until_rest() {
    let mut formula = two_variables();
    formula.make_decision_fake(0, false);
    // 2 is forced, the conflict teaches (1), then 1 and 2 are forced at level 0
    formula.propagate();
    assert!(formula.is_finished());
    assert!(formula.is_satisfiable());
    assert_eq!(formula.decision_level(), 0);
    assert_eq!(sorted(formula.assignments()), vec![(0u32, 0i32), (2, 0)]);
    assert_eq!(formula.clauses(), &vec![vec![0u32, 2], vec![1, 2], vec![0, 3], vec![0]]);
    formula.propagate();
    assert!(formula.is_satisfiable());
    assert_eq!(sorted(formula.assignments()), vec![(0u32, 0i32), (2, 0)]);
    assert_eq!(formula.clauses().len(), 4);
}

#[test]
fn propagate_rests_without_a_verdict_when_a_decision_is_due() {
    let mut formula = CNFFormula::new(pile(&[&["1", "2", "3"], &["-1", "2"], &["-3", "4", "5"]]));
    formula.propagate();
    assert!(!formula.is_finished());
    assert!(formula.assignments().is_empty());
    formula.make_decision_fake(0, true);
    formula.propagate();
    assert!(!formula.is_finished());
    assert_eq!(formula.decision_level(), 1);
    assert_eq!(sorted(formula.assignments()), vec![(0u32, 1i32), (2, 1)]);
    assert_eq!(formula.current_level_implications().len(), 1);
    assert!(formula.solve());
    assert_eq!(sorted(formula.assignments()), vec![(0u32, 1i32), (2, 1)]);
}

#[test]
fn propagate_ends_at_a_conflict_on_level_zero() {
    let mut formula = CNFFormula::new(pile(&[&["1", "2"], &["-2"], &["-1"]]));
    formula.propagate();
    assert!(formula.is_finished());
    assert!(!formula.is_satisfiable());
    assert_eq!(formula.decision_level(), 0);
    assert_eq!(formula.clauses().len(), 3);
}
