use constraint_theory_core::cdcl::{Clause, Lit, SATProblem, CDCL};

#[test]
fn test_simple_sat() {
    let clauses = vec![Clause::new(vec![Lit(1), Lit(2)]), Clause::new(vec![Lit(1), Lit(-2)])];
    let p = SATProblem::new(clauses);
    let mut solver = CDCL::new(&p);
    let result = solver.solve();
    assert!(result.is_some());
    assert!(result.unwrap().get(&1) == Some(&true));
}

#[test]
fn cdcl_test_unsat() {
    let clauses = vec![Clause::new(vec![Lit(1)]), Clause::new(vec![Lit(-1)])];
    let p = SATProblem::new(clauses);
    let mut solver = CDCL::new(&p);
    assert!(solver.solve().is_none());
}

#[test]
fn test_three_var() {
    let clauses = vec![
        Clause::new(vec![Lit(1), Lit(2)]),
        Clause::new(vec![Lit(-1), Lit(3)]),
        Clause::new(vec![Lit(-2), Lit(-3)]),
    ];
    let p = SATProblem::new(clauses);
    let mut solver = CDCL::new(&p);
    let r = solver.solve().expect("satisfiable");
    assert!(r[&1] || r[&2]);
    assert!(!r[&1] || r[&3]);
    assert!(!r[&2] || !r[&3]);
}

#[test]
fn literal_accessors() {
    assert_eq!(Lit(-4).var(), 4);
    assert!(Lit(4).sign());
    assert!(!Lit(-4).sign());
    assert_eq!(Lit(4).not(), Lit(-4));
}

#[test]
fn problem_records_largest_variable() {
    let p = SATProblem::new(vec![Clause::new(vec![Lit(2), Lit(-7)]), Clause::new(vec![Lit(3)])]);
    assert_eq!(p.num_vars(), 7);
    assert_eq!(SATProblem::new(vec![]).num_vars(), 0);
}

#[test]
fn clause_states_under_an_assignment() {
    let c = Clause::new(vec![Lit(1), Lit(-2), Lit(3)]);
    let mut m = std::collections::HashMap::new();
    m.insert(1, false);
    m.insert(2, true);
    assert!(!c.is_satisfied(&m));
    assert!(!c.is_conflict(&m));
    assert_eq!(c.is_unit(&m), Some(Lit(3)));
    m.insert(3, false);
    assert!(c.is_conflict(&m));
    assert_eq!(c.is_unit(&m), None);
    m.insert(3, true);
    assert!(c.is_satisfied(&m));
}

#[test]
fn propagation_assigns_unit_literals_in_order() {
    let p = SATProblem::new(vec![
        Clause::new(vec![Lit(1)]),
        Clause::new(vec![Lit(-1), Lit(2)]),
        Clause::new(vec![Lit(-2), Lit(-3)]),
    ]);
    let mut solver = CDCL::new(&p);
    assert_eq!(solver.propagate(), None);
    assert_eq!(solver.trail, vec![(1, true), (2, true), (3, false)]);
    assert_eq!(solver.current_level(), 0);
}

#[test]
fn decisions_open_levels_and_backtracking_closes_them() {
    let p = SATProblem::new(vec![Clause::new(vec![Lit(1), Lit(2), Lit(3)])]);
    let mut solver = CDCL::new(&p);
    assert_eq!(solver.decide(), Some(Lit(1)));
    assert_eq!(solver.decide(), Some(Lit(2)));
    assert_eq!(solver.current_level(), 2);
    assert_eq!(solver.trail_lim, vec![0, 1]);
    solver.backtrack_to(1);
    assert_eq!(solver.current_level(), 1);
    assert_eq!(solver.trail, vec![(1, true)]);
    assert_eq!(solver.assignment.get(&2), None);
    assert_eq!(solver.decide(), Some(Lit(2)));
    assert_eq!(solver.decide(), Some(Lit(3)));
    assert_eq!(solver.decide(), None);
}

#[test]
fn enqueue_reports_agreement_and_conflict() {
    let p = SATProblem::new(vec![Clause::new(vec![Lit(1)])]);
    let mut solver = CDCL::new(&p);
    assert!(solver.enqueue(Lit(-1), None));
    assert!(solver.enqueue(Lit(-1), None));
    assert!(!solver.enqueue(Lit(1), None));
    assert_eq!(solver.trail, vec![(1, false)]);
}

#[test]
fn a_returned_model_satisfies_every_clause() {
    let clauses = vec![
        Clause::new(vec![Lit(1), Lit(2), Lit(-3)]),
        Clause::new(vec![Lit(-1), Lit(-2)]),
        Clause::new(vec![Lit(2), Lit(3)]),
        Clause::new(vec![Lit(-2), Lit(4)]),
        Clause::new(vec![Lit(-4), Lit(-3), Lit(1)]),
    ];
    let p = SATProblem::new(clauses.clone());
    let mut solver = CDCL::new(&p);
    let m = solver.solve().expect("satisfiable");
    for c in &clauses {
        assert!(c.is_satisfied(&m));
    }
    for v in 1..=4 {
        assert!(m.contains_key(&v));
    }
}

#[test]
fn analyze_learns_the_first_unique_implication_point() {
    // Deciding x1 forces x2 through (-1 v 2); (-1 v -2) is then in conflict.
    // Resolving x2 away with its reason leaves the decision x1 as the only
    // literal of the current level: the learnt clause is (-1), asserting at
    // level 0.
    let p = SATProblem::new(vec![Clause::new(vec![Lit(-1), Lit(2)]), Clause::new(vec![Lit(-1), Lit(-2)])]);
    let mut solver = CDCL::new(&p);
    assert_eq!(solver.decide(), Some(Lit(1)));
    let conflict = solver.propagate().expect("conflict");
    assert_eq!(conflict, 1);
    let (learnt, bt) = solver.analyze(conflict);
    assert!(learnt.learnt);
    assert_eq!(learnt.lits, vec![Lit(-1)]);
    assert_eq!(bt, 0);
}

#[test]
fn analyze_keeps_literals_of_earlier_levels_and_backjumps_to_the_highest() {
    // x1, x2 and x3 are decided at levels 1, 2 and 3; x3 forces x4 through
    // (-3 v 4), and (-1 v -3 v -4) is in conflict. The UIP is x3; the learnt
    // clause keeps -1 from level 1 and backtracks there.
    let p = SATProblem::new(vec![
        Clause::new(vec![Lit(-3), Lit(4)]),
        Clause::new(vec![Lit(-1), Lit(-3), Lit(-4)]),
        Clause::new(vec![Lit(2), Lit(-2)]),
    ]);
    let mut solver = CDCL::new(&p);
    assert_eq!(solver.decide(), Some(Lit(1)));
    assert!(solver.propagate().is_none());
    assert_eq!(solver.decide(), Some(Lit(2)));
    assert!(solver.propagate().is_none());
    assert_eq!(solver.decide(), Some(Lit(3)));
    let conflict = solver.propagate().expect("conflict");
    assert_eq!(conflict, 1);
    let (learnt, bt) = solver.analyze(conflict);
    assert_eq!(learnt.lits, vec![Lit(-1), Lit(-3)]);
    assert_eq!(bt, 1);
}

#[test]
fn an_empty_clause_makes_the_problem_unsatisfiable() {
    let p = SATProblem::new(vec![Clause::new(vec![Lit(1)]), Clause::new(vec![])]);
    let mut solver = CDCL::new(&p);
    assert!(solver.solve().is_none());
}

#[test]
fn solve_finds_the_only_model_after_a_backjump() {
    // Deciding x1 = true fails; the learnt clause (-1) sends the search back
    // to level 0, where x1 = x2 = false is the only model.
    let clauses = vec![
        Clause::new(vec![Lit(-2), Lit(-1)]),
        Clause::new(vec![Lit(1), Lit(-2)]),
        Clause::new(vec![Lit(-1), Lit(2)]),
    ];
    let p = SATProblem::new(clauses);
    let mut solver = CDCL::new(&p);
    let m = solver.solve().expect("satisfiable");
    assert_eq!(m.get(&1), Some(&false));
    assert_eq!(m.get(&2), Some(&false));
}

#[test]
fn solve_finds_a_model_needing_a_learnt_unit() {
    // (-1 v 2), (-1 v -2), (1 v 2): x1 = false, x2 = true.
    let clauses = vec![
        Clause::new(vec![Lit(-1), Lit(2)]),
        Clause::new(vec![Lit(-1), Lit(-2)]),
        Clause::new(vec![Lit(1), Lit(2)]),
    ];
    let p = SATProblem::new(clauses);
    let mut solver = CDCL::new(&p);
    let m = solver.solve().expect("satisfiable");
    assert_eq!(m.get(&1), Some(&false));
    assert_eq!(m.get(&2), Some(&true));
}

#[test]
fn solve_reports_an_unsatisfiable_formula() {
    // All four sign combinations of x1, x2 are excluded.
    let clauses = vec![
        Clause::new(vec![Lit(1), Lit(2)]),
        Clause::new(vec![Lit(1), Lit(-2)]),
        Clause::new(vec![Lit(-1), Lit(2)]),
        Clause::new(vec![Lit(-1), Lit(-2)]),
    ];
    let p = SATProblem::new(clauses);
    let mut solver = CDCL::new(&p);
    assert!(solver.solve().is_none());
}

#[test]
fn enqueue_accepts_any_antecedent_index() {
    let p = SATProblem::new(vec![Clause::new(vec![Lit(1), Lit(2)])]);
    let mut solver = CDCL::new(&p);
    assert!(solver.enqueue(Lit(-2), Some(99)));
    assert_eq!(solver.assignment.get(&2), Some(&false));
    assert_eq!(solver.trail, vec![(2, false)]);
}
