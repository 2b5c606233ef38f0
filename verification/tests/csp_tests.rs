use constraint_theory_core::csp::{
    eq, eq_fn, lt, lt_fn, neq, neq_fn, BinaryCheck, Constraint, ConstraintProblem, NaryCheck,
    SolverConfig, SolverStats, UnaryCheck, Variable,
};
use std::collections::HashMap;

#[test]
fn test_variable_new() {
    let v = Variable::new("x", vec![1, 2, 3]);
    assert_eq!(v.name, "x");
    assert_eq!(v.domain, vec![1, 2, 3]);
}

#[test]
fn test_variable_range() {
    let v = Variable::range("y", 1, 5);
    assert_eq!(v.name, "y");
    assert_eq!(v.domain, vec![1, 2, 3, 4, 5]);
}

#[test]
fn test_constraint_vars_unary() {
    let c = Constraint::Unary { var: 2, check: UnaryCheck::Any, desc: "test" };
    assert_eq!(c.vars(), vec![2]);
    assert!(c.involves(2));
    assert!(!c.involves(0));
}

#[test]
fn test_constraint_vars_binary() {
    let c = Constraint::Binary { a: 0, b: 1, check: BinaryCheck::Neq, desc: "!=" };
    assert_eq!(c.vars(), vec![0, 1]);
    assert!(c.involves(0));
    assert!(c.involves(1));
    assert!(!c.involves(2));
}

#[test]
fn test_constraint_vars_nary() {
    let c = Constraint::Nary { vars: vec![0, 2, 4], check: NaryCheck::Any, desc: "test" };
    assert_eq!(c.vars(), vec![0, 2, 4]);
    assert!(c.involves(0));
    assert!(!c.involves(1));
    assert!(c.involves(4));
}

#[test]
fn test_constraint_debug_format() {
    let c1 = Constraint::Unary { var: 0, check: UnaryCheck::Any, desc: "pos" };
    assert!(format!("{:?}", c1).contains("Unary"));
    let c2 = Constraint::Binary { a: 0, b: 1, check: BinaryCheck::Neq, desc: "!=" };
    assert!(format!("{:?}", c2).contains("Binary"));
    let c3 = Constraint::Nary { vars: vec![0, 1], check: NaryCheck::Any, desc: "test" };
    assert!(format!("{:?}", c3).contains("Nary"));
}

#[test]
fn test_problem_new_and_var_index() {
    let vars = vec![Variable::range("x", 1, 3), Variable::range("y", 1, 3)];
    let cs = vec![neq(0, 1)];
    let problem = ConstraintProblem::new(vars, cs);
    assert_eq!(problem.var_index("x"), Some(0));
    assert_eq!(problem.var_index("y"), Some(1));
    assert_eq!(problem.var_index("z"), None);
}

#[test]
fn test_problem_var_count() {
    let vars = vec![
        Variable::range("a", 0, 1),
        Variable::range("b", 0, 1),
        Variable::range("c", 0, 1),
    ];
    let problem = ConstraintProblem::new(vars, vec![]);
    assert_eq!(problem.var_count(), 3);
}

#[test]
fn test_problem_domain_size_and_values() {
    let vars = vec![Variable::range("x", 1, 5)];
    let problem = ConstraintProblem::new(vars, vec![]);
    assert_eq!(problem.domain_size(0), 5);
    assert_eq!(problem.domain_values(0), &[1, 2, 3, 4, 5]);
}

#[test]
fn test_is_consistent_binary_neq() {
    let vars = vec![Variable::range("x", 1, 3), Variable::range("y", 1, 3)];
    let cs = vec![neq(0, 1)];
    let problem = ConstraintProblem::new(vars, cs);
    assert!(problem.is_consistent(&[(0, 1), (1, 2)]));
    assert!(problem.is_consistent(&[(0, 1), (1, 3)]));
    assert!(!problem.is_consistent(&[(0, 2), (1, 2)]));
}

#[test]
fn test_is_consistent_partial_assignment() {
    let vars = vec![Variable::range("x", 1, 3), Variable::range("y", 1, 3)];
    let cs = vec![neq(0, 1)];
    let problem = ConstraintProblem::new(vars, cs);
    assert!(problem.is_consistent(&[(0, 1)]));
}

#[test]
fn test_is_satisfied_full_assignment() {
    let vars = vec![Variable::range("x", 1, 3), Variable::range("y", 1, 3)];
    let cs = vec![neq(0, 1)];
    let problem = ConstraintProblem::new(vars, cs);
    let sat: HashMap<usize, i64> = [(0, 1), (1, 2)].into_iter().collect();
    assert!(problem.is_satisfied(&sat));
    let unsat: HashMap<usize, i64> = [(0, 2), (1, 2)].into_iter().collect();
    assert!(!problem.is_satisfied(&unsat));
}

#[test]
fn test_is_satisfied_unary_constraint() {
    let vars = vec![Variable::range("x", -3, 3)];
    let cs = vec![Constraint::Unary { var: 0, check: UnaryCheck::Gt(0), desc: "positive" }];
    let problem = ConstraintProblem::new(vars, cs);
    let sat: HashMap<usize, i64> = [(0, 2)].into_iter().collect();
    assert!(problem.is_satisfied(&sat));
    let unsat: HashMap<usize, i64> = [(0, -1)].into_iter().collect();
    assert!(!problem.is_satisfied(&unsat));
}

#[test]
fn test_is_satisfied_nary_constraint() {
    let vars = vec![Variable::range("x", 1, 5), Variable::range("y", 1, 5)];
    let cs = vec![Constraint::Nary { vars: vec![0, 1], check: NaryCheck::SumEven, desc: "even_sum" }];
    let problem = ConstraintProblem::new(vars, cs);
    let sat: HashMap<usize, i64> = [(0, 1), (1, 3)].into_iter().collect();
    assert!(problem.is_satisfied(&sat));
    let unsat: HashMap<usize, i64> = [(0, 1), (1, 2)].into_iter().collect();
    assert!(!problem.is_satisfied(&unsat));
}

#[test]
fn test_constraints_involving() {
    let vars = vec![
        Variable::range("x", 1, 3),
        Variable::range("y", 1, 3),
        Variable::range("z", 1, 3),
    ];
    let cs = vec![neq(0, 1), neq(1, 2)];
    let problem = ConstraintProblem::new(vars, cs);
    assert_eq!(problem.constraints_involving(0).len(), 1);
    assert_eq!(problem.constraints_involving(1).len(), 2);
    assert_eq!(problem.constraints_involving(2).len(), 1);
}

#[test]
fn test_all_diff() {
    let constraints = ConstraintProblem::all_diff(&[0, 1, 2]);
    assert_eq!(constraints.len(), 3);
    for c in &constraints {
        if let Constraint::Binary { check, desc, .. } = c {
            assert_eq!(*desc, "alldiff");
            assert!(!check.check(1, 1));
            assert!(check.check(1, 2));
        } else {
            panic!("Expected binary constraint");
        }
    }
}

#[test]
fn test_helper_convenience_fns() {
    let _c = neq(0, 1);
    assert!(!neq_fn(5, 5));
    assert!(neq_fn(3, 4));
    let _c = eq(0, 1);
    assert!(eq_fn(5, 5));
    assert!(!eq_fn(3, 4));
    let _c = lt(0, 1);
    assert!(lt_fn(3, 4));
    assert!(!lt_fn(4, 3));
    assert!(!lt_fn(3, 3));
}

#[test]
fn test_solver_config_default() {
    let config = SolverConfig::default();
    assert!(config.use_mrv);
    assert!(!config.use_lcv);
    assert!(config.use_forward_checking);
    assert!(config.use_ac3);
}

#[test]
fn test_solver_stats_default() {
    let stats = SolverStats::new();
    assert_eq!(stats.nodes_visited, 0);
    assert_eq!(stats.backtracks, 0);
    assert_eq!(stats.propagations, 0);
    assert!(stats.summary().contains("nodes=0"));
}

#[test]
fn unary_checks_compare_with_their_constant() {
    assert!(UnaryCheck::Eq(3).check(3));
    assert!(!UnaryCheck::Ne(3).check(3));
    assert!(UnaryCheck::Lt(3).check(2));
    assert!(UnaryCheck::Le(3).check(3));
    assert!(!UnaryCheck::Ge(3).check(2));
    assert!(UnaryCheck::Any.check(i64::MIN));
}

#[test]
fn queens_nary_check_rejects_shared_diagonal() {
    assert!(NaryCheck::QueensDiagonals.check(&[2, 4, 1, 3]));
    assert!(!NaryCheck::QueensDiagonals.check(&[1, 2]));
    assert!(NaryCheck::SumEven.check(&[i64::MAX, 1]));
}

#[test]
fn var_index_takes_the_last_duplicate() {
    let vars = vec![Variable::range("x", 1, 2), Variable::range("x", 1, 2)];
    let problem = ConstraintProblem::new(vars, vec![]);
    assert_eq!(problem.var_index("x"), Some(1));
}

#[test]
fn queen_diag_builds_one_constraint_per_row_pair() {
    let cs = ConstraintProblem::queen_diag(4);
    assert_eq!(cs.len(), 6);
    assert_eq!(cs[0].vars(), vec![0, 1]);
    assert_eq!(cs[5].vars(), vec![2, 3]);
}

#[test]
fn empty_range_gives_empty_domain() {
    let v = Variable::range("e", 3, 2);
    assert!(v.domain.is_empty());
}

#[test]
fn queen_diag_rejects_queens_on_a_shared_diagonal() {
    let vars = vec![Variable::range("r0", 1, 4), Variable::range("r1", 1, 4), Variable::range("r2", 1, 4)];
    let p = ConstraintProblem::new(vars, ConstraintProblem::queen_diag(3));
    let mut m = std::collections::HashMap::new();
    m.insert(0usize, 1i64);
    m.insert(1usize, 2i64);
    m.insert(2usize, 4i64);
    // Rows 0 and 1 hold columns 1 and 2: one row apart, one column apart.
    assert!(!p.is_satisfied(&m));
    m.insert(1usize, 3i64);
    // Columns 1, 3, 4: rows 1 and 2 are one apart and so are their columns.
    assert!(!p.is_satisfied(&m));
    m.insert(2usize, 1i64);
    // Columns 1, 3, 1: column differences 2, 0 and 2 against row distances
    // 1, 2 and 1, so no two queens share a diagonal (columns are not checked).
    assert!(p.is_satisfied(&m));
}

#[test]
fn queen_diagonal_check_uses_the_row_distance() {
    assert!(!NaryCheck::QueenDiagonal(2).check(&[1, 3]));
    assert!(NaryCheck::QueenDiagonal(1).check(&[1, 3]));
    assert!(NaryCheck::QueenDiagonal(1).check(&[i64::MIN, i64::MAX]));
    assert!(NaryCheck::QueenDiagonal(5).check(&[7]));
}
