use constraint_theory_core::ac3::enforce_ac3;
use constraint_theory_core::csp::{BinaryCheck, Constraint, ConstraintProblem, NaryCheck, Variable};

fn domains_of(vars: &[Variable]) -> Vec<Vec<i64>> {
    vars.iter().map(|v| v.domain.clone()).collect()
}

#[test]
fn test_ac3_basic() {
    let vars = vec![Variable::range("x", 1, 3), Variable::range("y", 1, 3)];
    let cs = vec![Constraint::Binary { a: 0, b: 1, check: BinaryCheck::Neq, desc: "!=" }];
    let problem = ConstraintProblem::new(vars.clone(), cs);
    let mut domains = domains_of(&vars);
    assert!(enforce_ac3(&problem, &mut domains));
    assert_eq!(domains[0].len(), 3);
    assert_eq!(domains[1].len(), 3);
}

#[test]
fn test_ac3_unsat() {
    let vars = vec![Variable::new("x", vec![1]), Variable::new("y", vec![1])];
    let cs = vec![Constraint::Binary { a: 0, b: 1, check: BinaryCheck::Neq, desc: "!=" }];
    let problem = ConstraintProblem::new(vars.clone(), cs);
    let mut domains = domains_of(&vars);
    assert!(!enforce_ac3(&problem, &mut domains));
    assert!(domains[0].is_empty());
}

#[test]
fn test_ac3_prunes() {
    let vars = vec![Variable::new("x", vec![1, 2, 3]), Variable::new("y", vec![2, 3, 4])];
    let cs = vec![Constraint::Binary { a: 0, b: 1, check: BinaryCheck::Lt, desc: "<" }];
    let problem = ConstraintProblem::new(vars.clone(), cs);
    let mut domains = domains_of(&vars);
    assert!(enforce_ac3(&problem, &mut domains));
    assert_eq!(domains[0], vec![1, 2, 3]);
    assert_eq!(domains[1], vec![2, 3, 4]);
}

#[test]
fn test_ac3_eq_constraint() {
    let vars = vec![Variable::range("x", 1, 3), Variable::range("y", 1, 3)];
    let cs = vec![Constraint::Binary { a: 0, b: 1, check: BinaryCheck::Eq, desc: "==" }];
    let problem = ConstraintProblem::new(vars.clone(), cs);
    let mut domains = domains_of(&vars);
    assert!(enforce_ac3(&problem, &mut domains));
    assert_eq!(domains[0].len(), 3);
    assert_eq!(domains[1].len(), 3);
}

#[test]
fn test_ac3_lt_prunes_lower() {
    let vars = vec![Variable::range("x", 1, 3), Variable::range("y", 1, 3)];
    let cs = vec![Constraint::Binary { a: 0, b: 1, check: BinaryCheck::Lt, desc: "<" }];
    let problem = ConstraintProblem::new(vars.clone(), cs);
    let mut domains = domains_of(&vars);
    assert!(enforce_ac3(&problem, &mut domains));
    assert!(!domains[0].contains(&3), "x=3 should be pruned (no y > 3)");
    assert!(!domains[1].contains(&1), "y=1 should be pruned (no x < 1)");
}

#[test]
fn test_ac3_three_var_chain() {
    let vars = vec![
        Variable::range("x", 1, 2),
        Variable::range("y", 1, 2),
        Variable::range("z", 1, 2),
    ];
    let cs = vec![
        Constraint::Binary { a: 0, b: 1, check: BinaryCheck::Neq, desc: "!=" },
        Constraint::Binary { a: 1, b: 2, check: BinaryCheck::Neq, desc: "!=" },
    ];
    let problem = ConstraintProblem::new(vars.clone(), cs);
    let mut domains = domains_of(&vars);
    assert!(enforce_ac3(&problem, &mut domains));
}

#[test]
fn test_ac3_no_constraints() {
    let vars = vec![Variable::range("x", 1, 5)];
    let problem = ConstraintProblem::new(vars.clone(), vec![]);
    let mut domains = domains_of(&vars);
    assert!(enforce_ac3(&problem, &mut domains));
    assert_eq!(domains[0].len(), 5);
}

#[test]
fn test_ac3_tight_domains() {
    let vars = vec![Variable::new("x", vec![1]), Variable::new("y", vec![1, 2])];
    let cs = vec![Constraint::Binary { a: 0, b: 1, check: BinaryCheck::Neq, desc: "!=" }];
    let problem = ConstraintProblem::new(vars.clone(), cs);
    let mut domains = domains_of(&vars);
    assert!(enforce_ac3(&problem, &mut domains));
    assert_eq!(domains[1], vec![2]);
}

#[test]
fn ac3_keeps_every_solution_value() {
    // x < y < z over 1..=3 has the single solution (1, 2, 3).
    let vars = vec![
        Variable::range("x", 1, 3),
        Variable::range("y", 1, 3),
        Variable::range("z", 1, 3),
    ];
    let cs = vec![
        Constraint::Binary { a: 0, b: 1, check: BinaryCheck::Lt, desc: "<" },
        Constraint::Binary { a: 1, b: 2, check: BinaryCheck::Lt, desc: "<" },
    ];
    let problem = ConstraintProblem::new(vars.clone(), cs);
    let mut domains = domains_of(&vars);
    assert!(enforce_ac3(&problem, &mut domains));
    assert_eq!(domains, vec![vec![1], vec![2], vec![3]]);
}

#[test]
fn ac3_only_narrows_domains() {
    let vars = vec![Variable::new("x", vec![5, 1, 3]), Variable::new("y", vec![2, 4])];
    let cs = vec![Constraint::Binary { a: 0, b: 1, check: BinaryCheck::Lt, desc: "<" }];
    let problem = ConstraintProblem::new(vars.clone(), cs);
    let mut domains = domains_of(&vars);
    assert!(enforce_ac3(&problem, &mut domains));
    assert_eq!(domains[0], vec![1, 3]);
    assert_eq!(domains[1], vec![2, 4]);
}

#[test]
fn a_second_ac3_pass_changes_nothing() {
    let vars = vec![
        Variable::range("x", 1, 4),
        Variable::range("y", 1, 4),
        Variable::range("z", 1, 4),
    ];
    let cs = vec![
        Constraint::Binary { a: 0, b: 1, check: BinaryCheck::Lt, desc: "<" },
        Constraint::Binary { a: 1, b: 2, check: BinaryCheck::Lt, desc: "<" },
        Constraint::Binary { a: 0, b: 2, check: BinaryCheck::Neq, desc: "!=" },
    ];
    let problem = ConstraintProblem::new(vars.clone(), cs);
    let mut domains = domains_of(&vars);
    assert!(enforce_ac3(&problem, &mut domains));
    assert_eq!(domains, vec![vec![1, 2], vec![2, 3], vec![3, 4]]);
    let once = domains.clone();
    assert!(enforce_ac3(&problem, &mut domains));
    assert_eq!(domains, once);
}

#[test]
fn ac3_filters_keeping_order_and_copies_and_reads_only_binary_constraints() {
    let vars = vec![Variable::new("x", vec![3, 1, 2, 1]), Variable::new("y", vec![2])];
    let cs = vec![
        Constraint::Binary { a: 0, b: 1, check: BinaryCheck::Lt, desc: "<" },
        // Names a variable the problem does not have; arc consistency ignores it.
        Constraint::Nary { vars: vec![7], check: NaryCheck::SumEven, desc: "elsewhere" },
    ];
    let problem = ConstraintProblem::new(vars.clone(), cs);
    let mut domains = domains_of(&vars);
    assert!(enforce_ac3(&problem, &mut domains));
    assert_eq!(domains[0], vec![1, 1]);
    assert_eq!(domains[1], vec![2]);
}

#[test]
fn ac3_prunes_to_the_arc_consistent_closure_and_no_further() {
    // x0, x1, x2 pairwise different over {1, 2} has no solution, but every
    // arc is consistent, so AC-3 prunes only x3 = 2 (no x0 above it).
    let vars = vec![
        Variable::range("x0", 1, 2),
        Variable::range("x1", 1, 2),
        Variable::range("x2", 1, 2),
        Variable::range("x3", 0, 2),
    ];
    let cs = vec![
        Constraint::Binary { a: 0, b: 1, check: BinaryCheck::Neq, desc: "!=" },
        Constraint::Binary { a: 0, b: 2, check: BinaryCheck::Neq, desc: "!=" },
        Constraint::Binary { a: 1, b: 2, check: BinaryCheck::Neq, desc: "!=" },
        Constraint::Binary { a: 3, b: 0, check: BinaryCheck::Lt, desc: "<" },
    ];
    let problem = ConstraintProblem::new(vars.clone(), cs);
    let mut domains = domains_of(&vars);
    assert!(enforce_ac3(&problem, &mut domains));
    assert_eq!(domains, vec![vec![1, 2], vec![1, 2], vec![1, 2], vec![0, 1]]);
}
