use constraint_theory_core::backtracking::{solve_bt, solve_bt_fc, solve_bt_mac, solve_bt_mrv, solve_with_stats};
use constraint_theory_core::csp::{BinaryCheck, Constraint, ConstraintProblem, SolverConfig, UnaryCheck, Variable};

fn simple_problem() -> ConstraintProblem {
    let vars = vec![Variable::new("x", vec![1, 2]), Variable::new("y", vec![1, 2])];
    let cs = vec![Constraint::Binary { a: 0, b: 1, check: BinaryCheck::Neq, desc: "!=" }];
    ConstraintProblem::new(vars, cs)
}

#[test]
fn test_solve_bt_basic() {
    let p = simple_problem();
    let result = solve_bt(&p);
    assert!(result.is_some());
    let r = result.unwrap();
    assert_ne!(r[&0], r[&1]);
}

#[test]
fn test_solve_mrv() {
    let p = simple_problem();
    assert!(solve_bt_mrv(&p).is_some());
}

#[test]
fn test_solve_fc() {
    let p = simple_problem();
    assert!(solve_bt_fc(&p).is_some());
}

#[test]
fn test_solve_mac() {
    let p = simple_problem();
    assert!(solve_bt_mac(&p).is_some());
}

#[test]
fn backtracking_test_unsat() {
    let vars = vec![Variable::new("x", vec![1]), Variable::new("y", vec![1])];
    let cs = vec![Constraint::Binary { a: 0, b: 1, check: BinaryCheck::Neq, desc: "!=" }];
    let p = ConstraintProblem::new(vars, cs);
    assert!(solve_bt(&p).is_none());
    assert!(solve_bt_mrv(&p).is_none());
    assert!(solve_bt_fc(&p).is_none());
    assert!(solve_bt_mac(&p).is_none());
}

#[test]
fn test_with_stats() {
    let p = simple_problem();
    let config = SolverConfig::default();
    let (result, stats) = solve_with_stats(&p, &config);
    assert!(result.is_some());
    assert!(stats.nodes_visited > 0);
}

fn chain_problem() -> ConstraintProblem {
    // x < y, y != z, z == 2, over 1..=3.
    let vars = vec![
        Variable::range("x", 1, 3),
        Variable::range("y", 1, 3),
        Variable::range("z", 1, 3),
    ];
    let cs = vec![
        Constraint::Binary { a: 0, b: 1, check: BinaryCheck::Lt, desc: "<" },
        Constraint::Binary { a: 1, b: 2, check: BinaryCheck::Neq, desc: "!=" },
        Constraint::Unary { var: 2, check: UnaryCheck::Eq(2), desc: "z=2" },
    ];
    ConstraintProblem::new(vars, cs)
}

#[test]
fn every_solver_returns_a_solution_of_the_problem() {
    let p = chain_problem();
    for r in [solve_bt(&p), solve_bt_mrv(&p), solve_bt_mac(&p)] {
        let m = r.expect("the chain problem is solvable");
        assert_eq!(m.len(), 3);
        assert!(p.is_satisfied(&m));
        assert!(m[&0] < m[&1] && m[&1] != m[&2] && m[&2] == 2);
    }
}

#[test]
fn stats_with_every_heuristic_switched_off() {
    let p = chain_problem();
    let config = SolverConfig { use_mrv: false, use_lcv: false, use_forward_checking: false, use_ac3: false };
    let (result, stats) = solve_with_stats(&p, &config);
    let m = result.expect("solvable");
    assert!(p.is_satisfied(&m));
    assert!(stats.nodes_visited > 0);
    assert_eq!(stats.propagations, 0);
}

#[test]
fn forward_checking_reads_constraints_in_either_direction() {
    // Forward checking compares values in the orientation (assigned, neighbour):
    // for `y < x` stated as lt(1, 0) with x in {2, 3} and y in {1, 2} it finds
    // nothing, while plain backtracking finds x = 2, y = 1.
    let vars = vec![Variable::new("x", vec![2, 3]), Variable::new("y", vec![1, 2])];
    let cs = vec![Constraint::Binary { a: 1, b: 0, check: BinaryCheck::Lt, desc: "<" }];
    let p = ConstraintProblem::new(vars, cs);
    let m = solve_bt(&p).expect("solvable");
    assert!(m[&1] < m[&0]);
    assert!(solve_bt_fc(&p).is_none());
}

#[test]
fn plain_backtracking_returns_the_first_solution_in_domain_order() {
    // x < y over domains listed in descending order: the first solution in
    // that order takes the largest feasible x, then the largest y above it.
    let vars = vec![Variable::new("x", vec![3, 2, 1]), Variable::new("y", vec![3, 2, 1])];
    let cs = vec![Constraint::Binary { a: 0, b: 1, check: BinaryCheck::Lt, desc: "<" }];
    let p = ConstraintProblem::new(vars, cs);
    let r = solve_bt(&p).unwrap();
    assert_eq!(r[&0], 2);
    assert_eq!(r[&1], 3);
    let config = SolverConfig { use_mrv: false, use_lcv: false, use_forward_checking: false, use_ac3: false };
    let (r2, _) = solve_with_stats(&p, &config);
    let r2 = r2.unwrap();
    assert_eq!(r2[&0], 2);
    assert_eq!(r2[&1], 3);
}

#[test]
fn forward_checking_can_miss_solutions_of_an_ordered_pair_in_either_orientation() {
    // x < y posted as lt(0, 1): AC-3 removes nothing (every x is below 4,
    // every y above 1), MRV branches on y first (two values against three),
    // and forward checking filters x by `y < x`, the reverse of the
    // constraint, which empties x for y = 3 and for y = 4; x = 1, y = 3 is
    // never tried.
    let vars = vec![Variable::new("x", vec![1, 2, 3]), Variable::new("y", vec![3, 4])];
    let cs = vec![Constraint::Binary { a: 0, b: 1, check: BinaryCheck::Lt, desc: "<" }];
    let p = ConstraintProblem::new(vars, cs);
    assert!(solve_bt(&p).is_some());
    assert!(solve_bt_fc(&p).is_none());
}
