use constraint_theory_core::backtracking::solve_with_stats;
use constraint_theory_core::csp::SolverConfig;
use constraint_theory_core::puzzle::{
    count_nqueens, graph_coloring_problem, nqueens_diag_check, nqueens_problem, solve_graph_coloring,
    solve_nqueens, solve_sudoku4x4, sudoku4x4_problem,
};

#[test]
fn test_nqueens_4() {
    let r = solve_nqueens(4).expect("4-queens is solvable");
    assert_eq!(r.len(), 4);
    let cols: Vec<i64> = (0..4).map(|i| r[&i]).collect();
    let mut sorted = cols.clone();
    sorted.sort();
    assert_eq!(sorted, vec![1, 2, 3, 4]);
    for i in 0..4 {
        for j in (i + 1)..4 {
            assert!((cols[i] - cols[j]).abs() != (i as i64 - j as i64).abs());
        }
    }
}

#[test]
fn test_count_nqueens() {
    assert_eq!(count_nqueens(4), 2);
    assert_eq!(count_nqueens(5), 10);
}

#[test]
fn test_sudoku4x4() {
    let r = solve_sudoku4x4().expect("the empty 4x4 sudoku is solvable");
    assert_eq!(r.len(), 16);
    for &v in &r {
        assert!(v >= 1 && v <= 4);
    }
}

#[test]
fn test_graph_3color_k4() {
    let adj: Vec<(usize, usize)> = (0..4).flat_map(|i| ((i + 1)..4).map(move |j| (i, j))).collect();
    assert!(solve_graph_coloring(&adj, 4).is_some());
    assert!(solve_graph_coloring(&adj, 3).is_none());
}

#[test]
fn test_nqueens_stats() {
    let p = nqueens_problem(8);
    let config = SolverConfig::default();
    let (_result, stats) = solve_with_stats(&p, &config);
    assert!(stats.nodes_visited < 50000);
    assert!(stats.elapsed.as_secs_f64() < 5.0);
}

#[test]
fn queens_counts_for_small_boards() {
    assert_eq!(count_nqueens(0), 1);
    assert_eq!(count_nqueens(1), 1);
    assert_eq!(count_nqueens(2), 0);
    assert_eq!(count_nqueens(3), 0);
    assert_eq!(count_nqueens(6), 4);
    assert_eq!(count_nqueens(8), 92);
}

#[test]
fn small_boards_without_queens_solution() {
    assert!(solve_nqueens(2).is_none());
    assert!(solve_nqueens(3).is_none());
    assert_eq!(solve_nqueens(1).expect("one queen").get(&0), Some(&1));
}

#[test]
fn nqueens_problem_shape() {
    let p = nqueens_problem(5);
    assert_eq!(p.variables.len(), 5);
    assert_eq!(p.variables[3].name, "Q3");
    assert_eq!(p.variables[3].domain, vec![1, 2, 3, 4, 5]);
    // C(5, 2) column constraints and one diagonal constraint.
    assert_eq!(p.constraints.len(), 11);
}

#[test]
fn diagonal_check_on_boards() {
    assert!(nqueens_diag_check(&[2, 4, 1, 3]));
    assert!(!nqueens_diag_check(&[1, 3, 2]));
    assert!(nqueens_diag_check(&[]));
    assert!(!nqueens_diag_check(&[i64::MIN, i64::MIN + 1]));
}

#[test]
fn sudoku4x4_problem_shape() {
    let p = sudoku4x4_problem();
    assert_eq!(p.variables.len(), 16);
    assert_eq!(p.variables[6].name, "12");
    assert_eq!(p.constraints.len(), 72);
}

#[test]
fn sudoku4x4_solution_rows_columns_boxes() {
    let v = solve_sudoku4x4().expect("solvable");
    let cell = |r: usize, c: usize| v[r * 4 + c];
    for r in 0..4 {
        for a in 0..4 {
            for b in (a + 1)..4 {
                assert_ne!(cell(r, a), cell(r, b));
                assert_ne!(cell(a, r), cell(b, r));
            }
        }
    }
    for br in 0..2 {
        for bc in 0..2 {
            let cells: Vec<i64> = (0..4).map(|k| cell(br * 2 + k / 2, bc * 2 + k % 2)).collect();
            for a in 0..4 {
                for b in (a + 1)..4 {
                    assert_ne!(cells[a], cells[b]);
                }
            }
        }
    }
}

#[test]
fn coloring_problem_shape_and_solution() {
    let adj = vec![(0, 1), (1, 2), (2, 0), (2, 5)];
    let p = graph_coloring_problem(&adj, 3);
    assert_eq!(p.variables.len(), 6);
    assert_eq!(p.variables[5].name, "V5");
    assert_eq!(p.variables[0].domain, vec![0, 1, 2]);
    let m = solve_graph_coloring(&adj, 3).expect("a triangle with a tail is 3-colourable");
    assert_eq!(m.len(), 6);
    for &(a, b) in &adj {
        assert_ne!(m[&a], m[&b]);
    }
    assert!(solve_graph_coloring(&adj, 2).is_none());
}

#[test]
fn coloring_without_edges() {
    let p = graph_coloring_problem(&[], 0);
    assert_eq!(p.variables.len(), 1);
    assert!(p.variables[0].domain.is_empty());
    let m = solve_graph_coloring(&[], 2).expect("one node");
    assert_eq!(m.len(), 1);
}
