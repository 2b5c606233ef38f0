use constraint_theory_core::sudoku::{format_sudoku, solve_sudoku, solve_sudoku_with_stats, sudoku9x9_problem};

const EASY_55: &str = "534..891267.1..34.1983425.....7.14..4.685.79..13924856.615372842.7419.35..52.61..";
const EASY_54: &str = "53.67.91.6.21.53.8.98.42.6785.76.42.4.68.37.1.13.24.5696.53.28.2.74.96.5.45.86.79";
const SOLVED: &str = "534678912672195348198342567859761423426853791713924856961537284287419635345286179";

#[test]
fn test_solve_easy() {
    assert_eq!(EASY_55.len(), 81, "Test input must be 81 chars");
    let board = solve_sudoku(EASY_55).expect("solvable");
    assert_eq!(board.len(), 81);
    assert!(!board.contains('.'));
}

#[test]
fn sudoku_test_unsat() {
    let result = solve_sudoku(SOLVED);
    assert!(result.is_some());
}

#[test]
fn test_solve_easy_54_given() {
    assert_eq!(EASY_54.len(), 81);
    let board = solve_sudoku(EASY_54).expect("solvable");
    assert_eq!(board.len(), 81);
    assert!(!board.contains('.'));
}

#[test]
fn test_stats_55_given() {
    let (result, stats) = solve_sudoku_with_stats(EASY_55);
    assert!(result.is_some());
    assert!(stats.elapsed.as_secs_f64() < 5.0);
}

#[test]
fn test_format() {
    let input = "123456789456789123789123456214365897365897214897214365531642978642978531978531642";
    let formatted = format_sudoku(input);
    assert!(formatted.contains('|'));
    assert!(formatted.contains("------"));
}

#[test]
fn solved_board_keeps_the_givens() {
    let board = solve_sudoku(EASY_54).expect("solvable");
    for (g, s) in EASY_54.chars().zip(board.chars()) {
        if g != '.' {
            assert_eq!(g, s);
        }
        assert!(('1'..='9').contains(&s));
    }
}

#[test]
fn a_solved_board_is_returned_unchanged() {
    assert_eq!(solve_sudoku(SOLVED).as_deref(), Some(SOLVED));
}

#[test]
fn contradicting_givens_have_no_solution() {
    let mut bad = String::from("11");
    bad.push_str(&".".repeat(79));
    assert!(solve_sudoku(&bad).is_none());
    let (r, _) = solve_sudoku_with_stats(&bad);
    assert!(r.is_none());
}

#[test]
fn zero_marks_an_empty_cell() {
    let with_zero = EASY_55.replace('.', "0");
    assert_eq!(solve_sudoku(&with_zero), solve_sudoku(EASY_55));
}

#[test]
fn format_lays_out_lines_and_separators() {
    let formatted = format_sudoku(SOLVED);
    let lines: Vec<&str> = formatted.lines().collect();
    assert_eq!(lines.len(), 11);
    assert_eq!(lines[0], "5 3 4 | 6 7 8 | 9 1 2 ");
    assert_eq!(lines[3], "------+-------+------");
    assert!(formatted.ends_with('\n'));
}

#[test]
fn problem_of_a_board() {
    let p = sudoku9x9_problem(EASY_55);
    assert_eq!(p.variables.len(), 81);
    assert_eq!(p.variables[0].domain, vec![5]);
    assert_eq!(p.variables[3].domain, (1..=9).collect::<Vec<i64>>());
    assert_eq!(p.variables[80].name, "88");
    // 27 groups of C(9, 2) constraints.
    assert_eq!(p.constraints.len(), 27 * 36);
}
