//! 9x9 Sudoku: problem construction from an 81-character board, solving with
//! AC-3, MRV and forward checking, and text rendering of boards.
use vstd::prelude::*;
use std::collections::HashMap;
use crate::backtracking::{binary_symmetric, lemma_symmetric_orientation, solve_bt_fc, solve_with_stats};
use crate::clock::{elapsed_since, now};
use crate::csp::{
    all_diff_spec, int_seq, views, BinaryCheck, Constraint, ConstraintProblem, ConstraintView, ProblemView,
    SolverConfig, SolverStats, Variable, VariableView,
};
use crate::puzzle::{lemma_all_diff_holds, lemma_all_diff_spec};
use crate::text::{decimal_digits, digit_of, label, string_from_chars};

verus! {

/// The characters of `s`, in order.
fn chars_of(s: &str) -> (r: Vec<char>)
    ensures
        r@ == s@,
{
    let mut r: Vec<char> = Vec::new();
    for ch in it: s.chars()
        invariant
            r@ == it.seq().take(it.index() as int),
    {
        r.push(ch);
    }
    r
}

/// A board character: `.` or `0` for an empty cell, `1`..`9` for a given.
pub open spec fn board_char(c: char) -> bool {
    c == '.' || ('0' <= c && c <= '9')
}

/// An 81-character board of board characters.
pub open spec fn valid_board(s: Seq<char>) -> bool {
    s.len() == 81 && forall|i: int| 0 <= i < 81 ==> board_char(#[trigger] s[i])
}

/// The value of a decimal digit character.
pub open spec fn digit_value(c: char) -> int {
    c as int - '0' as int
}

/// The cells (index `r * 9 + c`) of the `g`-th all-different group of a 9x9
/// Sudoku: rows `0..9`, then columns `9..18`, then the 3x3 boxes `18..27`
/// (box row major, cells row major within the box).
pub open spec fn sudoku9_group(g: int) -> Seq<usize> {
    Seq::new(
        9,
        |k: int|
            (if g < 9 {
                g * 9 + k
            } else if g < 18 {
                k * 9 + (g - 9)
            } else {
                (((g - 18) / 3) * 3 + k / 3) * 9 + ((g - 18) % 3) * 3 + k % 3
            }) as usize,
    )
}

/// The all-different constraints of the first `g` groups, in group order.
pub open spec fn sudoku9_constraints(g: nat) -> Seq<ConstraintView>
    decreases g,
{
    if g == 0 {
        Seq::empty()
    } else {
        sudoku9_constraints((g - 1) as nat) + all_diff_spec(sudoku9_group(g - 1))
    }
}

/// The domain of cell `k`: `1..=9` when empty, the given digit otherwise.
pub open spec fn sudoku9_domain(input: Seq<char>, k: int) -> Seq<i64> {
    if input[k] == '.' || input[k] == '0' {
        int_seq(1, 10)
    } else {
        seq![digit_value(input[k]) as i64]
    }
}

/// The 9x9 Sudoku problem of a board: cell `r * 9 + c` is named `"{r}{c}"`;
/// each row, column and 3x3 box is all-different.
pub open spec fn sudoku9_view(input: Seq<char>) -> ProblemView {
    ProblemView {
        variables: Seq::new(
            81,
            |k: int|
                VariableView {
                    name: decimal_digits((k / 9) as nat) + decimal_digits((k % 9) as nat),
                    domain: sudoku9_domain(input, k),
                },
        ),
        constraints: sudoku9_constraints(27),
    }
}

/// Appends the all-different constraints over `cells`.
fn add_all_diff(cs: &mut Vec<Constraint>, cells: &Vec<usize>)
    ensures
        views(final(cs)@) == views(old(cs)@) + all_diff_spec(cells@),
{
    let mut more = ConstraintProblem::all_diff(cells.as_slice());
    let ghost a = cs@;
    let ghost b = more@;
    cs.append(&mut more);
    assert(views(cs@) =~= views(a) + views(b));
}

/// Builds the 9x9 Sudoku problem of an 81-character board (`.` or `0` for an
/// empty cell, `1`..`9` for a given).
pub fn sudoku9x9_problem(input: &str) -> (p: ConstraintProblem)
    requires
        valid_board(input@),
    ensures
        p@ == sudoku9_view(input@),
{
    let chars = chars_of(input);
    let ghost view = sudoku9_view(input@);
    let mut vars: Vec<Variable> = Vec::new();
    let mut r: usize = 0;
    while r < 9
        invariant
            chars@ == input@,
            valid_board(input@),
            view == sudoku9_view(input@),
            r <= 9,
            vars@.map_values(|v: Variable| v@) == view.variables.take(r * 9),
        decreases 9 - r,
    {
        let mut c: usize = 0;
        while c < 9
            invariant
                chars@ == input@,
                valid_board(input@),
                view == sudoku9_view(input@),
                r < 9,
                c <= 9,
                vars@.map_values(|v: Variable| v@) == view.variables.take(r * 9 + c),
            decreases 9 - c,
        {
            let ch = chars[r * 9 + c];
            let row_text = label("", r as u64);
            let name = label(row_text.as_str(), c as u64);
            let v = if ch == '.' || ch == '0' {
                Variable::range(name.as_str(), 1, 9)
            } else {
                assert(board_char(input@[r * 9 + c]));
                let val = (ch as u32 - '0' as u32) as i64;
                Variable::new(name.as_str(), vec![val])
            };
            let ghost prev = vars@.map_values(|v: Variable| v@);
            vars.push(v);
            proof {
                let k = r * 9 + c;
                reveal_strlit("");
                assert(k / 9 == r && k % 9 == c);
                assert(""@ + decimal_digits(r as nat) =~= decimal_digits(r as nat));
                assert(v@.domain =~= sudoku9_domain(input@, k));
                assert(v@ == view.variables[k]);
                assert(vars@.map_values(|v: Variable| v@) =~= prev.push(v@));
                assert(vars@.map_values(|v: Variable| v@) =~= view.variables.take(r * 9 + c + 1));
            }
            c = c + 1;
        }
        r = r + 1;
    }
    assert(view.variables.take(81) =~= view.variables);
    let mut cs: Vec<Constraint> = Vec::new();
    let mut g: usize = 0;
    while g < 9
        invariant
            g <= 9,
            views(cs@) == sudoku9_constraints(g as nat),
        decreases 9 - g,
    {
        let mut cells: Vec<usize> = Vec::new();
        let mut k: usize = 0;
        while k < 9
            invariant
                g < 9,
                k <= 9,
                cells@ == sudoku9_group(g as int).take(k as int),
            decreases 9 - k,
        {
            cells.push(g * 9 + k);
            assert(cells@ =~= sudoku9_group(g as int).take(k + 1));
            k = k + 1;
        }
        assert(cells@ =~= sudoku9_group(g as int));
        add_all_diff(&mut cs, &cells);
        g = g + 1;
    }
    let mut c: usize = 0;
    while c < 9
        invariant
            c <= 9,
            views(cs@) == sudoku9_constraints((9 + c) as nat),
        decreases 9 - c,
    {
        let mut cells: Vec<usize> = Vec::new();
        let mut k: usize = 0;
        while k < 9
            invariant
                c < 9,
                k <= 9,
                cells@ == sudoku9_group(9 + c).take(k as int),
            decreases 9 - k,
        {
            cells.push(k * 9 + c);
            assert(cells@ =~= sudoku9_group(9 + c).take(k + 1));
            k = k + 1;
        }
        assert(cells@ =~= sudoku9_group(9 + c));
        add_all_diff(&mut cs, &cells);
        c = c + 1;
    }
    let mut br: usize = 0;
    while br < 3
        invariant
            br <= 3,
            views(cs@) == sudoku9_constraints((18 + br * 3) as nat),
        decreases 3 - br,
    {
        let mut bc: usize = 0;
        while bc < 3
            invariant
                br < 3,
                bc <= 3,
                views(cs@) == sudoku9_constraints((18 + br * 3 + bc) as nat),
            decreases 3 - bc,
        {
            let ghost g = 18 + br * 3 + bc;
            assert((g - 18) / 3 == br && (g - 18) % 3 == bc);
            let mut cells: Vec<usize> = Vec::new();
            let mut dr: usize = 0;
            while dr < 3
                invariant
                    br < 3,
                    bc < 3,
                    g == 18 + br * 3 + bc,
                    (g - 18) / 3 == br && (g - 18) % 3 == bc,
                    dr <= 3,
                    cells@ == sudoku9_group(g).take(dr * 3),
                decreases 3 - dr,
            {
                let mut dc: usize = 0;
                while dc < 3
                    invariant
                        br < 3,
                        bc < 3,
                        g == 18 + br * 3 + bc,
                        (g - 18) / 3 == br && (g - 18) % 3 == bc,
                        dr < 3,
                        dc <= 3,
                        cells@ == sudoku9_group(g).take(dr * 3 + dc),
                    decreases 3 - dc,
                {
                    cells.push((br * 3 + dr) * 9 + bc * 3 + dc);
                    proof {
                        let k = dr * 3 + dc;
                        assert(k / 3 == dr && k % 3 == dc);
                        assert(cells@ =~= sudoku9_group(g).take(dr * 3 + dc + 1));
                    }
                    dc = dc + 1;
                }
                dr = dr + 1;
            }
            assert(cells@ =~= sudoku9_group(g));
            add_all_diff(&mut cs, &cells);
            bc = bc + 1;
        }
        br = br + 1;
    }
    ConstraintProblem::new(vars, cs)
}

/// Every constraint of the first `g` groups is a `!=` between two cells of a group.
proof fn lemma_sudoku9_constraints(g: nat)
    requires
        g <= 27,
    ensures
        forall|k: int|
            0 <= k < sudoku9_constraints(g).len() ==> exists|h: int, i: int, j: int|
                0 <= h < g && 0 <= i < j < 9 && #[trigger] sudoku9_constraints(g)[k] == (ConstraintView::Binary {
                    a: sudoku9_group(h)[i],
                    b: sudoku9_group(h)[j],
                    check: BinaryCheck::Neq,
                    desc: "alldiff",
                }),
    decreases g,
{
    if g > 0 {
        lemma_sudoku9_constraints((g - 1) as nat);
        let pre = sudoku9_constraints((g - 1) as nat);
        let grp = sudoku9_group(g - 1);
        lemma_all_diff_spec(grp);
        assert forall|k: int| 0 <= k < sudoku9_constraints(g).len() implies exists|h: int, i: int, j: int|
            0 <= h < g && 0 <= i < j < 9 && #[trigger] sudoku9_constraints(g)[k] == (ConstraintView::Binary {
                a: sudoku9_group(h)[i],
                b: sudoku9_group(h)[j],
                check: BinaryCheck::Neq,
                desc: "alldiff",
            }) by {
            if k < pre.len() {
                assert(sudoku9_constraints(g)[k] == pre[k]);
            } else {
                assert(sudoku9_constraints(g)[k] == all_diff_spec(grp)[k - pre.len()]);
            }
        }
    }
}

/// A 9x9 Sudoku problem meets what the solvers ask of a problem.
proof fn lemma_sudoku9_shape(input: Seq<char>)
    requires
        valid_board(input),
    ensures
        sudoku9_view(input).well_formed(),
        sudoku9_view(input).referenced_nonempty(),
        sudoku9_view(input).all_domains_nonempty(),
        binary_symmetric(sudoku9_view(input).constraints),
{
    let p = sudoku9_view(input);
    lemma_sudoku9_constraints(27);
    assert forall|h: int, i: int| 0 <= h < 27 && 0 <= i < 9 implies #[trigger] sudoku9_group(h)[i] < 81 by {
        if h >= 18 {
            assert((h - 18) / 3 <= 2);
            assert((h - 18) % 3 <= 2);
            assert(i / 3 <= 2);
            assert(i % 3 <= 2);
        }
    }
    assert forall|k: int, t: int|
        0 <= k < p.constraints.len() && 0 <= t < p.constraints[k].vars().len() implies #[trigger] p.constraints[k].vars()[t]
        < p.n() && p.variables[p.constraints[k].vars()[t] as int].domain.len() > 0 by {
        let (h, i, j) = choose|h: int, i: int, j: int|
            0 <= h < 27 && 0 <= i < j < 9 && #[trigger] sudoku9_constraints(27)[k] == (ConstraintView::Binary {
                a: sudoku9_group(h)[i],
                b: sudoku9_group(h)[j],
                check: BinaryCheck::Neq,
                desc: "alldiff",
            });
        assert(sudoku9_group(h)[i] < 81 && sudoku9_group(h)[j] < 81);
    }
    assert forall|k: int| 0 <= k < p.constraints.len() && (#[trigger] p.constraints[k]) is Binary implies p.constraints[k].binary_check().is_symmetric() by {
        let (h, i, j) = choose|h: int, i: int, j: int|
            0 <= h < 27 && 0 <= i < j < 9 && #[trigger] sudoku9_constraints(27)[k] == (ConstraintView::Binary {
                a: sudoku9_group(h)[i],
                b: sudoku9_group(h)[j],
                check: BinaryCheck::Neq,
                desc: "alldiff",
            });
    }
}

/// The character shown for a cell value: its decimal digit when the value,
/// taken as a `u32`, is below 10, and `.` otherwise.
pub open spec fn value_char(v: i64) -> char {
    if (v as u32) < 10 {
        digit_of((v as u32) as nat)
    } else {
        '.'
    }
}

/// The 81-character board of an assignment: each cell shows its value's
/// character, or `.` when it has no value.
pub open spec fn board_of(m: Map<usize, i64>) -> Seq<char> {
    Seq::new(81, |i: int| if m.contains_key(i as usize) { value_char(m[i as usize]) } else { '.' })
}

/// The character shown for a cell value.
fn cell_char(v: i64) -> (c: char)
    ensures
        c == value_char(v),
{
    let u = v as u32;
    match u {
        0 => '0',
        1 => '1',
        2 => '2',
        3 => '3',
        4 => '4',
        5 => '5',
        6 => '6',
        7 => '7',
        8 => '8',
        9 => '9',
        _ => '.',
    }
}

/// Renders an assignment as an 81-character board.
fn board_string(m: &HashMap<usize, i64>) -> (s: String)
    ensures
        s@ == board_of(m@),
{
    let mut out: Vec<char> = Vec::new();
    let mut i: usize = 0;
    while i < 81
        invariant
            i <= 81,
            out@ == board_of(m@).take(i as int),
        decreases 81 - i,
    {
        let ch = match m.get(&i) {
            Some(v) => cell_char(*v),
            None => '.',
        };
        out.push(ch);
        assert(out@ =~= board_of(m@).take(i + 1));
        i = i + 1;
    }
    assert(board_of(m@).take(81) =~= board_of(m@));
    string_from_chars(&out)
}

/// A solution of a board gives every cell a value `1`..`9`, shows its digit
/// in every cell and keeps every given.
pub proof fn lemma_solved_board(input: Seq<char>, m: Map<usize, i64>)
    requires
        valid_board(input),
        sudoku9_view(input).is_solution(m),
    ensures
        forall|i: int| 0 <= i < 81 ==> #[trigger] m.contains_key(i as usize) && 1 <= m[i as usize] <= 9,
        board_of(m).len() == 81,
        forall|i: int| 0 <= i < 81 ==> '1' <= #[trigger] board_of(m)[i] <= '9',
        forall|i: int| 0 <= i < 81 && input[i] != '.' && input[i] != '0' ==> #[trigger] board_of(m)[i] == input[i],
{
    let p = sudoku9_view(input);
    lemma_sudoku9_shape(input);
    assert forall|i: int| 0 <= i < 81 implies '1' <= #[trigger] board_of(m)[i] <= '9' && (input[i] != '.' && input[i] != '0' ==> board_of(m)[i] == input[i]) by {
        let iu = i as usize;
        assert(p.variables[i].domain.len() > 0);
        assert(p.domains()[i].len() > 0);
        assert(m.contains_key(iu));
        assert(p.domains()[i].contains(m[iu]));
        let v = m[iu];
        if input[i] == '.' || input[i] == '0' {
            let q = choose|q: int| 0 <= q < int_seq(1, 10).len() && int_seq(1, 10)[q] == v;
            assert(1 <= v <= 9);
        } else {
            assert(board_char(input[i]));
            assert(v == digit_value(input[i]));
            assert(1 <= v <= 9);
        }
        assert((v as u32) == v);
    }
    assert forall|i: int| 0 <= i < 81 implies #[trigger] m.contains_key(i as usize) && 1 <= m[i as usize] <= 9 by {
        assert('1' <= board_of(m)[i] <= '9');
        let v = m[i as usize];
        if input[i] == '.' || input[i] == '0' {
            let q = choose|q: int| 0 <= q < int_seq(1, 10).len() && int_seq(1, 10)[q] == v;
        } else {
            assert(board_char(input[i]));
        }
    }
}

/// Cells `i` and `j` (index `row * 9 + column`) are different cells that share
/// a row, a column or a 3x3 box.
pub open spec fn sudoku_peers(i: int, j: int) -> bool {
    &&& i != j
    &&& (i / 9 == j / 9 || i % 9 == j % 9 || (i / 27 == j / 27 && (i % 9) / 3 == (j % 9) / 3))
}

/// A solved 9x9 Sudoku grid: 81 digits `1`..`9`, and any two cells that share
/// a row, a column or a 3x3 box show different digits.
pub open spec fn sudoku_grid(b: Seq<char>) -> bool {
    &&& b.len() == 81
    &&& forall|i: int| 0 <= i < 81 ==> '1' <= #[trigger] b[i] <= '9'
    &&& forall|i: int, j: int| 0 <= i < 81 && 0 <= j < 81 && sudoku_peers(i, j) ==> #[trigger] b[i] != #[trigger] b[j]
}

/// The constraints of the first `g` groups begin those of the first `n >= g`.
proof fn lemma_sudoku9_constraints_prefix(g: nat, n: nat)
    requires
        g <= n,
    ensures
        sudoku9_constraints(g).len() <= sudoku9_constraints(n).len(),
        forall|t: int| 0 <= t < sudoku9_constraints(g).len() ==> #[trigger] sudoku9_constraints(n)[t] == sudoku9_constraints(g)[t],
    decreases n,
{
    if g < n {
        lemma_sudoku9_constraints_prefix(g, (n - 1) as nat);
        let pre = sudoku9_constraints((n - 1) as nat);
        assert forall|t: int| 0 <= t < sudoku9_constraints(g).len() implies #[trigger] sudoku9_constraints(n)[t] == sudoku9_constraints(g)[t] by {
            assert(sudoku9_constraints(n)[t] == pre[t]);
        }
    }
}

/// In a solution the nine cells of each group hold pairwise different values.
proof fn lemma_sudoku9_group_distinct(input: Seq<char>, m: Map<usize, i64>, h: int)
    requires
        sudoku9_view(input).is_solution(m),
        0 <= h < 27,
    ensures
        forall|i: int, j: int| 0 <= i < j < 9 ==> m[#[trigger] sudoku9_group(h)[i]] != m[#[trigger] sudoku9_group(h)[j]],
{
    let grp = sudoku9_group(h);
    let pre = sudoku9_constraints(h as nat);
    lemma_sudoku9_constraints_prefix((h + 1) as nat, 27);
    assert forall|k: int| 0 <= k < all_diff_spec(grp).len() implies #[trigger] all_diff_spec(grp)[k].holds_in(m) by {
        let t = pre.len() + k;
        assert(sudoku9_constraints((h + 1) as nat)[t] == all_diff_spec(grp)[k]);
        assert(sudoku9_view(input).constraints[t] == all_diff_spec(grp)[k]);
        assert(sudoku9_view(input).constraints[t].holds_in(m));
    }
    lemma_all_diff_holds(grp, m);
}

/// Cell `i` is the `i % 9`-th cell of its row group, the `i / 9`-th of its
/// column group, and sits in its box group at the place of its row and column
/// within the box.
proof fn lemma_sudoku9_cell(i: int)
    requires
        0 <= i < 81,
    ensures
        sudoku9_group(i / 9)[i % 9] == i,
        sudoku9_group(9 + i % 9)[i / 9] == i,
        sudoku9_group(18 + (i / 27) * 3 + (i % 9) / 3)[((i / 9) % 3) * 3 + i % 3] == i,
{
    let h = 18 + (i / 27) * 3 + (i % 9) / 3;
    let k = ((i / 9) % 3) * 3 + i % 3;
    assert((h - 18) / 3 == i / 27 && (h - 18) % 3 == (i % 9) / 3);
    assert(k / 3 == (i / 9) % 3 && k % 3 == i % 3);
    assert(((i / 27) * 3 + (i / 9) % 3) * 9 + ((i % 9) / 3) * 3 + i % 3 == i) by (nonlinear_arith)
        requires
            0 <= i < 81,
    ;
}

/// Every solution of the 9x9 Sudoku problem of a board is a Sudoku grid: two
/// different cells that share a row, a column or a 3x3 box hold different
/// values, and the board of the solution shows a solved grid.
pub proof fn lemma_solution_is_sudoku_grid(input: Seq<char>, m: Map<usize, i64>)
    requires
        valid_board(input),
        sudoku9_view(input).is_solution(m),
    ensures
        forall|i: int, j: int|
            0 <= i < 81 && 0 <= j < 81 && sudoku_peers(i, j) ==> #[trigger] m[i as usize] != #[trigger] m[j as usize],
        sudoku_grid(board_of(m)),
{
    lemma_solved_board(input, m);
    assert forall|i: int, j: int|
        0 <= i < 81 && 0 <= j < 81 && sudoku_peers(i, j) implies #[trigger] m[i as usize] != #[trigger] m[j as usize] by {
        lemma_sudoku9_cell(i);
        lemma_sudoku9_cell(j);
        let (h, a, b) = if i / 9 == j / 9 {
            (i / 9, i % 9, j % 9)
        } else if i % 9 == j % 9 {
            (9 + i % 9, i / 9, j / 9)
        } else {
            (18 + (i / 27) * 3 + (i % 9) / 3, ((i / 9) % 3) * 3 + i % 3, ((j / 9) % 3) * 3 + j % 3)
        };
        assert(sudoku9_group(h)[a] == i && sudoku9_group(h)[b] == j);
        lemma_sudoku9_group_distinct(input, m, h);
        if a < b {
            assert(m[sudoku9_group(h)[a]] != m[sudoku9_group(h)[b]]);
        } else {
            assert(m[sudoku9_group(h)[b]] != m[sudoku9_group(h)[a]]);
        }
    }
    assert forall|i: int, j: int| 0 <= i < 81 && 0 <= j < 81 && sudoku_peers(i, j) implies #[trigger] board_of(m)[i]
        != #[trigger] board_of(m)[j] by {
        assert(m.contains_key(i as usize) && m.contains_key(j as usize));
        let u = m[i as usize];
        let v = m[j as usize];
        assert(u != v);
        assert((u as u32) == u && (v as u32) == v);
    }
}

/// Solves a 9x9 Sudoku board (AC-3, then MRV with forward checking) and
/// returns the solved board as 81 characters. `None` exactly when the board
/// has no solution.
pub fn solve_sudoku(input: &str) -> (r: Option<String>)
    requires
        valid_board(input@),
    ensures
        match r {
            Some(s) => exists|m: Map<usize, i64>| #[trigger] sudoku9_view(input@).is_solution(m) && s@ == board_of(m),
            None => !sudoku9_view(input@).solvable(),
        },
        r matches Some(s) ==> sudoku_grid(s@) && forall|i: int|
            0 <= i < 81 && input@[i] != '.' && input@[i] != '0' ==> #[trigger] s@[i] == input@[i],
{
    let p = sudoku9x9_problem(input);
    proof {
        lemma_sudoku9_shape(input@);
    }
    let result = solve_bt_fc(&p);
    match result {
        None => None,
        Some(m) => {
            proof {
                lemma_solution_is_sudoku_grid(input@, m@);
            }
            Some(board_string(&m))
        },
    }
}

/// Solves a 9x9 Sudoku board with AC-3, MRV and forward checking (no LCV),
/// returning the solved board and the search statistics, whose `elapsed`
/// covers the whole run.
pub fn solve_sudoku_with_stats(input: &str) -> (r: (Option<String>, SolverStats))
    requires
        valid_board(input@),
    ensures
        match r.0 {
            Some(s) => exists|m: Map<usize, i64>| #[trigger] sudoku9_view(input@).is_solution(m) && s@ == board_of(m),
            None => !sudoku9_view(input@).solvable(),
        },
        r.0 matches Some(s) ==> sudoku_grid(s@) && forall|i: int|
            0 <= i < 81 && input@[i] != '.' && input@[i] != '0' ==> #[trigger] s@[i] == input@[i],
{
    let p = sudoku9x9_problem(input);
    proof {
        lemma_sudoku9_shape(input@);
        lemma_symmetric_orientation(p@.constraints);
    }
    let config = SolverConfig { use_mrv: true, use_lcv: false, use_forward_checking: true, use_ac3: true };
    let start = now();
    let (result, mut stats) = solve_with_stats(&p, &config);
    stats.elapsed = elapsed_since(&start);
    let output = match result {
        Some(m) => {
            proof {
                lemma_solution_is_sudoku_grid(input@, m@);
            }
            Some(board_string(&m))
        },
        None => None,
    };
    (output, stats)
}

/// The first `c` cells of row `r` of a board as text: each cell is followed
/// by a space, and a `"| "` separator opens the second and third box columns.
pub open spec fn format_row(b: Seq<char>, r: int, c: nat) -> Seq<char>
    decreases c,
{
    if c == 0 {
        Seq::empty()
    } else {
        let k = c - 1;
        format_row(b, r, (c - 1) as nat) + (if k % 3 == 0 && k > 0 {
            "| "@
        } else {
            Seq::empty()
        }) + seq![b[r * 9 + k], ' ']
    }
}

/// The first `r` rows of a board as text, one line each, with a rule line
/// before the second and third box rows.
pub open spec fn format_rows(b: Seq<char>, r: nat) -> Seq<char>
    decreases r,
{
    if r == 0 {
        Seq::empty()
    } else {
        let k = r - 1;
        format_rows(b, (r - 1) as nat) + (if k % 3 == 0 && k > 0 {
            "------+-------+------\n"@
        } else {
            Seq::empty()
        }) + format_row(b, k, 9) + seq!['\n']
    }
}

/// Appends the characters of `s` to `out`.
fn push_chars(out: &mut Vec<char>, s: &str)
    ensures
        final(out)@ == old(out)@ + s@,
{
    let cs = chars_of(s);
    let mut i: usize = 0;
    let ghost start = out@;
    while i < cs.len()
        invariant
            i <= cs@.len(),
            out@ == start + cs@.take(i as int),
        decreases cs@.len() - i,
    {
        out.push(cs[i]);
        assert(out@ =~= start + cs@.take(i + 1));
        i = i + 1;
    }
    assert(cs@.take(i as int) =~= cs@);
}

/// Lays a board out as nine lines with box separators.
pub fn format_sudoku(board: &str) -> (s: String)
    requires
        board@.len() >= 81,
    ensures
        s@ == format_rows(board@, 9),
{
    let chars = chars_of(board);
    let mut out: Vec<char> = Vec::new();
    let mut r: usize = 0;
    while r < 9
        invariant
            chars@ == board@,
            board@.len() >= 81,
            r <= 9,
            out@ == format_rows(board@, r as nat),
        decreases 9 - r,
    {
        if r % 3 == 0 && r > 0 {
            push_chars(&mut out, "------+-------+------\n");
        }
        let ghost row_start = out@;
        let mut c: usize = 0;
        while c < 9
            invariant
                chars@ == board@,
                board@.len() >= 81,
                r < 9,
                c <= 9,
                out@ == row_start + format_row(board@, r as int, c as nat),
            decreases 9 - c,
        {
            if c % 3 == 0 && c > 0 {
                push_chars(&mut out, "| ");
            }
            out.push(chars[r * 9 + c]);
            out.push(' ');
            assert(out@ =~= row_start + format_row(board@, r as int, (c + 1) as nat));
            c = c + 1;
        }
        out.push('\n');
        assert(out@ =~= format_rows(board@, (r + 1) as nat));
        r = r + 1;
    }
    string_from_chars(&out)
}

} // verus!
