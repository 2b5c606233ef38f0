//! Built-in puzzles: N-Queens, 4x4 Sudoku and graph colouring.
use vstd::prelude::*;
use std::collections::HashMap;
use crate::backtracking::{binary_symmetric, solve_bt_fc};
use crate::csp::{
    abs_diff, all_diff_prefix, all_diff_spec, int_seq, neq_pairs_from, queen_diag_prefix, queen_pairs_from,
    queens_diagonals_free, values_of, views,
    BinaryCheck, Constraint, ConstraintProblem, ConstraintView, NaryCheck, ProblemView, Variable,
    VariableView,
};
use crate::text::{decimal_digits, label};
use vstd::arithmetic::power::{lemma_pow_increases, pow};

verus! {

/// N-Queens diagonal check: `|v[i] - v[j]| != |i - j|` for all `i != j`, where
/// `v[i]` is the column of the queen in row `i`.
pub fn nqueens_diag_check(vals: &[i64]) -> (r: bool)
    ensures
        r == queens_diagonals_free(vals@),
{
    let n = vals.len();
    let mut i: usize = 0;
    while i < n
        invariant
            n == vals@.len(),
            i <= n,
            forall|p: int, q: int|
                0 <= p < i && p < q < n ==> #[trigger] abs_diff(vals@[p], vals@[q]) != q - p,
        decreases n - i,
    {
        let mut j: usize = i + 1;
        while j < n
            invariant
                n == vals@.len(),
                i < n,
                i + 1 <= j <= n,
                forall|p: int, q: int|
                    0 <= p < i && p < q < n ==> #[trigger] abs_diff(vals@[p], vals@[q]) != q - p,
                forall|q: int| i < q < j ==> #[trigger] abs_diff(vals@[i as int], vals@[q]) != q - i,
            decreases n - j,
        {
            let d: i128 = vals[i] as i128 - vals[j] as i128;
            let ad: i128 = if d < 0 { -d } else { d };
            if ad == (j - i) as i128 {
                assert(abs_diff(vals@[i as int], vals@[j as int]) == j - i);
                return false;
            }
            j = j + 1;
        }
        i = i + 1;
    }
    true
}

/// The variable indices `0..n`, in order.
pub open spec fn index_seq(n: int) -> Seq<usize> {
    Seq::new(n as nat, |i: int| i as usize)
}

/// Every constraint of `all_diff_spec(vars)` is a `!=` between `vars[i]` and
/// a later `vars[j]`.
pub proof fn lemma_all_diff_spec(vars: Seq<usize>)
    ensures
        forall|k: int|
            0 <= k < all_diff_spec(vars).len() ==> exists|i: int, j: int|
                0 <= i < j < vars.len() && #[trigger] all_diff_spec(vars)[k] == (ConstraintView::Binary {
                    a: vars[i],
                    b: vars[j],
                    check: BinaryCheck::Neq,
                    desc: "alldiff",
                }),
{
    lemma_all_diff_prefix(vars, vars.len());
    let ad = all_diff_prefix(vars, vars.len());
    assert forall|k: int| 0 <= k < all_diff_spec(vars).len() implies exists|i: int, j: int|
        0 <= i < j < vars.len() && #[trigger] all_diff_spec(vars)[k] == (ConstraintView::Binary {
            a: vars[i],
            b: vars[j],
            check: BinaryCheck::Neq,
            desc: "alldiff",
        }) by {
        let (i, j) = choose|i: int, j: int|
            0 <= i < j < vars.len() && #[trigger] ad[k] == (ConstraintView::Binary {
                a: vars[i],
                b: vars[j],
                check: BinaryCheck::Neq,
                desc: "alldiff",
            });
        assert(all_diff_spec(vars)[k] == ad[k]);
    }
}

proof fn lemma_all_diff_prefix(vars: Seq<usize>, n: nat)
    requires
        n <= vars.len(),
    ensures
        forall|k: int|
            0 <= k < all_diff_prefix(vars, n).len() ==> exists|i: int, j: int|
                0 <= i < j < vars.len() && #[trigger] all_diff_prefix(vars, n)[k] == (ConstraintView::Binary {
                    a: vars[i],
                    b: vars[j],
                    check: BinaryCheck::Neq,
                    desc: "alldiff",
                }),
    decreases n,
{
    if n > 0 {
        lemma_all_diff_prefix(vars, (n - 1) as nat);
        let pre = all_diff_prefix(vars, (n - 1) as nat);
        let tail = neq_pairs_from(vars, n - 1);
        assert forall|k: int| 0 <= k < all_diff_prefix(vars, n).len() implies exists|i: int, j: int|
            0 <= i < j < vars.len() && #[trigger] all_diff_prefix(vars, n)[k] == (ConstraintView::Binary {
                a: vars[i],
                b: vars[j],
                check: BinaryCheck::Neq,
                desc: "alldiff",
            }) by {
            if k < pre.len() {
                assert(all_diff_prefix(vars, n)[k] == pre[k]);
            } else {
                let t = k - pre.len();
                assert(all_diff_prefix(vars, n)[k] == tail[t]);
                assert(tail[t] == (ConstraintView::Binary {
                    a: vars[n - 1],
                    b: vars[n - 1 + 1 + t],
                    check: BinaryCheck::Neq,
                    desc: "alldiff",
                }));
            }
        }
    }
}

// ---------------------------------------------------------------------------
// N-Queens
// ---------------------------------------------------------------------------

/// The N-Queens problem: variable `Q{i}` is the column (in `1..=n`) of the
/// queen in row `i`; columns are pairwise different and one `Nary`
/// constraint over all rows forbids shared diagonals.
pub open spec fn nqueens_view(n: int) -> ProblemView {
    ProblemView {
        variables: Seq::new(
            n as nat,
            |i: int| VariableView { name: "Q"@ + decimal_digits(i as nat), domain: int_seq(1, n + 1) },
        ),
        constraints: all_diff_spec(index_seq(n)).push(
            ConstraintView::Nary { vars: index_seq(n), check: NaryCheck::QueensDiagonals, desc: "all-diag" },
        ),
    }
}

/// Builds the N-Queens problem: `!=` between every two rows' columns and a
/// single `Nary` constraint checking all diagonals at once.
pub fn nqueens_problem(n: usize) -> (p: ConstraintProblem)
    requires
        n <= i64::MAX,
    ensures
        p@ == nqueens_view(n as int),
{
    let mut vars: Vec<Variable> = Vec::new();
    let mut idxs: Vec<usize> = Vec::new();
    let mut i: usize = 0;
    while i < n
        invariant
            n <= i64::MAX,
            i <= n,
            vars@.map_values(|v: Variable| v@) == nqueens_view(n as int).variables.take(i as int),
            idxs@ == index_seq(n as int).take(i as int),
        decreases n - i,
    {
        let name = label("Q", i as u64);
        let v = Variable::range(name.as_str(), 1, n as i64);
        let ghost prev = vars@.map_values(|v: Variable| v@);
        vars.push(v);
        idxs.push(i);
        assert(vars@.map_values(|v: Variable| v@) =~= prev.push(v@));
        assert(vars@.map_values(|v: Variable| v@) =~= nqueens_view(n as int).variables.take(i + 1));
        assert(idxs@ =~= index_seq(n as int).take(i + 1));
        i = i + 1;
    }
    assert(nqueens_view(n as int).variables.take(n as int) =~= nqueens_view(n as int).variables);
    assert(index_seq(n as int).take(n as int) =~= index_seq(n as int));
    let mut cs = ConstraintProblem::all_diff(idxs.as_slice());
    let ghost pre = views(cs@);
    let diag = Constraint::Nary { vars: idxs, check: NaryCheck::QueensDiagonals, desc: "all-diag" };
    cs.push(diag);
    assert(views(cs@) =~= pre.push(diag@));
    ConstraintProblem::new(vars, cs)
}

/// The N-Queens problem meets what the solvers ask of a problem.
proof fn lemma_nqueens_solvable_shape(n: int)
    requires
        0 <= n,
    ensures
        nqueens_view(n).well_formed(),
        nqueens_view(n).referenced_nonempty(),
        binary_symmetric(nqueens_view(n).constraints),
{
    let p = nqueens_view(n);
    let ad = all_diff_spec(index_seq(n));
    lemma_all_diff_spec(index_seq(n));
    assert forall|k: int, t: int|
        0 <= k < p.constraints.len() && 0 <= t < p.constraints[k].vars().len() implies #[trigger] p.constraints[k].vars()[t]
        < p.n() && p.variables[p.constraints[k].vars()[t] as int].domain.len() > 0 by {
        if k < ad.len() {
            assert(p.constraints[k] == ad[k]);
        }
    }
    assert forall|k: int| 0 <= k < p.constraints.len() && (#[trigger] p.constraints[k]) is Binary implies p.constraints[k].binary_check().is_symmetric() by {
        assert(k < ad.len());
        assert(p.constraints[k] == ad[k]);
    }
}

/// Solves N-Queens with forward checking; the result maps each row to its
/// queen's column. `None` exactly when there is no solution, that is exactly
/// when there is no non-attacking placement to count.
pub fn solve_nqueens(n: usize) -> (r: Option<HashMap<usize, i64>>)
    requires
        n <= i64::MAX,
    ensures
        match r {
            Some(m) => nqueens_view(n as int).is_solution(m@) && queens_placement(n as int, m@),
            None => !nqueens_view(n as int).solvable(),
        },
        r is Some <==> queens_boards(n as int).len() > 0,
{
    let p = nqueens_problem(n);
    proof {
        lemma_nqueens_solvable_shape(n as int);
        lemma_count_positive_iff_solvable(n as nat);
        lemma_count_is_number_of_boards(n as nat);
    }
    let r = solve_bt_fc(&p);
    proof {
        if r is Some {
            lemma_nqueens_solutions(n as nat, r->0@);
        }
    }
    r
}

/// A queen in row `row` at column `col` attacks none of the queens of the rows
/// above it (whose columns are `board[0..row]`): no shared column, no shared
/// diagonal.
pub open spec fn queen_safe(board: Seq<i64>, row: int, col: i64) -> bool {
    forall|r: int| 0 <= r < row ==> #[trigger] board[r] != col && abs_diff(board[r], col) != row - r
}

/// Number of ways to extend the columns `prefix` of the first rows to a
/// non-attacking placement of `n` queens on an `n x n` board (columns `1..=n`).
pub open spec fn queen_completions(n: int, prefix: Seq<i64>) -> nat
    decreases n - prefix.len(), n + 1,
{
    if prefix.len() >= n {
        1
    } else {
        queen_completions_upto(n, prefix, n)
    }
}

/// Like `queen_completions`, counting only the completions whose next row
/// takes a column in `1..=c`.
pub open spec fn queen_completions_upto(n: int, prefix: Seq<i64>, c: int) -> nat
    decreases n - prefix.len(), c,
{
    if c <= 0 || prefix.len() >= n {
        0
    } else {
        queen_completions_upto(n, prefix, c - 1) + if queen_safe(prefix, prefix.len() as int, c as i64) {
            queen_completions(n, prefix.push(c as i64))
        } else {
            0
        }
    }
}

proof fn lemma_completions_upto_mono(n: int, prefix: Seq<i64>, c: int, d: int)
    requires
        c <= d,
    ensures
        queen_completions_upto(n, prefix, c) <= queen_completions_upto(n, prefix, d),
    decreases d - c,
{
    if c < d {
        lemma_completions_upto_mono(n, prefix, c, d - 1);
    }
}

/// Number of non-attacking placements of `n` queens (small `n`), counted by a
/// dedicated backtracker that checks columns and diagonals directly.
pub fn count_nqueens(n: usize) -> (r: u64)
    requires
        n <= i64::MAX,
        queens_boards(n as int).len() <= u64::MAX,
    ensures
        r == queens_boards(n as int).len(),
        r == queen_completions(n as int, seq![]),
{
    proof {
        lemma_count_is_number_of_boards(n as nat);
    }
    let mut count: u64 = 0;
    let mut board: Vec<i64> = Vec::new();
    let mut i: usize = 0;
    while i < n
        invariant
            i <= n,
            board@.len() == i,
        decreases n - i,
    {
        board.push(0);
        i = i + 1;
    }
    assert(board@.take(0) =~= seq![]);
    count_nqueens_bt(n, &mut board, 0, &mut count);
    count
}

fn count_nqueens_bt(n: usize, board: &mut Vec<i64>, row: usize, count: &mut u64)
    requires
        n <= i64::MAX,
        row <= n,
        old(board)@.len() == n,
        *old(count) + queen_completions(n as int, old(board)@.take(row as int)) <= u64::MAX,
    ensures
        final(board)@.len() == n,
        final(board)@.take(row as int) == old(board)@.take(row as int),
        *final(count) == *old(count) + queen_completions(n as int, old(board)@.take(row as int)),
    decreases n - row,
{
    if row == n {
        *count = *count + 1;
        return;
    }
    let ghost prefix = board@.take(row as int);
    let ghost c0 = *count;
    let nn = n as i64;
    let mut col: i64 = 1;
    loop
        invariant_except_break
            1 <= col <= nn,
            *count == c0 + queen_completions_upto(n as int, prefix, col - 1),
        invariant
            n <= i64::MAX,
            nn == n,
            row < n,
            board@.len() == n,
            board@.take(row as int) == prefix,
            c0 + queen_completions(n as int, prefix) <= u64::MAX,
        ensures
            *count == c0 + queen_completions_upto(n as int, prefix, nn as int),
        decreases nn - col,
    {
        proof {
            lemma_completions_upto_mono(n as int, prefix, col as int, n as int);
        }
        let safe = is_safe(board, row, col);
        proof {
            assert(safe == queen_safe(prefix, row as int, col)) by {
                if safe {
                    assert forall|q: int| 0 <= q < row implies #[trigger] prefix[q] != col && abs_diff(
                        prefix[q],
                        col,
                    ) != row - q by {
                        assert(board@.take(row as int)[q] == board@[q]);
                    }
                } else {
                    let q = choose|q: int|
                        0 <= q < row && !(#[trigger] board@[q] != col && abs_diff(board@[q], col) != row - q);
                    assert(board@.take(row as int)[q] == board@[q]);
                }
            }
            assert(prefix.len() == row);
            assert((col as int) as i64 == col);
            assert(queen_completions_upto(n as int, prefix, col as int) == queen_completions_upto(
                n as int,
                prefix,
                col - 1,
            ) + if queen_safe(prefix, row as int, col) {
                queen_completions(n as int, prefix.push(col))
            } else {
                0
            });
        }
        if safe {
            board.set(row, col);
            assert(board@.take(row + 1) =~= prefix.push(col));
            count_nqueens_bt(n, board, row + 1, count);
            assert(board@.take(row as int) =~= board@.take(row + 1).take(row as int));
        }
        if col == nn {
            break;
        }
        col = col + 1;
    }
}

/// Whether a queen at `(row, col)` is safe from the queens of rows `0..row`.
fn is_safe(board: &Vec<i64>, row: usize, col: i64) -> (r: bool)
    requires
        row <= board@.len(),
    ensures
        r == queen_safe(board@, row as int, col),
{
    let mut r: usize = 0;
    while r < row
        invariant
            row <= board@.len(),
            r <= row,
            forall|q: int| 0 <= q < r ==> #[trigger] board@[q] != col && abs_diff(board@[q], col) != row - q,
        decreases row - r,
    {
        if board[r] == col {
            return false;
        }
        let d: i128 = board[r] as i128 - col as i128;
        let ad: i128 = if d < 0 {
            -d
        } else {
            d
        };
        if ad == (row - r) as i128 {
            return false;
        }
        r = r + 1;
    }
    true
}

// ---------------------------------------------------------------------------
// 4x4 Sudoku
// ---------------------------------------------------------------------------

/// The cells (index `r * 4 + c`) of the `g`-th all-different group of a 4x4
/// Sudoku: rows `0..4`, then columns `4..8`, then the 2x2 boxes `8..12`
/// (box row major, cells row major within the box).
pub open spec fn sudoku4_group(g: int) -> Seq<usize> {
    Seq::new(
        4,
        |k: int|
            (if g < 4 {
                g * 4 + k
            } else if g < 8 {
                k * 4 + (g - 4)
            } else {
                (((g - 8) / 2) * 2 + k / 2) * 4 + ((g - 8) % 2) * 2 + k % 2
            }) as usize,
    )
}

/// The all-different constraints of the first `g` groups, in group order.
pub open spec fn sudoku4_constraints(g: nat) -> Seq<ConstraintView>
    decreases g,
{
    if g == 0 {
        Seq::empty()
    } else {
        sudoku4_constraints((g - 1) as nat) + all_diff_spec(sudoku4_group(g - 1))
    }
}

/// The 4x4 Sudoku problem: cell `r * 4 + c` is named `"{r}{c}"` and takes a
/// value in `1..=4`; each row, column and 2x2 box is all-different.
pub open spec fn sudoku4_view() -> ProblemView {
    ProblemView {
        variables: Seq::new(
            16,
            |k: int|
                VariableView {
                    name: decimal_digits((k / 4) as nat) + decimal_digits((k % 4) as nat),
                    domain: int_seq(1, 5),
                },
        ),
        constraints: sudoku4_constraints(12),
    }
}

/// Appends the all-different constraints over `cells`.
fn add_all_diff(cs: &mut Vec<Constraint>, cells: &Vec<usize>)
    ensures
        views(final(cs)@) == views(old(cs)@) + all_diff_spec(cells@),
{
    let mut more = ConstraintProblem::all_diff(cells.as_slice());
    let ghost a = cs@;
    let ghost b = more@;
    cs.append(&mut more);
    assert(views(cs@) =~= views(a) + views(b));
}

/// Builds the 4x4 Sudoku problem (no givens).
pub fn sudoku4x4_problem() -> (p: ConstraintProblem)
    ensures
        p@ == sudoku4_view(),
{
    let mut vars: Vec<Variable> = Vec::new();
    let mut r: usize = 0;
    while r < 4
        invariant
            r <= 4,
            vars@.map_values(|v: Variable| v@) == sudoku4_view().variables.take(r * 4),
        decreases 4 - r,
    {
        let mut c: usize = 0;
        while c < 4
            invariant
                r < 4,
                c <= 4,
                vars@.map_values(|v: Variable| v@) == sudoku4_view().variables.take(r * 4 + c),
            decreases 4 - c,
        {
            let row_text = label("", r as u64);
            let name = label(row_text.as_str(), c as u64);
            let v = Variable::range(name.as_str(), 1, 4);
            let ghost prev = vars@.map_values(|v: Variable| v@);
            vars.push(v);
            proof {
                let k = r * 4 + c;
                reveal_strlit("");
                assert(k / 4 == r && k % 4 == c);
                assert(""@ + decimal_digits(r as nat) =~= decimal_digits(r as nat));
                assert(v@ == sudoku4_view().variables[k]);
                assert(vars@.map_values(|v: Variable| v@) =~= prev.push(v@));
                assert(vars@.map_values(|v: Variable| v@) =~= sudoku4_view().variables.take(r * 4 + c + 1));
            }
            c = c + 1;
        }
        r = r + 1;
    }
    assert(sudoku4_view().variables.take(16) =~= sudoku4_view().variables);
    let mut cs: Vec<Constraint> = Vec::new();
    let mut g: usize = 0;
    while g < 4
        invariant
            g <= 4,
            views(cs@) == sudoku4_constraints(g as nat),
        decreases 4 - g,
    {
        let cells = vec![g * 4, g * 4 + 1, g * 4 + 2, g * 4 + 3];
        assert(cells@ =~= sudoku4_group(g as int));
        add_all_diff(&mut cs, &cells);
        g = g + 1;
    }
    let mut c: usize = 0;
    while c < 4
        invariant
            c <= 4,
            views(cs@) == sudoku4_constraints((4 + c) as nat),
        decreases 4 - c,
    {
        let cells = vec![c, 4 + c, 8 + c, 12 + c];
        assert(cells@ =~= sudoku4_group(4 + c));
        add_all_diff(&mut cs, &cells);
        c = c + 1;
    }
    let mut br: usize = 0;
    while br < 2
        invariant
            br <= 2,
            views(cs@) == sudoku4_constraints((8 + br * 2) as nat),
        decreases 2 - br,
    {
        let mut bc: usize = 0;
        while bc < 2
            invariant
                br < 2,
                bc <= 2,
                views(cs@) == sudoku4_constraints((8 + br * 2 + bc) as nat),
            decreases 2 - bc,
        {
            let top = br * 2 * 4 + bc * 2;
            let cells = vec![top, top + 1, top + 4, top + 5];
            proof {
                let g = 8 + br * 2 + bc;
                assert((g - 8) / 2 == br && (g - 8) % 2 == bc);
                assert(cells@ =~= sudoku4_group(g));
            }
            add_all_diff(&mut cs, &cells);
            bc = bc + 1;
        }
        br = br + 1;
    }
    ConstraintProblem::new(vars, cs)
}

/// Every constraint of the first `g` groups is a `!=` between two cells of a group.
proof fn lemma_sudoku4_constraints(g: nat)
    requires
        g <= 12,
    ensures
        forall|k: int|
            0 <= k < sudoku4_constraints(g).len() ==> exists|h: int, i: int, j: int|
                0 <= h < g && 0 <= i < j < 4 && #[trigger] sudoku4_constraints(g)[k] == (ConstraintView::Binary {
                    a: sudoku4_group(h)[i],
                    b: sudoku4_group(h)[j],
                    check: BinaryCheck::Neq,
                    desc: "alldiff",
                }),
    decreases g,
{
    if g > 0 {
        lemma_sudoku4_constraints((g - 1) as nat);
        let pre = sudoku4_constraints((g - 1) as nat);
        let grp = sudoku4_group(g - 1);
        lemma_all_diff_spec(grp);
        assert forall|k: int| 0 <= k < sudoku4_constraints(g).len() implies exists|h: int, i: int, j: int|
            0 <= h < g && 0 <= i < j < 4 && #[trigger] sudoku4_constraints(g)[k] == (ConstraintView::Binary {
                a: sudoku4_group(h)[i],
                b: sudoku4_group(h)[j],
                check: BinaryCheck::Neq,
                desc: "alldiff",
            }) by {
            if k < pre.len() {
                assert(sudoku4_constraints(g)[k] == pre[k]);
            } else {
                assert(sudoku4_constraints(g)[k] == all_diff_spec(grp)[k - pre.len()]);
            }
        }
    }
}

/// The 4x4 Sudoku problem meets what the solvers ask of a problem.
proof fn lemma_sudoku4_shape()
    ensures
        sudoku4_view().well_formed(),
        sudoku4_view().referenced_nonempty(),
        sudoku4_view().all_domains_nonempty(),
        binary_symmetric(sudoku4_view().constraints),
{
    let p = sudoku4_view();
    lemma_sudoku4_constraints(12);
    assert forall|h: int, i: int| 0 <= h < 12 && 0 <= i < 4 implies #[trigger] sudoku4_group(h)[i] < 16 by {
        if h >= 8 {
            assert((h - 8) / 2 <= 1);
            assert((h - 8) % 2 <= 1);
            assert(i / 2 <= 1);
            assert(i % 2 <= 1);
        }
    }
    assert forall|k: int, t: int|
        0 <= k < p.constraints.len() && 0 <= t < p.constraints[k].vars().len() implies #[trigger] p.constraints[k].vars()[t]
        < p.n() && p.variables[p.constraints[k].vars()[t] as int].domain.len() > 0 by {
        let (h, i, j) = choose|h: int, i: int, j: int|
            0 <= h < 12 && 0 <= i < j < 4 && #[trigger] sudoku4_constraints(12)[k] == (ConstraintView::Binary {
                a: sudoku4_group(h)[i],
                b: sudoku4_group(h)[j],
                check: BinaryCheck::Neq,
                desc: "alldiff",
            });
        assert(sudoku4_group(h)[i] < 16 && sudoku4_group(h)[j] < 16);
    }
    assert forall|k: int| 0 <= k < p.constraints.len() && (#[trigger] p.constraints[k]) is Binary implies p.constraints[k].binary_check().is_symmetric() by {
        let (h, i, j) = choose|h: int, i: int, j: int|
            0 <= h < 12 && 0 <= i < j < 4 && #[trigger] sudoku4_constraints(12)[k] == (ConstraintView::Binary {
                a: sudoku4_group(h)[i],
                b: sudoku4_group(h)[j],
                check: BinaryCheck::Neq,
                desc: "alldiff",
            });
    }
}

/// The assignment giving cell `i` the value `v[i]`, for each position of `v`.
pub open spec fn cells_map(v: Seq<i64>) -> Map<usize, i64> {
    Map::new(|i: usize| i < v.len(), |i: usize| v[i as int])
}

/// Solves the 4x4 Sudoku with forward checking; the values are in cell order.
/// `None` exactly when there is no solution.
pub fn solve_sudoku4x4() -> (r: Option<Vec<i64>>)
    ensures
        match r {
            Some(v) => v@.len() == 16 && sudoku4_view().is_solution(cells_map(v@)),
            None => !sudoku4_view().solvable(),
        },
{
    let p = sudoku4x4_problem();
    proof {
        lemma_sudoku4_shape();
    }
    let result = solve_bt_fc(&p);
    match result {
        None => None,
        Some(m) => {
            let mut vals: Vec<i64> = Vec::new();
            let mut i: usize = 0;
            while i < 16
                invariant
                    i <= 16,
                    sudoku4_view().is_solution(m@),
                    sudoku4_view().all_domains_nonempty(),
                    vals@.len() == i,
                    forall|j: int| 0 <= j < i ==> vals@[j] == m@[j as usize],
                decreases 16 - i,
            {
                assert(m@.contains_key(i)) by {
                    assert(sudoku4_view().domains()[i as int].len() > 0) by {
                        assert(sudoku4_view().variables[i as int].domain.len() > 0);
                    }
                }
                match m.get(&i) {
                    Some(x) => {
                        vals.push(*x);
                    },
                    None => {
                        return None;
                    },
                }
                i = i + 1;
            }
            proof {
                assert(cells_map(vals@) =~= m@) by {
                    assert forall|j: usize| m@.contains_key(j) implies j < 16 by {}
                }
            }
            Some(vals)
        },
    }
}

// ---------------------------------------------------------------------------
// Graph colouring
// ---------------------------------------------------------------------------

/// Largest node named by the edges (0 when there is none).
pub open spec fn max_endpoint(adj: Seq<(usize, usize)>) -> int
    decreases adj.len(),
{
    if adj.len() == 0 {
        0
    } else {
        let rest = max_endpoint(adj.drop_last());
        let e = adj.last();
        let m = if e.0 > rest {
            e.0 as int
        } else {
            rest
        };
        if e.1 > m {
            e.1 as int
        } else {
            m
        }
    }
}

proof fn lemma_max_endpoint(adj: Seq<(usize, usize)>)
    ensures
        max_endpoint(adj) >= 0,
        forall|i: int| 0 <= i < adj.len() ==> (#[trigger] adj[i]).0 <= max_endpoint(adj) && adj[i].1 <= max_endpoint(adj),
        adj.len() > 0 ==> exists|i: int| 0 <= i < adj.len() && (max_endpoint(adj) == (#[trigger] adj[i]).0 || max_endpoint(adj) == adj[i].1),
    decreases adj.len(),
{
    if adj.len() > 0 {
        lemma_max_endpoint(adj.drop_last());
        assert forall|i: int| 0 <= i < adj.len() implies (#[trigger] adj[i]).0 <= max_endpoint(adj) && adj[i].1 <= max_endpoint(adj) by {
            if i < adj.len() - 1 {
                assert(adj.drop_last()[i] == adj[i]);
            }
        }
        let last = adj.len() - 1;
        if max_endpoint(adj) == adj[last].0 || max_endpoint(adj) == adj[last].1 {
            assert(max_endpoint(adj) == (#[trigger] adj[last]).0 || max_endpoint(adj) == adj[last].1);
        } else if adj.len() > 1 {
            let i = choose|i: int| 0 <= i < adj.drop_last().len() && (max_endpoint(adj.drop_last()) == (#[trigger] adj.drop_last()[i]).0 || max_endpoint(adj.drop_last()) == adj.drop_last()[i].1);
            assert(adj.drop_last()[i] == adj[i]);
        } else {
            assert(max_endpoint(adj.drop_last()) == 0);
        }
    }
}

/// The graph colouring problem: node `i` of `0..=max_endpoint` is variable
/// `V{i}` with colours `0..k`, and each edge asks its ends to differ.
pub open spec fn coloring_view(adj: Seq<(usize, usize)>, k: int) -> ProblemView {
    ProblemView {
        variables: Seq::new(
            (max_endpoint(adj) + 1) as nat,
            |i: int| VariableView { name: "V"@ + decimal_digits(i as nat), domain: int_seq(0, k) },
        ),
        constraints: adj.map_values(
            |e: (usize, usize)| ConstraintView::Binary { a: e.0, b: e.1, check: BinaryCheck::Neq, desc: "!=" },
        ),
    }
}

/// Builds the graph colouring problem for the edge list `adjacency` with
/// `num_colors` colours (read as an `i64`, as a colour value).
pub fn graph_coloring_problem(adjacency: &[(usize, usize)], num_colors: usize) -> (p: ConstraintProblem)
    requires
        forall|i: int| 0 <= i < adjacency@.len() ==> (#[trigger] adjacency@[i]).0 < usize::MAX && adjacency@[i].1 < usize::MAX,
        num_colors as i64 != i64::MIN,
    ensures
        p@ == coloring_view(adjacency@, (num_colors as i64) as int),
{
    let ghost adj = adjacency@;
    proof {
        lemma_max_endpoint(adj);
    }
    let mut top: usize = 0;
    let mut e: usize = 0;
    while e < adjacency.len()
        invariant
            adj == adjacency@,
            e <= adj.len(),
            top == max_endpoint(adj.take(e as int)),
        decreases adj.len() - e,
    {
        assert(adj.take(e + 1).drop_last() =~= adj.take(e as int));
        let (a, b) = adjacency[e];
        if a > top {
            top = a;
        }
        if b > top {
            top = b;
        }
        e = e + 1;
    }
    assert(adj.take(e as int) =~= adj);
    let max_node = top + 1;
    let ghost view = coloring_view(adj, (num_colors as i64) as int);
    let mut vars: Vec<Variable> = Vec::new();
    let mut i: usize = 0;
    while i < max_node
        invariant
            max_node == view.variables.len(),
            view == coloring_view(adj, (num_colors as i64) as int),
            num_colors as i64 != i64::MIN,
            i <= max_node,
            vars@.map_values(|v: Variable| v@) == view.variables.take(i as int),
        decreases max_node - i,
    {
        let name = label("V", i as u64);
        let v = Variable::range(name.as_str(), 0, num_colors as i64 - 1);
        let ghost prev = vars@.map_values(|v: Variable| v@);
        vars.push(v);
        assert(vars@.map_values(|v: Variable| v@) =~= prev.push(v@));
        assert(vars@.map_values(|v: Variable| v@) =~= view.variables.take(i + 1));
        i = i + 1;
    }
    assert(view.variables.take(i as int) =~= view.variables);
    let mut cs: Vec<Constraint> = Vec::new();
    let mut e: usize = 0;
    while e < adjacency.len()
        invariant
            adj == adjacency@,
            view == coloring_view(adj, (num_colors as i64) as int),
            e <= adj.len(),
            views(cs@) == view.constraints.take(e as int),
        decreases adj.len() - e,
    {
        let (a, b) = adjacency[e];
        let ghost prev = views(cs@);
        let c = Constraint::Binary { a, b, check: BinaryCheck::Neq, desc: "!=" };
        cs.push(c);
        assert(views(cs@) =~= prev.push(c@));
        assert(views(cs@) =~= view.constraints.take(e + 1));
        e = e + 1;
    }
    assert(view.constraints.take(e as int) =~= view.constraints);
    ConstraintProblem::new(vars, cs)
}

/// Solves graph colouring with forward checking; the result maps each node to
/// its colour. `None` exactly when no colouring exists.
pub fn solve_graph_coloring(adjacency: &[(usize, usize)], num_colors: usize) -> (r: Option<HashMap<usize, i64>>)
    requires
        forall|i: int| 0 <= i < adjacency@.len() ==> (#[trigger] adjacency@[i]).0 < usize::MAX && adjacency@[i].1 < usize::MAX,
        num_colors as i64 != i64::MIN,
        num_colors as i64 >= 1 || adjacency@.len() == 0,
    ensures
        match r {
            Some(m) => coloring_view(adjacency@, (num_colors as i64) as int).is_solution(m@),
            None => !coloring_view(adjacency@, (num_colors as i64) as int).solvable(),
        },
{
    let p = graph_coloring_problem(adjacency, num_colors);
    proof {
        let v = coloring_view(adjacency@, (num_colors as i64) as int);
        lemma_max_endpoint(adjacency@);
        assert forall|k: int, t: int|
            0 <= k < v.constraints.len() && 0 <= t < v.constraints[k].vars().len() implies #[trigger] v.constraints[k].vars()[t]
            < v.n() && v.variables[v.constraints[k].vars()[t] as int].domain.len() > 0 by {
            assert(adjacency@[k].0 <= max_endpoint(adjacency@));
        }
    }
    solve_bt_fc(&p)
}

// ---------------------------------------------------------------------------
// What the solutions of the built-in puzzles are
// ---------------------------------------------------------------------------

/// The pair `(vars[i], vars[j])` of `i < j` has its `!=` constraint among the
/// first `n` rows of the all-different constraints, when `i < n`.
proof fn lemma_all_diff_has_pair(vars: Seq<usize>, n: nat, i: int, j: int)
    requires
        0 <= i < j < vars.len(),
        i < n <= vars.len(),
    ensures
        exists|k: int|
            0 <= k < all_diff_prefix(vars, n).len() && #[trigger] all_diff_prefix(vars, n)[k] == (ConstraintView::Binary {
                a: vars[i],
                b: vars[j],
                check: BinaryCheck::Neq,
                desc: "alldiff",
            }),
    decreases n,
{
    let pre = all_diff_prefix(vars, (n - 1) as nat);
    if n == i + 1 {
        let k = pre.len() + (j - i - 1);
        assert(all_diff_prefix(vars, n)[k] == neq_pairs_from(vars, i)[j - i - 1]);
    } else {
        lemma_all_diff_has_pair(vars, (n - 1) as nat, i, j);
        let k = choose|k: int|
            0 <= k < pre.len() && #[trigger] pre[k] == (ConstraintView::Binary {
                a: vars[i],
                b: vars[j],
                check: BinaryCheck::Neq,
                desc: "alldiff",
            });
        assert(all_diff_prefix(vars, n)[k] == pre[k]);
    }
}

/// The all-different constraints over `vars` all hold under `m` exactly when
/// `m` gives the listed variables pairwise different values.
pub proof fn lemma_all_diff_holds(vars: Seq<usize>, m: Map<usize, i64>)
    ensures
        (forall|k: int| 0 <= k < all_diff_spec(vars).len() ==> #[trigger] all_diff_spec(vars)[k].holds_in(m))
            <==> (forall|i: int, j: int| 0 <= i < j < vars.len() ==> m[#[trigger] vars[i]] != m[#[trigger] vars[j]]),
{
    lemma_all_diff_spec(vars);
    if forall|k: int| 0 <= k < all_diff_spec(vars).len() ==> #[trigger] all_diff_spec(vars)[k].holds_in(m) {
        assert forall|i: int, j: int| 0 <= i < j < vars.len() implies m[#[trigger] vars[i]] != m[#[trigger] vars[j]] by {
            lemma_all_diff_has_pair(vars, vars.len(), i, j);
            let k = choose|k: int|
                0 <= k < all_diff_spec(vars).len() && #[trigger] all_diff_spec(vars)[k] == (ConstraintView::Binary {
                    a: vars[i],
                    b: vars[j],
                    check: BinaryCheck::Neq,
                    desc: "alldiff",
                });
            assert(all_diff_spec(vars)[k].holds_in(m));
        }
    }
    if forall|i: int, j: int| 0 <= i < j < vars.len() ==> m[#[trigger] vars[i]] != m[#[trigger] vars[j]] {
        assert forall|k: int| 0 <= k < all_diff_spec(vars).len() implies #[trigger] all_diff_spec(vars)[k].holds_in(m) by {
            let (i, j) = choose|i: int, j: int|
                0 <= i < j < vars.len() && #[trigger] all_diff_spec(vars)[k] == (ConstraintView::Binary {
                    a: vars[i],
                    b: vars[j],
                    check: BinaryCheck::Neq,
                    desc: "alldiff",
                });
            assert(m[vars[i]] != m[vars[j]]);
        }
    }
}

/// The diagonal constraint of rows `i < j`, as `queen_diag` builds it.
pub open spec fn queen_diag_pair(i: int, j: int) -> ConstraintView {
    ConstraintView::Nary {
        vars: seq![i as usize, j as usize],
        check: NaryCheck::QueenDiagonal((j - i) as usize),
        desc: "qdiag",
    }
}

proof fn lemma_queen_diag_shape(n: int, p: nat)
    requires
        p <= n,
    ensures
        forall|k: int|
            0 <= k < queen_diag_prefix(n, p).len() ==> exists|i: int, j: int|
                0 <= i < j < n && #[trigger] queen_diag_prefix(n, p)[k] == queen_diag_pair(i, j),
    decreases p,
{
    if p > 0 {
        lemma_queen_diag_shape(n, (p - 1) as nat);
        let pre = queen_diag_prefix(n, (p - 1) as nat);
        let tail = queen_pairs_from(n, p - 1);
        assert forall|k: int| 0 <= k < queen_diag_prefix(n, p).len() implies exists|i: int, j: int|
            0 <= i < j < n && #[trigger] queen_diag_prefix(n, p)[k] == queen_diag_pair(i, j) by {
            if k < pre.len() {
                assert(queen_diag_prefix(n, p)[k] == pre[k]);
            } else {
                let t = k - pre.len();
                assert(queen_diag_prefix(n, p)[k] == tail[t]);
                assert(tail[t] == queen_diag_pair(p - 1, p - 1 + 1 + t));
            }
        }
    }
}

proof fn lemma_queen_diag_has_pair(n: int, p: nat, i: int, j: int)
    requires
        0 <= i < j < n,
        i < p <= n,
    ensures
        exists|k: int|
            0 <= k < queen_diag_prefix(n, p).len() && #[trigger] queen_diag_prefix(n, p)[k] == queen_diag_pair(i, j),
    decreases p,
{
    let pre = queen_diag_prefix(n, (p - 1) as nat);
    if p == i + 1 {
        let k = pre.len() + (j - i - 1);
        assert(queen_diag_prefix(n, p)[k] == queen_pairs_from(n, i)[j - i - 1]);
        assert(queen_pairs_from(n, i)[j - i - 1] == queen_diag_pair(i, j));
    } else {
        lemma_queen_diag_has_pair(n, (p - 1) as nat, i, j);
        let k = choose|k: int| 0 <= k < pre.len() && #[trigger] pre[k] == queen_diag_pair(i, j);
        assert(queen_diag_prefix(n, p)[k] == pre[k]);
    }
}

/// The diagonal constraints that `queen_diag(n)` builds all hold under `m`
/// exactly when no two queens share a diagonal: `|m[i] - m[j]| != j - i` for
/// all rows `i < j < n`.
pub proof fn lemma_queen_diag_holds(n: nat, m: Map<usize, i64>)
    requires
        n <= usize::MAX,
    ensures
        (forall|k: int|
            0 <= k < queen_diag_prefix(n as int, n).len() ==> #[trigger] queen_diag_prefix(n as int, n)[k].holds_in(m))
            <==> (forall|i: usize, j: usize| i < j < n ==> abs_diff(#[trigger] m[i], #[trigger] m[j]) != j - i),
{
    let qs = queen_diag_prefix(n as int, n);
    lemma_queen_diag_shape(n as int, n);
    if forall|k: int| 0 <= k < qs.len() ==> #[trigger] qs[k].holds_in(m) {
        assert forall|i: usize, j: usize| i < j < n implies abs_diff(#[trigger] m[i], #[trigger] m[j]) != j - i by {
            lemma_queen_diag_has_pair(n as int, n, i as int, j as int);
            let k = choose|k: int| 0 <= k < qs.len() && #[trigger] qs[k] == queen_diag_pair(i as int, j as int);
            assert(qs[k].holds_in(m));
            assert(values_of(seq![i, j], m) =~= seq![m[i], m[j]]);
        }
    }
    if forall|i: usize, j: usize| i < j < n ==> abs_diff(#[trigger] m[i], #[trigger] m[j]) != j - i {
        assert forall|k: int| 0 <= k < qs.len() implies #[trigger] qs[k].holds_in(m) by {
            let (i, j) = choose|i: int, j: int| 0 <= i < j < n && #[trigger] qs[k] == queen_diag_pair(i, j);
            assert(values_of(seq![i as usize, j as usize], m) =~= seq![m[i as usize], m[j as usize]]);
            assert(abs_diff(m[i as usize], m[j as usize]) != (j as usize) - (i as usize));
        }
    }
}

/// A placement of `n` queens, one per row `0..n` given by its column in
/// `1..=n`, with no two queens in the same column or on the same diagonal.
pub open spec fn queens_placement(n: int, m: Map<usize, i64>) -> bool {
    &&& forall|i: usize| #[trigger] m.contains_key(i) <==> i < n
    &&& forall|i: usize| i < n ==> 1 <= #[trigger] m[i] <= n
    &&& forall|i: usize, j: usize|
        i < j < n ==> #[trigger] m[i] != #[trigger] m[j] && abs_diff(m[i], m[j]) != j - i
}

/// The solutions of the N-Queens problem are exactly the non-attacking
/// placements of `n` queens.
pub proof fn lemma_nqueens_solutions(n: nat, m: Map<usize, i64>)
    requires
        n <= i64::MAX,
        n <= usize::MAX,
    ensures
        nqueens_view(n as int).is_solution(m) <==> queens_placement(n as int, m),
{
    let p = nqueens_view(n as int);
    let idx = index_seq(n as int);
    let ad = all_diff_spec(idx);
    let dom = int_seq(1, (n + 1) as int);
    lemma_all_diff_holds(idx, m);
    assert(p.constraints.len() == ad.len() + 1);
    assert(p.domains().len() == n);
    assert forall|i: int| 0 <= i < n implies #[trigger] p.domains()[i] == dom by {}
    assert forall|v: i64| dom.contains(v) <==> 1 <= v <= n by {
        if 1 <= v <= n {
            assert(dom[v - 1] == v);
        }
    }
    let vals = crate::csp::values_of(idx, m);
    assert forall|i: int| 0 <= i < n implies #[trigger] vals[i] == m[i as usize] by {}
    let diag = ConstraintView::Nary { vars: idx, check: NaryCheck::QueensDiagonals, desc: "all-diag" };
    assert(p.constraints[ad.len() as int] == diag);
    if p.is_solution(m) {
        assert(forall|k: int| 0 <= k < ad.len() ==> #[trigger] ad[k].holds_in(m)) by {
            assert forall|k: int| 0 <= k < ad.len() implies #[trigger] ad[k].holds_in(m) by {
                assert(p.constraints[k] == ad[k]);
            }
        }
        assert(diag.holds_in(m));
        assert forall|i: usize, j: usize| i < j < n implies #[trigger] m[i] != #[trigger] m[j] && abs_diff(m[i], m[j]) != j - i by {
            assert(idx[i as int] == i && idx[j as int] == j);
            assert(abs_diff(vals[i as int], vals[j as int]) != j - i);
        }
        assert forall|i: usize| i < n implies 1 <= #[trigger] m[i] <= n by {
            assert(p.domains()[i as int].len() > 0);
            assert(m.contains_key(i));
        }
    }
    if queens_placement(n as int, m) {
        assert forall|i: int, j: int| 0 <= i < j < idx.len() implies m[#[trigger] idx[i]] != m[#[trigger] idx[j]] by {
            assert(m[i as usize] != m[j as usize]);
        }
        assert(diag.holds_in(m)) by {
            assert forall|i: int, j: int| 0 <= i < j < vals.len() implies #[trigger] abs_diff(vals[i], vals[j]) != j - i by {
                assert(abs_diff(m[i as usize], m[j as usize]) != (j as usize) - (i as usize));
            }
        }
        assert forall|k: int| 0 <= k < p.constraints.len() implies #[trigger] p.constraints[k].holds_in(m) by {
            if k < ad.len() {
                assert(p.constraints[k] == ad[k]);
            }
        }
        assert forall|i: usize| #[trigger] m.contains_key(i) <==> (i < p.domains().len() && p.domains()[i as int].len() > 0) by {
            if i < n {
                assert(p.domains()[i as int].len() > 0);
            }
        }
        assert forall|i: usize| #[trigger] m.contains_key(i) implies p.domains()[i as int].contains(m[i]) by {
            assert(1 <= m[i] <= n);
        }
    }
}

/// A proper colouring with `k` colours: every node `0..=max_endpoint` has a
/// colour in `0..k`, no other node has one, and the ends of every edge differ.
pub open spec fn proper_coloring(adj: Seq<(usize, usize)>, k: int, m: Map<usize, i64>) -> bool {
    &&& forall|i: usize| #[trigger] m.contains_key(i) <==> i <= max_endpoint(adj)
    &&& forall|i: usize| #[trigger] m.contains_key(i) ==> 0 <= m[i] < k
    &&& forall|e: int| 0 <= e < adj.len() ==> m[(#[trigger] adj[e]).0] != m[adj[e].1]
}

/// With at least one colour, the solutions of the colouring problem are
/// exactly its proper colourings.
pub proof fn lemma_coloring_solutions(adj: Seq<(usize, usize)>, k: int, m: Map<usize, i64>)
    requires
        1 <= k <= i64::MAX,
    ensures
        coloring_view(adj, k).is_solution(m) <==> proper_coloring(adj, k, m),
{
    let p = coloring_view(adj, k);
    let dom = int_seq(0, k);
    assert forall|i: int| 0 <= i < p.n() implies #[trigger] p.domains()[i] == dom by {}
    assert forall|v: i64| dom.contains(v) <==> 0 <= v < k by {
        if 0 <= v < k {
            assert(dom[v as int] == v);
        }
    }
    assert(dom.len() > 0);
    if p.is_solution(m) {
        assert forall|e: int| 0 <= e < adj.len() implies m[(#[trigger] adj[e]).0] != m[adj[e].1] by {
            assert(p.constraints[e].holds_in(m));
        }
        assert forall|i: usize| #[trigger] m.contains_key(i) <==> i <= max_endpoint(adj) by {
            if i <= max_endpoint(adj) {
                assert(p.domains()[i as int].len() > 0);
            }
        }
    }
    if proper_coloring(adj, k, m) {
        assert forall|e: int| 0 <= e < p.constraints.len() implies #[trigger] p.constraints[e].holds_in(m) by {
            assert(m[adj[e].0] != m[adj[e].1]);
        }
        assert forall|i: usize| #[trigger] m.contains_key(i) <==> (i < p.domains().len() && p.domains()[i as int].len() > 0) by {
            if i <= max_endpoint(adj) {
                assert(p.domains()[i as int].len() > 0);
            }
        }
        assert forall|i: usize| #[trigger] m.contains_key(i) implies p.domains()[i as int].contains(m[i]) by {
            assert(0 <= m[i] < k);
        }
    }
}

/// `b` completes the columns `prefix` of the first rows to `n` rows: it
/// extends `prefix`, and every later row holds a column in `1..=n` safe from
/// the queens of the rows above it.
pub open spec fn completes(n: int, prefix: Seq<i64>, b: Seq<i64>) -> bool {
    &&& prefix.len() <= n
    &&& b.len() == n
    &&& b.take(prefix.len() as int) == prefix
    &&& forall|r: int| prefix.len() <= r < n ==> 1 <= #[trigger] b[r] <= n && queen_safe(b, r, b[r])
}

proof fn lemma_upto_witness(n: int, prefix: Seq<i64>, c: int)
    requires
        queen_completions_upto(n, prefix, c) > 0,
    ensures
        exists|d: int|
            1 <= d <= c && queen_safe(prefix, prefix.len() as int, d as i64) && #[trigger] queen_completions(
                n,
                prefix.push(d as i64),
            ) > 0,
    decreases c,
{
    if queen_completions_upto(n, prefix, c - 1) > 0 {
        lemma_upto_witness(n, prefix, c - 1);
    } else {
        assert(queen_completions(n, prefix.push(c as i64)) > 0);
    }
}

proof fn lemma_upto_at_least(n: int, prefix: Seq<i64>, c: int, d: int)
    requires
        1 <= d <= c,
        prefix.len() < n,
        queen_safe(prefix, prefix.len() as int, d as i64),
    ensures
        queen_completions_upto(n, prefix, c) >= queen_completions(n, prefix.push(d as i64)),
    decreases c,
{
    if d < c {
        lemma_upto_at_least(n, prefix, c - 1, d);
    } else {
        lemma_completions_upto_mono(n, prefix, 0, c - 1);
    }
}

/// Safety of a row only depends on the rows above it.
proof fn lemma_queen_safe_prefix(b1: Seq<i64>, b2: Seq<i64>, row: int, col: i64)
    requires
        0 <= row <= b1.len(),
        row <= b2.len(),
        forall|r: int| 0 <= r < row ==> b1[r] == b2[r],
    ensures
        queen_safe(b1, row, col) <==> queen_safe(b2, row, col),
{
    if queen_safe(b1, row, col) {
        assert forall|r: int| 0 <= r < row implies #[trigger] b2[r] != col && abs_diff(b2[r], col) != row - r by {
            assert(b1[r] == b2[r]);
        }
    }
    if queen_safe(b2, row, col) {
        assert forall|r: int| 0 <= r < row implies #[trigger] b1[r] != col && abs_diff(b1[r], col) != row - r by {
            assert(b1[r] == b2[r]);
        }
    }
}

/// There are completions to count exactly when some board completes the prefix.
proof fn lemma_completions_positive(n: int, prefix: Seq<i64>)
    requires
        prefix.len() <= n,
        n <= i64::MAX,
    ensures
        queen_completions(n, prefix) > 0 <==> exists|b: Seq<i64>| #[trigger] completes(n, prefix, b),
    decreases n - prefix.len(),
{
    let len = prefix.len() as int;
    if len >= n {
        assert(completes(n, prefix, prefix)) by {
            assert(prefix.take(len) =~= prefix);
        }
    } else {
        if queen_completions(n, prefix) > 0 {
            lemma_upto_witness(n, prefix, n);
            let d = choose|d: int|
                1 <= d <= n && queen_safe(prefix, len, d as i64) && #[trigger] queen_completions(
                    n,
                    prefix.push(d as i64),
                ) > 0;
            let p2 = prefix.push(d as i64);
            lemma_completions_positive(n, p2);
            let b = choose|b: Seq<i64>| #[trigger] completes(n, p2, b);
            assert(completes(n, prefix, b)) by {
                assert(b.take(len) =~= prefix) by {
                    assert forall|r: int| 0 <= r < len implies b.take(len)[r] == prefix[r] by {
                        assert(b.take(len + 1)[r] == p2[r]);
                    }
                }
                assert(b[len] == d) by {
                    assert(b.take(len + 1)[len] == p2[len]);
                }
                lemma_queen_safe_prefix(prefix, b, len, d as i64);
            }
        }
        if exists|b: Seq<i64>| #[trigger] completes(n, prefix, b) {
            let b = choose|b: Seq<i64>| #[trigger] completes(n, prefix, b);
            let d = b[len];
            let p2 = prefix.push(d);
            assert forall|r: int| 0 <= r < len implies prefix[r] == b[r] by {
                assert(b.take(len)[r] == b[r]);
            }
            lemma_queen_safe_prefix(prefix, b, len, d);
            assert(completes(n, p2, b)) by {
                assert(b.take(len + 1) =~= p2) by {
                    assert forall|r: int| 0 <= r < len + 1 implies b.take(len + 1)[r] == p2[r] by {
                        if r < len {
                            assert(b.take(len)[r] == b[r]);
                        }
                    }
                }
            }
            lemma_completions_positive(n, p2);
            assert((d as int) as i64 == d);
            lemma_upto_at_least(n, prefix, n, d as int);
        }
    }
}

/// Counting and solving agree: there are N-Queens placements to count exactly
/// when the N-Queens problem has a solution.
pub proof fn lemma_count_positive_iff_solvable(n: nat)
    requires
        n <= i64::MAX,
        n <= usize::MAX,
    ensures
        queen_completions(n as int, seq![]) > 0 <==> nqueens_view(n as int).solvable(),
{
    let e: Seq<i64> = seq![];
    lemma_completions_positive(n as int, e);
    if queen_completions(n as int, e) > 0 {
        let b = choose|b: Seq<i64>| #[trigger] completes(n as int, e, b);
        let m = Map::new(|i: usize| i < n, |i: usize| b[i as int]);
        assert(queens_placement(n as int, m)) by {
            assert forall|i: usize, j: usize| i < j < n implies #[trigger] m[i] != #[trigger] m[j] && abs_diff(
                m[i],
                m[j],
            ) != j - i by {
                assert(queen_safe(b, j as int, b[j as int]));
                assert(b[i as int] != b[j as int] && abs_diff(b[i as int], b[j as int]) != j - i);
            }
            assert forall|i: usize| i < n implies 1 <= #[trigger] m[i] <= n by {
                assert(1 <= b[i as int] <= n);
            }
        }
        lemma_nqueens_solutions(n, m);
        assert(nqueens_view(n as int).is_solution(m));
    }
    if nqueens_view(n as int).solvable() {
        let m = choose|m: Map<usize, i64>| nqueens_view(n as int).is_solution(m);
        lemma_nqueens_solutions(n, m);
        let b = Seq::new(n, |i: int| m[i as usize]);
        assert(completes(n as int, e, b)) by {
            assert(b.take(0) =~= e);
            assert forall|r: int| 0 <= r < n implies 1 <= #[trigger] b[r] <= n && queen_safe(b, r, b[r]) by {
                assert(1 <= m[r as usize] <= n);
                assert forall|q: int| 0 <= q < r implies #[trigger] b[q] != b[r] && abs_diff(b[q], b[r]) != r - q by {
                    assert(m[q as usize] != m[r as usize] && abs_diff(m[q as usize], m[r as usize]) != (r as usize) - (q as usize));
                }
            }
        }
    }
}


/// `b` places `n` queens, one per row, in columns `1..=n`, no two of them in
/// the same column or on the same diagonal.
pub open spec fn queens_board(n: int, b: Seq<i64>) -> bool {
    &&& b.len() == n
    &&& forall|i: int| 0 <= i < n ==> 1 <= #[trigger] b[i] <= n
    &&& forall|i: int, j: int|
        0 <= i < j < n ==> #[trigger] b[i] != #[trigger] b[j] && abs_diff(b[i], b[j]) != j - i
}

/// All non-attacking placements of `n` queens, as column sequences.
pub open spec fn queens_boards(n: int) -> Set<Seq<i64>> {
    Set::new(|b: Seq<i64>| queens_board(n, b))
}

spec fn completions_set(n: int, prefix: Seq<i64>) -> Set<Seq<i64>> {
    Set::new(|b: Seq<i64>| completes(n, prefix, b))
}

spec fn completions_set_upto(n: int, prefix: Seq<i64>, c: int) -> Set<Seq<i64>> {
    Set::new(|b: Seq<i64>| completes(n, prefix, b) && 1 <= b[prefix.len() as int] <= c)
}

/// `queen_completions` is the number of boards that complete the prefix.
proof fn lemma_completions_card(n: int, prefix: Seq<i64>)
    requires
        prefix.len() <= n,
        n <= i64::MAX,
    ensures
        completions_set(n, prefix).finite(),
        completions_set(n, prefix).len() == queen_completions(n, prefix),
    decreases n - prefix.len(), n + 1,
{
    let len = prefix.len() as int;
    if len >= n {
        assert(completions_set(n, prefix) =~= set![prefix]) by {
            assert forall|b: Seq<i64>| completes(n, prefix, b) implies b == prefix by {
                assert(b.take(len) =~= b);
            }
            assert(completes(n, prefix, prefix)) by {
                assert(prefix.take(len) =~= prefix);
            }
        }
    } else {
        lemma_completions_upto_card(n, prefix, n);
        assert(completions_set(n, prefix) =~= completions_set_upto(n, prefix, n));
    }
}

/// `queen_completions_upto` is the number of completing boards whose next
/// row takes a column in `1..=c`.
proof fn lemma_completions_upto_card(n: int, prefix: Seq<i64>, c: int)
    requires
        prefix.len() < n,
        0 <= c <= n,
        n <= i64::MAX,
    ensures
        completions_set_upto(n, prefix, c).finite(),
        completions_set_upto(n, prefix, c).len() == queen_completions_upto(n, prefix, c),
    decreases n - prefix.len(), c,
{
    let len = prefix.len() as int;
    if c == 0 {
        assert(completions_set_upto(n, prefix, 0) =~= Set::<Seq<i64>>::empty());
    } else {
        lemma_completions_upto_card(n, prefix, c - 1);
        let lower = completions_set_upto(n, prefix, c - 1);
        let p2 = prefix.push(c as i64);
        let safe = queen_safe(prefix, len, c as i64);
        let top = if safe {
            completions_set(n, p2)
        } else {
            Set::<Seq<i64>>::empty()
        };
        if safe {
            lemma_completions_card(n, p2);
        }
        assert(completions_set_upto(n, prefix, c) =~= lower + top) by {
            assert forall|b: Seq<i64>| #[trigger]
                completions_set_upto(n, prefix, c).contains(b) implies (lower + top).contains(b) by {
                if b[len] == c {
                    assert forall|r: int| 0 <= r < len implies prefix[r] == b[r] by {
                        assert(b.take(len)[r] == b[r]);
                    }
                    lemma_queen_safe_prefix(prefix, b, len, c as i64);
                    assert(b.take(len + 1) =~= p2) by {
                        assert forall|r: int| 0 <= r < len + 1 implies b.take(len + 1)[r] == p2[r] by {
                            if r < len {
                                assert(b.take(len)[r] == b[r]);
                            }
                        }
                    }
                    assert(completes(n, p2, b));
                }
            }
            assert forall|b: Seq<i64>| #[trigger]
                (lower + top).contains(b) implies completions_set_upto(n, prefix, c).contains(b) by {
                if top.contains(b) {
                    assert(completes(n, p2, b));
                    assert(b.take(len) =~= prefix) by {
                        assert forall|r: int| 0 <= r < len implies b.take(len)[r] == prefix[r] by {
                            assert(b.take(len + 1)[r] == p2[r]);
                        }
                    }
                    assert(b[len] == c) by {
                        assert(b.take(len + 1)[len] == p2[len]);
                    }
                    lemma_queen_safe_prefix(prefix, b, len, c as i64);
                    assert(completes(n, prefix, b));
                }
            }
        }
        assert(lower.disjoint(top)) by {
            assert forall|b: Seq<i64>| #[trigger] top.contains(b) implies !lower.contains(b) by {
                assert(b.take(len + 1)[len] == p2[len]);
            }
        }
        vstd::set_lib::lemma_set_disjoint_lens(lower, top);
    }
}

/// Counting is exact: `queen_completions(n, [])` is the number of
/// non-attacking placements of `n` queens on an `n x n` board.
pub proof fn lemma_count_is_number_of_boards(n: nat)
    requires
        n <= i64::MAX,
    ensures
        queens_boards(n as int).finite(),
        queens_boards(n as int).len() == queen_completions(n as int, seq![]),
{
    let e: Seq<i64> = seq![];
    lemma_completions_card(n as int, e);
    assert(queens_boards(n as int) =~= completions_set(n as int, e)) by {
        assert forall|b: Seq<i64>| #[trigger] queens_boards(n as int).contains(b) implies completes(n as int, e, b) by {
            assert(b.take(0) =~= e);
            assert forall|r: int| 0 <= r < n implies 1 <= #[trigger] b[r] <= n && queen_safe(b, r, b[r]) by {
                assert forall|q: int| 0 <= q < r implies #[trigger] b[q] != b[r] && abs_diff(b[q], b[r]) != r - q by {
                    assert(b[q] != b[r] && abs_diff(b[q], b[r]) != r - q);
                }
            }
        }
        assert forall|b: Seq<i64>| #[trigger] completions_set(n as int, e).contains(b) implies queens_board(n as int, b) by {
            assert forall|i: int, j: int| 0 <= i < j < n implies #[trigger] b[i] != #[trigger] b[j] && abs_diff(
                b[i],
                b[j],
            ) != j - i by {
                assert(queen_safe(b, j, b[j]));
                assert(b[i] != b[j] && abs_diff(b[i], b[j]) != j - i);
            }
        }
    }
}

/// Each row below the prefix has at most `n` columns to choose from.
proof fn lemma_completions_bound(n: int, prefix: Seq<i64>)
    requires
        n <= i64::MAX,
        prefix.len() <= n,
    ensures
        queen_completions(n, prefix) <= pow(n, (n - prefix.len()) as nat),
    decreases n - prefix.len(), n + 1,
{
    reveal(pow);
    if prefix.len() < n {
        lemma_completions_upto_bound(n, prefix, n);
        let e = (n - prefix.len() - 1) as nat;
        assert(pow(n, (e + 1) as nat) == n * pow(n, e));
    }
}

proof fn lemma_completions_upto_bound(n: int, prefix: Seq<i64>, c: int)
    requires
        n <= i64::MAX,
        prefix.len() < n,
        0 <= c <= n,
    ensures
        queen_completions_upto(n, prefix, c) <= c * pow(n, (n - prefix.len() - 1) as nat),
    decreases n - prefix.len(), c,
{
    let e = (n - prefix.len() - 1) as nat;
    let big = pow(n, e);
    if c > 0 {
        lemma_completions_upto_bound(n, prefix, c - 1);
        let p2 = prefix.push(c as i64);
        lemma_completions_bound(n, p2);
        assert((n - p2.len()) as nat == e);
        assert(queen_completions(n, p2) <= big);
        assert(queen_completions_upto(n, prefix, c - 1) <= (c - 1) * big);
        assert((c - 1) * big + big == c * big) by (nonlinear_arith);
    } else {
        assert(c * big == 0) by (nonlinear_arith)
            requires
                c == 0,
        ;
    }
}

/// The number of N-Queens placements fits in a `u64` for boards up to
/// `15 x 15` (it is at most `n^n`), so `count_nqueens` may be called there.
pub proof fn lemma_count_fits_u64(n: nat)
    requires
        n <= 15,
    ensures
        queens_boards(n as int).len() <= u64::MAX,
{
    lemma_count_is_number_of_boards(n);
    lemma_completions_bound(n as int, seq![]);
    lemma_pow_base_mono(n as int, 15, n);
    lemma_pow_increases(15, n, 15);
    assert(pow(15, 15) == 437893890380859375) by {
        reveal_with_fuel(pow, 16);
    }
}

/// A larger base gives a larger power.
proof fn lemma_pow_base_mono(a: int, b: int, e: nat)
    requires
        0 <= a <= b,
    ensures
        0 <= pow(a, e) <= pow(b, e),
    decreases e,
{
    reveal(pow);
    if e > 0 {
        lemma_pow_base_mono(a, b, (e - 1) as nat);
        let pa = pow(a, (e - 1) as nat);
        let pb = pow(b, (e - 1) as nat);
        assert(0 <= a * pa <= b * pb) by (nonlinear_arith)
            requires
                0 <= a <= b,
                0 <= pa <= pb,
        ;
    }
}

} // verus!
