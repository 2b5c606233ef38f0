//! Finite-domain constraint satisfaction problems: variables, constraints,
//! consistency checks and solver configuration.
use vstd::prelude::*;
use std::collections::HashMap;
use std::time::Duration;
use crate::clock::{duration_text, zero_duration};
use crate::text::{decimal_digits, label, push_text};

verus! {

broadcast use vstd::std_specs::hash::group_hash_axioms;

// ---------------------------------------------------------------------------
// Variables
// ---------------------------------------------------------------------------

/// The integers `lo, lo + 1, ..., hi - 1` (empty when `hi <= lo`).
pub open spec fn int_seq(lo: int, hi: int) -> Seq<i64> {
    Seq::new(if hi > lo { (hi - lo) as nat } else { 0 }, |k: int| (lo + k) as i64)
}

/// Mathematical content of a variable.
pub struct VariableView {
    pub name: Seq<char>,
    pub domain: Seq<i64>,
}

/// A named variable with a finite integer domain.
#[derive(Clone, Debug)]
pub struct Variable {
    pub name: String,
    pub domain: Vec<i64>,
}

impl View for Variable {
    type V = VariableView;

    open spec fn view(&self) -> VariableView {
        VariableView { name: self.name@, domain: self.domain@ }
    }
}

impl Variable {
    /// A variable with the given name and domain.
    pub fn new(name: &str, domain: Vec<i64>) -> (v: Self)
        ensures
            v@.name == name@,
            v@.domain == domain@,
    {
        Variable { name: name.to_owned(), domain }
    }

    /// A variable whose domain is `lo..=hi` in increasing order (empty when `hi < lo`).
    pub fn range(name: &str, lo: i64, hi: i64) -> (v: Self)
        ensures
            v@.name == name@,
            v@.domain == int_seq(lo as int, hi + 1),
    {
        let mut domain: Vec<i64> = Vec::new();
        if lo <= hi {
            let mut x: i64 = lo;
            loop
                invariant_except_break
                    lo <= x <= hi,
                    domain@ == int_seq(lo as int, x as int),
                ensures
                    domain@ == int_seq(lo as int, hi + 1),
                decreases hi - x,
            {
                domain.push(x);
                assert(domain@ =~= int_seq(lo as int, x + 1));
                if x == hi {
                    break;
                }
                x = x + 1;
            }
        } else {
            assert(domain@ =~= int_seq(lo as int, hi + 1));
        }
        Variable { name: name.to_owned(), domain }
    }
}


// ---------------------------------------------------------------------------
// Predicates
// ---------------------------------------------------------------------------

/// A predicate on one value: comparison with a constant, or no restriction.
#[derive(Clone, Copy, Debug, PartialEq, Eq)]
pub enum UnaryCheck {
    /// Every value passes.
    Any,
    /// `x == c`
    Eq(i64),
    /// `x != c`
    Ne(i64),
    /// `x < c`
    Lt(i64),
    /// `x <= c`
    Le(i64),
    /// `x > c`
    Gt(i64),
    /// `x >= c`
    Ge(i64),
}

impl UnaryCheck {
    /// Whether `x` passes the predicate.
    pub open spec fn holds(self, x: i64) -> bool {
        match self {
            UnaryCheck::Any => true,
            UnaryCheck::Eq(c) => x == c,
            UnaryCheck::Ne(c) => x != c,
            UnaryCheck::Lt(c) => x < c,
            UnaryCheck::Le(c) => x <= c,
            UnaryCheck::Gt(c) => x > c,
            UnaryCheck::Ge(c) => x >= c,
        }
    }

    /// Evaluates the predicate on `x`.
    pub fn check(&self, x: i64) -> (r: bool)
        ensures
            r == self.holds(x),
    {
        match *self {
            UnaryCheck::Any => true,
            UnaryCheck::Eq(c) => x == c,
            UnaryCheck::Ne(c) => x != c,
            UnaryCheck::Lt(c) => x < c,
            UnaryCheck::Le(c) => x <= c,
            UnaryCheck::Gt(c) => x > c,
            UnaryCheck::Ge(c) => x >= c,
        }
    }
}

/// A relation between two values.
#[derive(Clone, Copy, Debug, PartialEq, Eq)]
pub enum BinaryCheck {
    /// `x != y`
    Neq,
    /// `x == y`
    Eq,
    /// `x < y`
    Lt,
}

impl BinaryCheck {
    /// Whether `(x, y)` is in the relation.
    pub open spec fn holds(self, x: i64, y: i64) -> bool {
        match self {
            BinaryCheck::Neq => x != y,
            BinaryCheck::Eq => x == y,
            BinaryCheck::Lt => x < y,
        }
    }

    /// Whether the relation does not depend on the order of its arguments.
    pub open spec fn is_symmetric(self) -> bool {
        self is Neq || self is Eq
    }

    /// Evaluates the relation on `(x, y)`.
    pub fn check(&self, x: i64, y: i64) -> (r: bool)
        ensures
            r == self.holds(x, y),
    {
        match *self {
            BinaryCheck::Neq => neq_fn(x, y),
            BinaryCheck::Eq => eq_fn(x, y),
            BinaryCheck::Lt => lt_fn(x, y),
        }
    }
}

/// Sum of a sequence of integers.
pub open spec fn seq_sum(s: Seq<i64>) -> int
    decreases s.len(),
{
    if s.len() == 0 {
        0
    } else {
        seq_sum(s.drop_last()) + s.last()
    }
}

/// No two positions attack each other diagonally: `|v[i] - v[j]| != j - i`
/// for all `i < j`.
pub open spec fn queens_diagonals_free(vals: Seq<i64>) -> bool {
    forall|i: int, j: int|
        0 <= i < j < vals.len() ==> #[trigger] abs_diff(vals[i], vals[j]) != j - i
}

/// `|x - y|` over the integers.
pub open spec fn abs_diff(x: i64, y: i64) -> int {
    if x >= y {
        x - y
    } else {
        y - x
    }
}

/// A predicate on the values of several variables, in the order the
/// constraint lists them.
#[derive(Clone, Copy, Debug, PartialEq, Eq)]
pub enum NaryCheck {
    /// Every tuple passes.
    Any,
    /// Values are queen columns of consecutive rows; no two share a diagonal.
    QueensDiagonals,
    /// The values sum to an even number.
    SumEven,
    /// The first two values are the columns of two queens whose rows are the
    /// given distance apart: they do not share a diagonal, so the columns
    /// differ by some other amount. Tuples of fewer than two values pass.
    QueenDiagonal(usize),
}

impl NaryCheck {
    /// Whether the tuple `vals` passes the predicate.
    pub open spec fn holds(self, vals: Seq<i64>) -> bool {
        match self {
            NaryCheck::Any => true,
            NaryCheck::QueensDiagonals => queens_diagonals_free(vals),
            NaryCheck::SumEven => seq_sum(vals) % 2 == 0,
            NaryCheck::QueenDiagonal(d) => vals.len() < 2 || abs_diff(vals[0], vals[1]) != d as int,
        }
    }

    /// Evaluates the predicate on `vals`.
    pub fn check(&self, vals: &[i64]) -> (r: bool)
        ensures
            r == self.holds(vals@),
    {
        match *self {
            NaryCheck::Any => queen_diag_fn(vals),
            NaryCheck::QueensDiagonals => crate::puzzle::nqueens_diag_check(vals),
            NaryCheck::SumEven => sum_is_even(vals),
            NaryCheck::QueenDiagonal(d) => off_diagonal(vals, d),
        }
    }
}

/// Whether the first two values, as columns of queens `d` rows apart, avoid
/// a shared diagonal (`true` for fewer than two values). The difference is
/// taken in `i128`, where it cannot overflow.
fn off_diagonal(vals: &[i64], d: usize) -> (r: bool)
    ensures
        r == (vals@.len() < 2 || abs_diff(vals@[0], vals@[1]) != d as int),
{
    if vals.len() < 2 {
        return true;
    }
    let x = vals[0] as i128;
    let y = vals[1] as i128;
    let diff: i128 = if x >= y {
        x - y
    } else {
        y - x
    };
    diff != d as i128
}

/// Whether `x` is odd.
fn is_odd(x: i64) -> (r: bool)
    ensures
        r == (x % 2 != 0),
{
    x % 2 != 0
}

/// Whether the values of `vals` sum to an even number (computed by parity,
/// so no intermediate sum can overflow).
fn sum_is_even(vals: &[i64]) -> (r: bool)
    ensures
        r == (seq_sum(vals@) % 2 == 0),
{
    let mut odd = false;
    let n = vals.len();
    let mut i: usize = 0;
    while i < n
        invariant
            n == vals@.len(),
            i <= n,
            odd == (seq_sum(vals@.take(i as int)) % 2 != 0),
        decreases n - i,
    {
        assert(vals@.take(i + 1).drop_last() =~= vals@.take(i as int));
        if is_odd(vals[i]) {
            odd = !odd;
        }
        i = i + 1;
    }
    assert(vals@.take(n as int) =~= vals@);
    !odd
}

/// `x != y`.
pub fn neq_fn(x: i64, y: i64) -> (r: bool)
    ensures
        r == (x != y),
{
    x != y
}

/// `x == y`.
pub fn eq_fn(x: i64, y: i64) -> (r: bool)
    ensures
        r == (x == y),
{
    x == y
}

/// `x < y`.
pub fn lt_fn(x: i64, y: i64) -> (r: bool)
    ensures
        r == (x < y),
{
    x < y
}

/// A queen-diagonal predicate over values alone: without the rows it cannot
/// tell a diagonal, and accepts every tuple. [`ConstraintProblem::queen_diag`]
/// builds its constraints with [`NaryCheck::QueenDiagonal`], which carries the
/// row distance.
pub fn queen_diag_fn(vals: &[i64]) -> (r: bool)
    ensures
        r,
{
    true
}


// ---------------------------------------------------------------------------
// Constraints
// ---------------------------------------------------------------------------

/// Mathematical content of a constraint.
pub enum ConstraintView {
    Unary { var: usize, check: UnaryCheck, desc: &'static str },
    Binary { a: usize, b: usize, check: BinaryCheck, desc: &'static str },
    Nary { vars: Seq<usize>, check: NaryCheck, desc: &'static str },
}

/// The values that `m` gives to `vars`, in order.
pub open spec fn values_of(vars: Seq<usize>, m: Map<usize, i64>) -> Seq<i64> {
    vars.map_values(|v: usize| m[v])
}

impl ConstraintView {
    /// The variables the constraint refers to, in order.
    pub open spec fn vars(self) -> Seq<usize> {
        match self {
            ConstraintView::Unary { var, .. } => seq![var],
            ConstraintView::Binary { a, b, .. } => seq![a, b],
            ConstraintView::Nary { vars, .. } => vars,
        }
    }

    /// Every variable of the constraint has a value in `m`.
    pub open spec fn covered_by(self, m: Map<usize, i64>) -> bool {
        forall|t: int| 0 <= t < self.vars().len() ==> m.contains_key(#[trigger] self.vars()[t])
    }

    /// The constraint holds under `m` (meaningful when `m` covers it).
    pub open spec fn holds_in(self, m: Map<usize, i64>) -> bool {
        match self {
            ConstraintView::Unary { var, check, .. } => check.holds(m[var]),
            ConstraintView::Binary { a, b, check, .. } => check.holds(m[a], m[b]),
            ConstraintView::Nary { vars, check, .. } => check.holds(values_of(vars, m)),
        }
    }

    /// The constraint is not violated by the partial assignment `m`: it holds
    /// or some of its variables have no value yet.
    pub open spec fn partially_holds(self, m: Map<usize, i64>) -> bool {
        self.covered_by(m) ==> self.holds_in(m)
    }

    /// The constraint is binary and relates `x` and `y`, in either orientation.
    pub open spec fn is_binary_between(self, x: usize, y: usize) -> bool {
        match self {
            ConstraintView::Binary { a, b, .. } => (a == x && b == y) || (a == y && b == x),
            _ => false,
        }
    }
}

/// A constraint predicate over problem variables (given by index).
#[derive(Clone, Debug)]
pub enum Constraint {
    Unary { var: usize, check: UnaryCheck, desc: &'static str },
    Binary { a: usize, b: usize, check: BinaryCheck, desc: &'static str },
    Nary { vars: Vec<usize>, check: NaryCheck, desc: &'static str },
}

impl View for Constraint {
    type V = ConstraintView;

    open spec fn view(&self) -> ConstraintView {
        match self {
            Constraint::Unary { var, check, desc } => ConstraintView::Unary {
                var: *var,
                check: *check,
                desc: *desc,
            },
            Constraint::Binary { a, b, check, desc } => ConstraintView::Binary {
                a: *a,
                b: *b,
                check: *check,
                desc: *desc,
            },
            Constraint::Nary { vars, check, desc } => ConstraintView::Nary {
                vars: vars@,
                check: *check,
                desc: *desc,
            },
        }
    }
}

impl Constraint {
    /// All variable indices referenced, in order.
    pub fn vars(&self) -> (r: Vec<usize>)
        ensures
            r@ == self@.vars(),
    {
        match self {
            Constraint::Unary { var, .. } => vec![*var],
            Constraint::Binary { a, b, .. } => vec![*a, *b],
            Constraint::Nary { vars, .. } => {
                let mut r: Vec<usize> = Vec::new();
                let mut i: usize = 0;
                while i < vars.len()
                    invariant
                        i <= vars@.len(),
                        r@ == vars@.take(i as int),
                    decreases vars@.len() - i,
                {
                    r.push(vars[i]);
                    assert(r@ =~= vars@.take(i + 1));
                    i = i + 1;
                }
                assert(r@ =~= vars@);
                r
            },
        }
    }

    /// Whether the constraint involves the variable `idx`.
    pub fn involves(&self, idx: usize) -> (r: bool)
        ensures
            r == self@.vars().contains(idx),
    {
        let vs = self.vars();
        let mut i: usize = 0;
        while i < vs.len()
            invariant
                vs@ == self@.vars(),
                i <= vs@.len(),
                forall|t: int| 0 <= t < i ==> vs@[t] != idx,
            decreases vs@.len() - i,
        {
            if vs[i] == idx {
                assert(vs@[i as int] == idx);
                return true;
            }
            i = i + 1;
        }
        false
    }
}


// ---------------------------------------------------------------------------
// Problems
// ---------------------------------------------------------------------------

/// The map built from a list of `(variable, value)` pairs, later pairs
/// overriding earlier ones.
pub open spec fn assignment_map(a: Seq<(usize, i64)>) -> Map<usize, i64>
    decreases a.len(),
{
    if a.len() == 0 {
        Map::empty()
    } else {
        assignment_map(a.drop_last()).insert(a.last().0, a.last().1)
    }
}

/// Mathematical content of a constraint problem.
pub struct ProblemView {
    pub variables: Seq<VariableView>,
    pub constraints: Seq<ConstraintView>,
}

impl ProblemView {
    /// Number of variables.
    pub open spec fn n(self) -> int {
        self.variables.len() as int
    }

    /// The domains of the variables, by index.
    pub open spec fn domains(self) -> Seq<Seq<i64>> {
        self.variables.map_values(|v: VariableView| v.domain)
    }

    /// Every variable index mentioned by a constraint is a variable of the problem.
    pub open spec fn well_formed(self) -> bool {
        forall|k: int, t: int|
            0 <= k < self.constraints.len() && 0 <= t < self.constraints[k].vars().len()
                ==> #[trigger] self.constraints[k].vars()[t] < self.n()
    }

    /// Every variable mentioned by a constraint has a non-empty domain.
    pub open spec fn referenced_nonempty(self) -> bool {
        forall|k: int, t: int|
            0 <= k < self.constraints.len() && 0 <= t < self.constraints[k].vars().len()
                ==> self.variables[#[trigger] self.constraints[k].vars()[t] as int].domain.len() > 0
    }

    /// Every constraint holds under `m` (which should cover all of them).
    pub open spec fn satisfied_by(self, m: Map<usize, i64>) -> bool {
        forall|k: int| 0 <= k < self.constraints.len() ==> #[trigger] self.constraints[k].holds_in(m)
    }

    /// No constraint is violated by the partial assignment `m`.
    pub open spec fn consistent_with(self, m: Map<usize, i64>) -> bool {
        forall|k: int|
            0 <= k < self.constraints.len() ==> #[trigger] self.constraints[k].partially_holds(m)
    }

    /// `m` gives every variable with a non-empty domain in `d` a value from that
    /// domain, gives no other variable a value, and satisfies every constraint.
    pub open spec fn solution_within(self, d: Seq<Seq<i64>>, m: Map<usize, i64>) -> bool {
        &&& forall|i: usize| #[trigger] m.contains_key(i) <==> (i < d.len() && d[i as int].len() > 0)
        &&& forall|i: usize| #[trigger] m.contains_key(i) ==> d[i as int].contains(m[i])
        &&& self.satisfied_by(m)
    }

    /// `m` is a solution of the problem with its own domains.
    pub open spec fn is_solution(self, m: Map<usize, i64>) -> bool {
        self.solution_within(self.domains(), m)
    }

    /// The problem has a solution.
    pub open spec fn solvable(self) -> bool {
        exists|m: Map<usize, i64>| self.is_solution(m)
    }

    /// Every variable has a non-empty domain.
    pub open spec fn all_domains_nonempty(self) -> bool {
        forall|i: int| 0 <= i < self.n() ==> #[trigger] self.variables[i].domain.len() > 0
    }
}

/// Whatever satisfies every constraint is also consistent as a partial
/// assignment: a full solution violates no constraint.
pub proof fn lemma_satisfied_is_consistent(p: ProblemView, m: Map<usize, i64>)
    requires
        p.satisfied_by(m),
    ensures
        p.consistent_with(m),
{
    assert forall|k: int| 0 <= k < p.constraints.len() implies #[trigger] p.constraints[k].partially_holds(m) by {
        assert(p.constraints[k].holds_in(m));
    }
}

/// A constraint satisfaction problem.
#[derive(Clone)]
pub struct ConstraintProblem {
    pub variables: Vec<Variable>,
    pub constraints: Vec<Constraint>,
}

impl View for ConstraintProblem {
    type V = ProblemView;

    open spec fn view(&self) -> ProblemView {
        ProblemView {
            variables: self.variables@.map_values(|v: Variable| v@),
            constraints: self.constraints@.map_values(|c: Constraint| c@),
        }
    }
}

impl ConstraintProblem {
    /// A problem over `variables` (indexed by position) with `constraints`.
    pub fn new(variables: Vec<Variable>, constraints: Vec<Constraint>) -> (p: Self)
        ensures
            p.variables@ == variables@,
            p.constraints@ == constraints@,
    {
        ConstraintProblem { variables, constraints }
    }

    /// Index of the variable named `name`; when several share the name, the
    /// last one.
    pub fn var_index(&self, name: &str) -> (r: Option<usize>)
        ensures
            match r {
                Some(i) => {
                    &&& i < self@.n()
                    &&& self@.variables[i as int].name == name@
                    &&& forall|j: int| i < j < self@.n() ==> self@.variables[j].name != name@
                },
                None => forall|j: int| 0 <= j < self@.n() ==> self@.variables[j].name != name@,
            },
    {
        let target = name.to_owned();
        let mut i: usize = self.variables.len();
        while i > 0
            invariant
                i <= self.variables@.len(),
                target@ == name@,
                forall|j: int| i <= j < self@.n() ==> self@.variables[j].name != name@,
            decreases i,
        {
            i = i - 1;
            if self.variables[i].name == target {
                return Some(i);
            }
        }
        None
    }

    /// Whether the partial assignment (later pairs overriding earlier ones)
    /// violates no constraint whose variables it all assigns.
    pub fn is_consistent(&self, assignment: &[(usize, i64)]) -> (r: bool)
        ensures
            r == self@.consistent_with(assignment_map(assignment@)),
    {
        let mut map: HashMap<usize, i64> = HashMap::new();
        let mut i: usize = 0;
        while i < assignment.len()
            invariant
                i <= assignment@.len(),
                map@ == assignment_map(assignment@.take(i as int)),
            decreases assignment@.len() - i,
        {
            let (v, x) = assignment[i];
            map.insert(v, x);
            assert(assignment@.take(i + 1).drop_last() =~= assignment@.take(i as int));
            i = i + 1;
        }
        assert(assignment@.take(i as int) =~= assignment@);
        let ghost m = map@;
        assert(m == assignment_map(assignment@));
        let mut k: usize = 0;
        while k < self.constraints.len()
            invariant
                k <= self.constraints@.len(),
                map@ == m,
                m == assignment_map(assignment@),
                forall|j: int| 0 <= j < k ==> #[trigger] self@.constraints[j].partially_holds(m),
            decreases self.constraints@.len() - k,
        {
            if !constraint_partially_holds(&self.constraints[k], &map) {
                assert(self@.constraints[k as int] == self.constraints@[k as int]@);
                assert(!self@.constraints[k as int].partially_holds(assignment_map(assignment@)));
                return false;
            }
            assert(self@.constraints[k as int] == self.constraints@[k as int]@);
            k = k + 1;
        }
        true
    }

    /// Whether the assignment satisfies every constraint.
    pub fn is_satisfied(&self, assignment: &HashMap<usize, i64>) -> (r: bool)
        requires
            forall|k: int|
                0 <= k < self@.constraints.len() ==> #[trigger] self@.constraints[k].covered_by(
                    assignment@,
                ),
        ensures
            r == self@.satisfied_by(assignment@),
    {
        let mut k: usize = 0;
        while k < self.constraints.len()
            invariant
                k <= self.constraints@.len(),
                forall|j: int|
                    0 <= j < self@.constraints.len() ==> #[trigger] self@.constraints[j].covered_by(
                        assignment@,
                    ),
                forall|j: int| 0 <= j < k ==> #[trigger] self@.constraints[j].holds_in(assignment@),
            decreases self.constraints@.len() - k,
        {
            assert(self@.constraints[k as int].covered_by(assignment@));
            let ok = constraint_partially_holds(&self.constraints[k], assignment);
            assert(self@.constraints[k as int] == self.constraints@[k as int]@);
            if !ok {
                return false;
            }
            k = k + 1;
        }
        true
    }

    /// Number of variables.
    pub fn var_count(&self) -> (r: usize)
        ensures
            r == self@.n(),
    {
        self.variables.len()
    }

    /// Size of the domain of variable `var`.
    pub fn domain_size(&self, var: usize) -> (r: usize)
        requires
            var < self@.n(),
        ensures
            r == self@.variables[var as int].domain.len(),
    {
        self.variables[var].domain.len()
    }

    /// The domain of variable `var`.
    pub fn domain_values(&self, var: usize) -> (r: &[i64])
        requires
            var < self@.n(),
        ensures
            r@ == self@.variables[var as int].domain,
    {
        self.variables[var].domain.as_slice()
    }
}

/// Whether `c` is not violated by the partial assignment `m`.
fn constraint_partially_holds(c: &Constraint, m: &HashMap<usize, i64>) -> (r: bool)
    ensures
        r == c@.partially_holds(m@),
{
    match c {
        Constraint::Unary { var, check, .. } => {
            assert(c@.vars() =~= seq![*var]);
            match m.get(var) {
                Some(x) => check.check(*x),
                None => {
                    assert(!c@.covered_by(m@)) by {
                        assert(c@.vars()[0] == *var);
                    }
                    true
                },
            }
        },
        Constraint::Binary { a, b, check, .. } => {
            assert(c@.vars() =~= seq![*a, *b]);
            match (m.get(a), m.get(b)) {
                (Some(x), Some(y)) => check.check(*x, *y),
                _ => {
                    assert(!c@.covered_by(m@)) by {
                        assert(c@.vars()[0] == *a);
                        assert(c@.vars()[1] == *b);
                    }
                    true
                },
            }
        },
        Constraint::Nary { vars, check, .. } => {
            let mut vals: Vec<i64> = Vec::new();
            let mut i: usize = 0;
            while i < vars.len()
                invariant
                    i <= vars@.len(),
                    vals@.len() <= i,
                    vals@.len() == i <==> (forall|t: int|
                        0 <= t < i ==> m@.contains_key(#[trigger] vars@[t])),
                    vals@.len() == i ==> vals@ == values_of(vars@.take(i as int), m@),
                decreases vars@.len() - i,
            {
                match m.get(&vars[i]) {
                    Some(x) => {
                        vals.push(*x);
                    },
                    None => {},
                }
                assert(vals@.len() == i + 1 ==> vals@ =~= values_of(vars@.take(i + 1), m@));
                i = i + 1;
            }
            assert(vars@.take(i as int) =~= vars@);
            if vals.len() == vars.len() {
                assert(c@.vars() == vars@);
                check.check(vals.as_slice())
            } else {
                assert(!c@.covered_by(m@)) by {
                    let t = choose|t: int| 0 <= t < vars@.len() && !m@.contains_key(#[trigger] vars@[t]);
                    assert(c@.vars()[t] == vars@[t]);
                }
                true
            }
        },
    }
}


/// Views of a sequence of constraints.
pub open spec fn views(cs: Seq<Constraint>) -> Seq<ConstraintView> {
    cs.map_values(|c: Constraint| c@)
}

/// The pairwise `!=` constraints between `vars[i]` and each later `vars[j]`.
pub open spec fn neq_pairs_from(vars: Seq<usize>, i: int) -> Seq<ConstraintView> {
    Seq::new(
        (vars.len() - i - 1) as nat,
        |k: int|
            ConstraintView::Binary {
                a: vars[i],
                b: vars[i + 1 + k],
                check: BinaryCheck::Neq,
                desc: "alldiff",
            },
    )
}

/// The pairwise `!=` constraints whose first variable is among the first `i` of `vars`.
pub open spec fn all_diff_prefix(vars: Seq<usize>, i: nat) -> Seq<ConstraintView>
    decreases i,
{
    if i == 0 {
        Seq::empty()
    } else {
        all_diff_prefix(vars, (i - 1) as nat) + neq_pairs_from(vars, i - 1)
    }
}

/// All-different over `vars`: one `!=` constraint `(vars[i], vars[j])` for
/// each `i < j`, ordered by `i` then `j`.
pub open spec fn all_diff_spec(vars: Seq<usize>) -> Seq<ConstraintView> {
    all_diff_prefix(vars, vars.len())
}

/// The diagonal constraints `(i, j)` for one row `i` and each later row `j < n`.
pub open spec fn queen_pairs_from(n: int, i: int) -> Seq<ConstraintView> {
    Seq::new(
        (n - i - 1) as nat,
        |k: int|
            ConstraintView::Nary {
                vars: seq![i as usize, (i + 1 + k) as usize],
                check: NaryCheck::QueenDiagonal((k + 1) as usize),
                desc: "qdiag",
            },
    )
}

/// The diagonal constraints whose first row is among the first `i` rows.
pub open spec fn queen_diag_prefix(n: int, i: nat) -> Seq<ConstraintView>
    decreases i,
{
    if i == 0 {
        Seq::empty()
    } else {
        queen_diag_prefix(n, (i - 1) as nat) + queen_pairs_from(n, i - 1)
    }
}

impl ConstraintProblem {
    /// The constraints that involve variable `var`, in order.
    pub fn constraints_involving(&self, var: usize) -> (r: Vec<&Constraint>)
        ensures
            r@.map_values(|c: &Constraint| c@) == self@.constraints.filter(
                |c: ConstraintView| c.vars().contains(var),
            ),
    {
        let mut r: Vec<&Constraint> = Vec::new();
        let mut k: usize = 0;
        while k < self.constraints.len()
            invariant
                k <= self.constraints@.len(),
                r@.map_values(|c: &Constraint| c@) == self@.constraints.take(k as int).filter(|c: ConstraintView| c.vars().contains(var)),
            decreases self.constraints@.len() - k,
        {
            proof {
                reveal_with_fuel(Seq::filter, 1);
            }
            let c = &self.constraints[k];
            let inv = c.involves(var);
            let ghost prev = r@.map_values(|c: &Constraint| c@);
            let ghost pre = self@.constraints.take(k as int);
            let ghost cur = self@.constraints.take(k + 1);
            assert(cur.drop_last() =~= pre);
            assert(cur.last() == c@);
            assert(cur.filter(|c: ConstraintView| c.vars().contains(var)) == if c@.vars().contains(var) { pre.filter(|c: ConstraintView| c.vars().contains(var)).push(c@) } else { pre.filter(|c: ConstraintView| c.vars().contains(var)) });
            if inv {
                r.push(c);
                assert(r@.map_values(|c: &Constraint| c@) =~= prev.push(c@));
            }
            assert(inv == c@.vars().contains(var));
            assert(r@.map_values(|c: &Constraint| c@) == cur.filter(|c: ConstraintView| c.vars().contains(var)));
            k = k + 1;
        }
        assert(self@.constraints.take(k as int) =~= self@.constraints);
        r
    }

    /// All-different over `vars`: a `!=` constraint (described `"alldiff"`) for
    /// every pair `i < j`, ordered by `i` then `j`.
    pub fn all_diff(vars: &[usize]) -> (r: Vec<Constraint>)
        ensures
            views(r@) == all_diff_spec(vars@),
    {
        let mut cs: Vec<Constraint> = Vec::new();
        let n = vars.len();
        let mut i: usize = 0;
        while i < n
            invariant
                n == vars@.len(),
                i <= n,
                views(cs@) == all_diff_prefix(vars@, i as nat),
            decreases n - i,
        {
            let mut j: usize = i + 1;
            while j < n
                invariant
                    n == vars@.len(),
                    i < n,
                    i + 1 <= j <= n,
                    views(cs@) == all_diff_prefix(vars@, i as nat) + neq_pairs_from(vars@, i as int).take(
                        j - i - 1,
                    ),
                decreases n - j,
            {
                let ai = vars[i];
                let aj = vars[j];
                let ghost prev = views(cs@);
                cs.push(Constraint::Binary { a: ai, b: aj, check: BinaryCheck::Neq, desc: "alldiff" });
                assert(views(cs@) =~= prev.push(neq_pairs_from(vars@, i as int)[j - i - 1]));
                assert(views(cs@) =~= all_diff_prefix(vars@, i as nat) + neq_pairs_from(vars@, i as int).take(
                    j + 1 - i - 1,
                ));
                j = j + 1;
            }
            assert(neq_pairs_from(vars@, i as int).take(n - i - 1) =~= neq_pairs_from(vars@, i as int));
            i = i + 1;
        }
        cs
    }

    /// Pairwise diagonal constraints for N-Queens rows `0..n`: one `Nary`
    /// constraint `[i, j]` (described `"qdiag"`) for each `i < j`, carrying
    /// the row distance `j - i`, so that it holds exactly when the queens of
    /// rows `i` and `j` do not share a diagonal: `|q[i] - q[j]| != j - i`.
    pub fn queen_diag(n: usize) -> (r: Vec<Constraint>)
        ensures
            views(r@) == queen_diag_prefix(n as int, n as nat),
    {
        let mut cs: Vec<Constraint> = Vec::new();
        let mut i: usize = 0;
        while i < n
            invariant
                i <= n,
                views(cs@) == queen_diag_prefix(n as int, i as nat),
            decreases n - i,
        {
            let mut j: usize = i + 1;
            while j < n
                invariant
                    i < n,
                    i + 1 <= j <= n,
                    views(cs@) == queen_diag_prefix(n as int, i as nat) + queen_pairs_from(n as int, i as int).take(
                        j - i - 1,
                    ),
                decreases n - j,
            {
                let vars = vec![i, j];
                let ghost prev = views(cs@);
                cs.push(Constraint::Nary { vars, check: NaryCheck::QueenDiagonal(j - i), desc: "qdiag" });
                assert(vars@ =~= seq![i, j]);
                assert(views(cs@) =~= prev.push(queen_pairs_from(n as int, i as int)[j - i - 1]));
                assert(views(cs@) =~= queen_diag_prefix(n as int, i as nat) + queen_pairs_from(n as int, i as int).take(
                    j + 1 - i - 1,
                ));
                j = j + 1;
            }
            assert(queen_pairs_from(n as int, i as int).take(n - i - 1) =~= queen_pairs_from(n as int, i as int));
            i = i + 1;
        }
        cs
    }
}

/// The binary constraint `a != b`.
pub fn neq(a: usize, b: usize) -> (c: Constraint)
    ensures
        c@ == (ConstraintView::Binary { a, b, check: BinaryCheck::Neq, desc: "!=" }),
{
    Constraint::Binary { a, b, check: BinaryCheck::Neq, desc: "!=" }
}

/// The binary constraint `a == b`.
pub fn eq(a: usize, b: usize) -> (c: Constraint)
    ensures
        c@ == (ConstraintView::Binary { a, b, check: BinaryCheck::Eq, desc: "==" }),
{
    Constraint::Binary { a, b, check: BinaryCheck::Eq, desc: "==" }
}

/// The binary constraint `a < b`.
pub fn lt(a: usize, b: usize) -> (c: Constraint)
    ensures
        c@ == (ConstraintView::Binary { a, b, check: BinaryCheck::Lt, desc: "<" }),
{
    Constraint::Binary { a, b, check: BinaryCheck::Lt, desc: "<" }
}

// ---------------------------------------------------------------------------
// Solver configuration and statistics
// ---------------------------------------------------------------------------

/// Solver configuration: heuristic flags.
#[derive(Clone, Debug)]
pub struct SolverConfig {
    pub use_mrv: bool,
    pub use_lcv: bool,
    pub use_forward_checking: bool,
    pub use_ac3: bool,
}

impl Default for SolverConfig {
    /// MRV, forward checking and AC-3 on; LCV off.
    fn default() -> (c: Self)
        ensures
            c.use_mrv && !c.use_lcv && c.use_forward_checking && c.use_ac3,
    {
        SolverConfig { use_mrv: true, use_lcv: false, use_forward_checking: true, use_ac3: true }
    }
}

/// Statistics collected during search.
#[derive(Clone, Copy, Debug)]
pub struct SolverStats {
    pub nodes_visited: u64,
    pub backtracks: u64,
    pub propagations: u64,
    pub elapsed: Duration,
}

/// The text that a statistics summary starts with.
pub open spec fn summary_prefix(nodes: u64, backtracks: u64, propagations: u64) -> Seq<char> {
    "nodes="@ + decimal_digits(nodes as nat) + " backtracks="@ + decimal_digits(backtracks as nat)
        + " propagations="@ + decimal_digits(propagations as nat) + " time="@
}

impl SolverStats {
    /// All counters zero, zero elapsed time.
    pub fn new() -> (s: Self)
        ensures
            s.nodes_visited == 0,
            s.backtracks == 0,
            s.propagations == 0,
    {
        SolverStats { nodes_visited: 0, backtracks: 0, propagations: 0, elapsed: zero_duration() }
    }

    /// `"nodes=N backtracks=B propagations=P time=T"`, where `T` is the
    /// `Debug` rendering of the elapsed time.
    pub fn summary(&self) -> (s: String)
        ensures
            exists|t: Seq<char>|
                s@ == summary_prefix(self.nodes_visited, self.backtracks, self.propagations) + t,
    {
        let mut s = label("nodes=", self.nodes_visited);
        let b = label(" backtracks=", self.backtracks);
        push_text(&mut s, b.as_str());
        let p = label(" propagations=", self.propagations);
        push_text(&mut s, p.as_str());
        let t = duration_text(&self.elapsed);
        let ghost before = s@;
        push_text(&mut s, " time=");
        push_text(&mut s, t.as_str());
        proof {
            let pre = summary_prefix(self.nodes_visited, self.backtracks, self.propagations);
            assert(before + " time="@ =~= pre);
            assert(s@ =~= pre + t@);
        }
        s
    }
}

impl Default for SolverStats {
    /// Same as [`SolverStats::new`].
    fn default() -> (s: Self)
        ensures
            s.nodes_visited == 0,
            s.backtracks == 0,
            s.propagations == 0,
    {
        SolverStats::new()
    }
}

} // verus!
