//! Backtracking search: chronological, MRV, MRV with forward checking and LCV
//! value ordering, and maintaining arc consistency (MAC).
use vstd::prelude::*;
use std::collections::HashMap;
use crate::ac3::{
    dviews, enforce_ac3, find_binary_between, first_between, lemma_first_between,
    lemma_total_len_update, narrows, no_self_loops, orientation_sound, referenced_nonempty_in,
    same_empties, total_len,
};
use crate::clock::{elapsed_since, now};
use crate::csp::{
    assignment_map, BinaryCheck, Constraint, ConstraintProblem, ConstraintView, ProblemView,
    SolverConfig, SolverStats, values_of,
};

verus! {

broadcast use vstd::std_specs::hash::group_hash_axioms;

// ---------------------------------------------------------------------------
// Specification
// ---------------------------------------------------------------------------

/// The assignment that gives each variable with a one-value domain that value.
pub open spec fn singletons_map(d: Seq<Seq<i64>>) -> Map<usize, i64> {
    Map::new(|i: usize| i < d.len() && d[i as int].len() == 1, |i: usize| d[i as int][0])
}

/// No domain has more than one value.
pub open spec fn all_decided(d: Seq<Seq<i64>>) -> bool {
    forall|i: int| 0 <= i < d.len() ==> #[trigger] d[i].len() <= 1
}

/// Every domain is non-empty.
pub open spec fn all_nonempty(d: Seq<Seq<i64>>) -> bool {
    forall|i: int| 0 <= i < d.len() ==> #[trigger] d[i].len() > 0
}

/// Every binary constraint has a symmetric relation.
pub open spec fn binary_symmetric(cs: Seq<ConstraintView>) -> bool {
    forall|k: int| 0 <= k < cs.len() && (#[trigger] cs[k]) is Binary ==> cs[k].binary_check().is_symmetric()
}

/// Some assignment is a solution within the domains `d`.
pub open spec fn solvable_within(p: ProblemView, d: Seq<Seq<i64>>) -> bool {
    exists|m: Map<usize, i64>| #[trigger] p.solution_within(d, m)
}

/// `x` occurs in `s` at a position before every occurrence of `y`.
pub open spec fn occurs_before(s: Seq<i64>, x: i64, y: i64) -> bool {
    exists|j: int| 0 <= j < s.len() && s[j] == x && !(#[trigger] s.take(j + 1)).contains(y)
}

/// `m1` comes no later than `m2` in the search order over the domains `d`:
/// at the first variable where the two differ, the value of `m1` occurs in
/// that variable's domain before the value of `m2`.
pub open spec fn lex_le(d: Seq<Seq<i64>>, m1: Map<usize, i64>, m2: Map<usize, i64>) -> bool {
    forall|k: usize|
        k < d.len() && (forall|i: usize| i < k ==> m1[i] == m2[i]) && m1[k] != m2[k] ==> #[trigger] occurs_before(
            d[k as int],
            m1[k],
            m2[k],
        )
}

/// `m` is a solution within `d` that comes no later than any other.
pub open spec fn first_solution_within(p: ProblemView, d: Seq<Seq<i64>>, m: Map<usize, i64>) -> bool {
    &&& p.solution_within(d, m)
    &&& forall|m2: Map<usize, i64>| #[trigger] p.solution_within(d, m2) ==> lex_le(d, m, m2)
}

// ---------------------------------------------------------------------------
// Lemmas
// ---------------------------------------------------------------------------

/// Two assignments that agree on the variables of a constraint agree on it.
proof fn lemma_holds_agree(c: ConstraintView, m1: Map<usize, i64>, m2: Map<usize, i64>)
    requires
        forall|t: int| 0 <= t < c.vars().len() ==> m1[#[trigger] c.vars()[t]] == m2[c.vars()[t]],
    ensures
        c.holds_in(m1) == c.holds_in(m2),
{
    match c {
        ConstraintView::Unary { var, .. } => {
            assert(c.vars()[0] == var);
        },
        ConstraintView::Binary { a, b, .. } => {
            assert(c.vars()[0] == a);
            assert(c.vars()[1] == b);
        },
        ConstraintView::Nary { vars, .. } => {
            assert(values_of(vars, m1) =~= values_of(vars, m2)) by {
                assert forall|t: int| 0 <= t < vars.len() implies values_of(vars, m1)[t] == values_of(
                    vars,
                    m2,
                )[t] by {
                    assert(c.vars()[t] == vars[t]);
                }
            }
        },
    }
}

/// A value that the single-pair consistency check rejects is in no solution.
proof fn lemma_rejected_value(p: ProblemView, var: usize, val: i64, m: Map<usize, i64>)
    requires
        !p.consistent_with(assignment_map(seq![(var, val)])),
        m.contains_key(var),
        m[var] == val,
    ensures
        !p.satisfied_by(m),
{
    let a = assignment_map(seq![(var, val)]);
    assert(seq![(var, val)].drop_last() =~= Seq::<(usize, i64)>::empty());
    reveal_with_fuel(assignment_map, 2);
    assert(a == Map::<usize, i64>::empty().insert(var, val));
    let k = choose|k: int| 0 <= k < p.constraints.len() && !#[trigger] p.constraints[k].partially_holds(a);
    let c = p.constraints[k];
    assert forall|t: int| 0 <= t < c.vars().len() implies a[#[trigger] c.vars()[t]] == m[c.vars()[t]] by {
        assert(a.contains_key(c.vars()[t]));
    }
    lemma_holds_agree(c, a, m);
}

/// Narrowing the domain of `var` to `[val]` keeps exactly the solutions with `var = val`.
proof fn lemma_within_assign(p: ProblemView, d: Seq<Seq<i64>>, var: usize, val: i64, m: Map<usize, i64>)
    requires
        var < d.len(),
        d[var as int].contains(val),
    ensures
        p.solution_within(d.update(var as int, seq![val]), m) <==> (p.solution_within(d, m)
            && m.contains_key(var) && m[var] == val),
{
    let d1 = d.update(var as int, seq![val]);
    if p.solution_within(d1, m) {
        assert(m.contains_key(var));
        assert(d1[var as int].contains(m[var]));
        assert(m[var] == val);
        assert forall|i: usize| #[trigger] m.contains_key(i) implies d[i as int].contains(m[i]) by {
            assert(d1[i as int].contains(m[i]));
        }
    }
    if p.solution_within(d, m) && m.contains_key(var) && m[var] == val {
        assert forall|i: usize| #[trigger] m.contains_key(i) implies d1[i as int].contains(m[i]) by {
            if i == var {
                assert(d1[i as int][0] == val);
            }
        }
    }
}

/// Within decided domains the only candidate solution is the singleton map.
proof fn lemma_decided_unique(p: ProblemView, d: Seq<Seq<i64>>, m: Map<usize, i64>)
    requires
        all_decided(d),
        p.solution_within(d, m),
    ensures
        m == singletons_map(d),
{
    let s = singletons_map(d);
    assert forall|i: usize| #[trigger] m.contains_key(i) <==> s.contains_key(i) by {
        if i < d.len() {
            assert(d[i as int].len() <= 1);
        }
    }
    assert forall|i: usize| #[trigger] m.contains_key(i) implies m[i] == s[i] by {
        assert(d[i as int].len() <= 1);
        assert(d[i as int].contains(m[i]));
    }
    assert(m =~= s);
}

/// Shrinking some domains does not increase the total.
proof fn lemma_total_len_mono(d1: Seq<Seq<i64>>, d2: Seq<Seq<i64>>)
    requires
        d1.len() == d2.len(),
        forall|i: int| 0 <= i < d1.len() ==> #[trigger] d2[i].len() <= d1[i].len(),
    ensures
        total_len(d2) <= total_len(d1),
    decreases d1.len(),
{
    if d1.len() > 0 {
        lemma_total_len_mono(d1.drop_last(), d2.drop_last());
        assert(d2.last().len() <= d1.last().len());
    }
}

// ---------------------------------------------------------------------------
// Helpers
// ---------------------------------------------------------------------------

/// A copy of a domain.
fn copy_domain(d: &Vec<i64>) -> (r: Vec<i64>)
    ensures
        r@ == d@,
{
    let mut r: Vec<i64> = Vec::new();
    let mut i: usize = 0;
    while i < d.len()
        invariant
            i <= d@.len(),
            r@ == d@.take(i as int),
        decreases d@.len() - i,
    {
        r.push(d[i]);
        assert(r@ =~= d@.take(i + 1));
        i = i + 1;
    }
    assert(d@.take(i as int) =~= d@);
    r
}

/// A copy of all domains.
fn copy_domains(d: &Vec<Vec<i64>>) -> (r: Vec<Vec<i64>>)
    ensures
        dviews(r@) == dviews(d@),
{
    let mut r: Vec<Vec<i64>> = Vec::new();
    let mut i: usize = 0;
    while i < d.len()
        invariant
            i <= d@.len(),
            dviews(r@) == dviews(d@).take(i as int),
        decreases d@.len() - i,
    {
        let c = copy_domain(&d[i]);
        let ghost prev = r@;
        r.push(c);
        assert(r@ == prev.push(c));
        assert(dviews(prev).len() == i);
        assert(r@.len() == i + 1);
        assert(r@[i as int] == c);
        assert(dviews(r@)[i as int] == c@);
        assert forall|j: int| 0 <= j < i + 1 implies dviews(r@)[j] == dviews(d@)[j] by {
            if j < i {
                assert(dviews(prev)[j] == dviews(d@).take(i as int)[j]);
            }
        }
        assert(dviews(r@) =~= dviews(d@).take(i + 1));
        i = i + 1;
    }
    assert(dviews(d@).take(i as int) =~= dviews(d@));
    r
}

/// The domains of the problem's variables.
fn initial_domains(problem: &ConstraintProblem) -> (r: Vec<Vec<i64>>)
    ensures
        dviews(r@) == problem@.domains(),
{
    let mut r: Vec<Vec<i64>> = Vec::new();
    let mut i: usize = 0;
    while i < problem.variables.len()
        invariant
            i <= problem@.n(),
            dviews(r@) == problem@.domains().take(i as int),
        decreases problem@.n() - i,
    {
        let c = copy_domain(&problem.variables[i].domain);
        let ghost prev = r@;
        r.push(c);
        assert(r@ == prev.push(c));
        assert(dviews(prev).len() == i);
        assert(r@[i as int] == c);
        assert(dviews(r@)[i as int] == c@);
        assert(problem@.variables[i as int] == problem.variables@[i as int]@);
        assert(problem@.domains()[i as int] == c@);
        assert forall|j: int| 0 <= j < i + 1 implies dviews(r@)[j] == problem@.domains()[j] by {
            if j < i {
                assert(dviews(prev)[j] == problem@.domains().take(i as int)[j]);
            }
        }
        assert(dviews(r@) =~= problem@.domains().take(i + 1));
        i = i + 1;
    }
    assert(problem@.domains().take(i as int) =~= problem@.domains());
    r
}

/// The assignment of every variable whose domain holds exactly one value.
fn singletons(domains: &Vec<Vec<i64>>) -> (m: HashMap<usize, i64>)
    ensures
        m@ == singletons_map(dviews(domains@)),
{
    let ghost d = dviews(domains@);
    let mut m: HashMap<usize, i64> = HashMap::new();
    let mut i: usize = 0;
    while i < domains.len()
        invariant
            d == dviews(domains@),
            i <= d.len(),
            m@ == Map::new(
                |j: usize| j < i && d[j as int].len() == 1,
                |j: usize| d[j as int][0],
            ),
        decreases d.len() - i,
    {
        if domains[i].len() == 1 {
            m.insert(i, domains[i][0]);
        }
        assert(m@ =~= Map::new(
            |j: usize| j < i + 1 && d[j as int].len() == 1,
            |j: usize| d[j as int][0],
        ));
        i = i + 1;
    }
    assert(m@ =~= singletons_map(d));
    m
}

/// Adds one to a search counter (saturating).
fn bump(counter: &mut u64)
    ensures
        *final(counter) == if *old(counter) == u64::MAX { u64::MAX } else { (*old(counter) + 1) as u64 },
{
    *counter = counter.saturating_add(1);
}


/// Facts about the singleton assignment of decided domains.
proof fn lemma_singletons_solution(p: ProblemView, d: Seq<Seq<i64>>)
    requires
        p.well_formed(),
        all_decided(d),
        d.len() == p.n(),
        referenced_nonempty_in(p, d),
    ensures
        forall|k: int|
            0 <= k < p.constraints.len() ==> #[trigger] p.constraints[k].covered_by(singletons_map(d)),
        p.satisfied_by(singletons_map(d)) ==> p.solution_within(d, singletons_map(d)),
        !p.satisfied_by(singletons_map(d)) ==> !solvable_within(p, d),
{
    let s = singletons_map(d);
    assert forall|k: int| 0 <= k < p.constraints.len() implies #[trigger] p.constraints[k].covered_by(s) by {
        assert forall|t: int| 0 <= t < p.constraints[k].vars().len() implies s.contains_key(
            #[trigger] p.constraints[k].vars()[t],
        ) by {
            let v = p.constraints[k].vars()[t];
            assert(v < p.n());
            assert(d[v as int].len() > 0);
            assert(d[v as int].len() <= 1);
        }
    }
    assert forall|i: usize| #[trigger] s.contains_key(i) implies d[i as int].contains(s[i]) by {
        assert(d[i as int][0] == s[i]);
    }
    assert forall|i: usize| #[trigger] s.contains_key(i) <==> (i < d.len() && d[i as int].len() > 0) by {
        if i < d.len() {
            assert(d[i as int].len() <= 1);
        }
    }
    if !p.satisfied_by(s) {
        assert forall|m: Map<usize, i64>| !(#[trigger] p.solution_within(d, m)) by {
            if p.solution_within(d, m) {
                lemma_decided_unique(p, d, m);
            }
        }
    }
}

/// A first solution among those with `var` set to `d[var][t]` is a first
/// solution overall, when every variable before `var` is decided and no
/// solution takes a value that occurs in `d[var]` before position `t`.
proof fn lemma_first_at_value(p: ProblemView, d: Seq<Seq<i64>>, var: usize, t: int, m: Map<usize, i64>)
    requires
        var < d.len(),
        0 <= t < d[var as int].len(),
        forall|i: int| 0 <= i < var ==> (#[trigger] d[i]).len() == 1,
        all_nonempty(d),
        forall|m2: Map<usize, i64>| #[trigger]
            p.solution_within(d, m2) ==> !d[var as int].take(t).contains(m2[var]),
        first_solution_within(p, d.update(var as int, seq![d[var as int][t]]), m),
    ensures
        first_solution_within(p, d, m),
{
    let val = d[var as int][t];
    let d1 = d.update(var as int, seq![val]);
    assert(d[var as int].contains(val));
    lemma_within_assign(p, d, var, val, m);
    assert(m[var] == val);
    assert forall|m2: Map<usize, i64>| #[trigger] p.solution_within(d, m2) implies lex_le(d, m, m2) by {
        lemma_within_assign(p, d, var, val, m2);
        assert(m2.contains_key(var));
        if m2[var] == val {
            assert(p.solution_within(d1, m2));
            assert(lex_le(d1, m, m2));
            assert forall|k: usize|
                k < d.len() && (forall|i: usize| i < k ==> m[i] == m2[i]) && m[k] != m2[k]
                    implies #[trigger] occurs_before(d[k as int], m[k], m2[k]) by {
                assert(d1[k as int] == d[k as int]);
                assert(occurs_before(d1[k as int], m[k], m2[k]));
            }
        } else {
            assert forall|k: usize|
                k < d.len() && (forall|i: usize| i < k ==> m[i] == m2[i]) && m[k] != m2[k]
                    implies #[trigger] occurs_before(d[k as int], m[k], m2[k]) by {
                if k < var {
                    assert(d[k as int].len() == 1);
                    assert(d[k as int].len() > 0);
                    assert(m.contains_key(k) && m2.contains_key(k));
                    assert(d[k as int].contains(m[k]));
                    assert(d[k as int].contains(m2[k]));
                } else if k > var {
                    assert(m[var] == m2[var]);
                } else {
                    let s = d[var as int];
                    assert(s.take(t + 1) =~= s.take(t).push(val));
                    assert(!s.take(t + 1).contains(m2[var]));
                    assert(s[t] == m[var]);
                }
            }
        }
    }
}

/// Chronological backtracking over the variables in `order` (the identity),
/// from position `idx`; the variables before `idx` are already decided.
fn backtrack(
    problem: &ConstraintProblem,
    domains: &mut Vec<Vec<i64>>,
    order: &Vec<usize>,
    idx: usize,
    stats: &mut SolverStats,
) -> (r: Option<HashMap<usize, i64>>)
    requires
        problem@.well_formed(),
        old(domains)@.len() == problem@.n(),
        order@.len() == problem@.n(),
        forall|t: int| 0 <= t < order@.len() ==> order@[t] == t,
        idx <= order@.len(),
        forall|t: int| 0 <= t < idx ==> (#[trigger] old(domains)@[t])@.len() == 1,
    ensures
        final(domains)@.len() == old(domains)@.len(),
        final(stats).nodes_visited >= old(stats).nodes_visited,
        idx < order@.len() && old(domains)@[idx as int]@.len() > 0 ==> final(stats).nodes_visited > 0,
        match r {
            Some(m) => first_solution_within(problem@, dviews(old(domains)@), m@) && all_nonempty(
                dviews(old(domains)@),
            ),
            None => !(all_nonempty(dviews(old(domains)@)) && solvable_within(
                problem@,
                dviews(old(domains)@),
            )),
        },
        r is None ==> dviews(final(domains)@) == dviews(old(domains)@),
    decreases order@.len() - idx,
{
    let ghost p = problem@;
    let ghost d0 = dviews(domains@);
    if idx == order.len() {
        proof {
            assert forall|i: int| 0 <= i < d0.len() implies #[trigger] d0[i].len() <= 1 by {
                assert(domains@[i]@.len() == 1);
            }
            assert forall|k: int, t: int|
                0 <= k < p.constraints.len() && 0 <= t < p.constraints[k].vars().len()
                    implies d0[#[trigger] p.constraints[k].vars()[t] as int].len() > 0 by {
                let v = p.constraints[k].vars()[t];
                assert(domains@[v as int]@.len() == 1);
            }
            lemma_singletons_solution(p, d0);
            assert forall|i: int| 0 <= i < d0.len() implies #[trigger] d0[i].len() > 0 by {
                assert(domains@[i]@.len() == 1);
            }
        }
        let result = singletons(domains);
        if problem.is_satisfied(&result) {
            proof {
                assert forall|m2: Map<usize, i64>| #[trigger] p.solution_within(d0, m2) implies lex_le(
                    d0,
                    result@,
                    m2,
                ) by {
                    assert forall|k: usize|
                        k < d0.len() && (forall|i: usize| i < k ==> result@[i] == m2[i]) && result@[k]
                            != m2[k] implies #[trigger] occurs_before(d0[k as int], result@[k], m2[k]) by {
                        assert(domains@[k as int]@.len() == 1);
                        assert(m2.contains_key(k));
                        assert(d0[k as int].contains(m2[k]));
                    }
                }
            }
            return Some(result);
        }
        return None;
    }
    let var = order[idx];
    assert(var == idx);
    let values = copy_domain(&domains[var]);
    let n = order.len();
    let mut t: usize = 0;
    while t < values.len()
        invariant
            n == order@.len(),
            p == problem@,
            p.well_formed(),
            d0.len() == p.n(),
            order@.len() == p.n(),
            forall|t: int| 0 <= t < order@.len() ==> order@[t] == t,
            idx < order@.len(),
            var == idx,
            forall|t: int| 0 <= t < idx ==> (#[trigger] d0[t]).len() == 1,
            dviews(domains@) == d0,
            d0 == dviews(old(domains)@),
            old(domains)@.len() == d0.len(),
            domains@.len() == d0.len(),
            values@ == d0[var as int],
            t <= values@.len(),
            stats.nodes_visited >= old(stats).nodes_visited,
            t > 0 ==> stats.nodes_visited > 0,
            all_nonempty(d0) ==> forall|m: Map<usize, i64>|
                #[trigger] p.solution_within(d0, m) ==> !values@.take(t as int).contains(m[var]),
        decreases values@.len() - t,
    {
        let val = values[t];
        bump(&mut stats.nodes_visited);
        let single = vec![(var, val)];
        if !problem.is_consistent(single.as_slice()) {
            proof {
                assert(single@ == seq![(var, val)]);
                if all_nonempty(d0) {
                    assert forall|m: Map<usize, i64>| #[trigger]
                        p.solution_within(d0, m) implies !values@.take(t + 1).contains(m[var]) by {
                        assert(d0[var as int].len() > 0);
                        assert(m.contains_key(var));
                        if m[var] == val {
                            lemma_rejected_value(p, var, val, m);
                        }
                        assert(values@.take(t + 1) =~= values@.take(t as int).push(val));
                    }
                }
            }
            bump(&mut stats.backtracks);
            t = t + 1;
            continue;
        }
        let saved = copy_domain(&domains[var]);
        let one = vec![val];
        assert(one@ =~= seq![val]);
        domains.set(var, one);
        let ghost d1 = dviews(domains@);
        assert(d1 =~= d0.update(var as int, seq![val]));
        assert(d0[var as int].contains(val)) by {
            assert(values@[t as int] == val);
        }
        assert forall|i: int| 0 <= i < idx + 1 implies (#[trigger] domains@[i])@.len() == 1 by {
            assert(d1[i].len() == 1);
        }
        assert(domains@.len() == d0.len());
        match backtrack(problem, domains, order, idx + 1, stats) {
            Some(rest) => {
                proof {
                    lemma_within_assign(p, d0, var, val, rest@);
                    assert forall|i: int| 0 <= i < d0.len() implies #[trigger] d0[i].len() > 0 by {
                        assert(d1[i].len() > 0);
                    }
                    lemma_first_at_value(p, d0, var, t as int, rest@);
                }
                return Some(rest);
            },
            None => {},
        }
        proof {
            if all_nonempty(d0) {
                assert(all_nonempty(d1));
                assert forall|m: Map<usize, i64>| #[trigger]
                    p.solution_within(d0, m) implies !values@.take(t + 1).contains(m[var]) by {
                    assert(d0[var as int].len() > 0);
                    lemma_within_assign(p, d0, var, val, m);
                    if m[var] == val {
                        assert(p.solution_within(d1, m));
                        assert(solvable_within(p, d1));
                    }
                    assert(values@.take(t + 1) =~= values@.take(t as int).push(val));
                }
            }
        }
        let ghost dd = domains@;
        assert(dviews(dd) == d1);
        domains.set(var, saved);
        assert forall|i: int| 0 <= i < d0.len() implies dviews(domains@)[i] == d0[i] by {
            if i != var {
                assert(dviews(dd)[i] == d1[i]);
            }
        }
        assert(dviews(domains@) =~= d0);
        t = t + 1;
    }
    proof {
        if all_nonempty(d0) {
            assert(values@.take(t as int) =~= values@);
            assert forall|m: Map<usize, i64>| !(#[trigger] p.solution_within(d0, m)) by {
                if p.solution_within(d0, m) {
                    assert(d0[var as int].len() > 0);
                    assert(m.contains_key(var));
                    assert(d0[var as int].contains(m[var]));
                }
            }
        }
    }
    None
}

/// Solves with plain chronological backtracking over variables in index
/// order, trying domain values in order. Returns the first solution in that
/// order (it assigns every variable), or `None` when there is none (or some
/// domain is empty).
pub fn solve_bt(problem: &ConstraintProblem) -> (r: Option<HashMap<usize, i64>>)
    requires
        problem@.well_formed(),
    ensures
        match r {
            Some(m) => first_solution_within(problem@, problem@.domains(), m@)
                && problem@.all_domains_nonempty(),
            None => !(problem@.all_domains_nonempty() && problem@.solvable()),
        },
{
    let mut stats = SolverStats::new();
    let start = now();
    let mut domains = initial_domains(problem);
    let mut order: Vec<usize> = Vec::new();
    let mut i: usize = 0;
    while i < problem.var_count()
        invariant
            i <= problem@.n(),
            order@.len() == i,
            forall|t: int| 0 <= t < i ==> order@[t] == t,
        decreases problem@.n() - i,
    {
        order.push(i);
        i = i + 1;
    }
    let ghost d0 = dviews(domains@);
    assert(d0.len() == domains@.len());
    let result = backtrack(problem, &mut domains, &order, 0, &mut stats);
    stats.elapsed = elapsed_since(&start);
    proof {
        lemma_domains_nonempty(problem@);
        lemma_solvable(problem@);
    }
    result
}

/// The domains of a problem are all non-empty exactly when the problem says so.
proof fn lemma_domains_nonempty(p: ProblemView)
    ensures
        all_nonempty(p.domains()) == p.all_domains_nonempty(),
{
    if p.all_domains_nonempty() {
        assert forall|i: int| 0 <= i < p.domains().len() implies #[trigger] p.domains()[i].len() > 0 by {
            assert(p.variables[i].domain.len() > 0);
        }
    }
    if all_nonempty(p.domains()) {
        assert forall|i: int| 0 <= i < p.n() implies #[trigger] p.variables[i].domain.len() > 0 by {
            assert(p.domains()[i].len() > 0);
        }
    }
}

/// Solvability within the problem's own domains.
proof fn lemma_solvable(p: ProblemView)
    ensures
        solvable_within(p, p.domains()) == p.solvable(),
{
    if p.solvable() {
        let m = choose|m: Map<usize, i64>| p.is_solution(m);
        assert(p.solution_within(p.domains(), m));
    }
    if solvable_within(p, p.domains()) {
        let m = choose|m: Map<usize, i64>| p.solution_within(p.domains(), m);
        assert(p.is_solution(m));
    }
}


/// The problem-level and domain-level statements of non-empty referenced domains agree.
proof fn lemma_referenced_nonempty(p: ProblemView)
    requires
        p.well_formed(),
        p.referenced_nonempty(),
    ensures
        referenced_nonempty_in(p, p.domains()),
{
    assert forall|k: int, t: int|
        0 <= k < p.constraints.len() && 0 <= t < p.constraints[k].vars().len()
            implies p.domains()[#[trigger] p.constraints[k].vars()[t] as int].len() > 0 by {
        let v = p.constraints[k].vars()[t];
        assert(p.variables[v as int].domain.len() > 0);
    }
}

/// Indices of domains with more than one value, in increasing order.
fn unassigned_vars(domains: &Vec<Vec<i64>>) -> (r: Vec<usize>)
    ensures
        forall|t: int|
            0 <= t < r@.len() ==> #[trigger] r@[t] < domains@.len() && domains@[r@[t] as int]@.len() > 1,
        forall|i: int| 0 <= i < domains@.len() && (#[trigger] domains@[i])@.len() > 1 ==> r@.contains(i as usize),
        forall|t1: int, t2: int| 0 <= t1 < t2 < r@.len() ==> r@[t1] < r@[t2],
{
    let mut r: Vec<usize> = Vec::new();
    let mut i: usize = 0;
    while i < domains.len()
        invariant
            i <= domains@.len(),
            forall|t: int| 0 <= t < r@.len() ==> #[trigger] r@[t] < i && domains@[r@[t] as int]@.len() > 1,
            forall|j: int| 0 <= j < i && (#[trigger] domains@[j])@.len() > 1 ==> r@.contains(j as usize),
            forall|t1: int, t2: int| 0 <= t1 < t2 < r@.len() ==> r@[t1] < r@[t2],
        decreases domains@.len() - i,
    {
        if domains[i].len() > 1 {
            let ghost prev = r@;
            r.push(i);
            assert(r@[prev.len() as int] == i);
            assert forall|j: int| 0 <= j < i + 1 && (#[trigger] domains@[j])@.len() > 1 implies r@.contains(
                j as usize,
            ) by {
                if j < i {
                    let t = choose|t: int| 0 <= t < prev.len() && prev[t] == j as usize;
                    assert(r@[t] == prev[t]);
                }
            }
        }
        i = i + 1;
    }
    r
}

/// The first of the `unassigned` variables with the smallest domain.
fn min_domain_var(domains: &Vec<Vec<i64>>, unassigned: &Vec<usize>) -> (v: usize)
    requires
        unassigned@.len() > 0,
        forall|t: int| 0 <= t < unassigned@.len() ==> #[trigger] unassigned@[t] < domains@.len(),
    ensures
        exists|j: int|
            0 <= j < unassigned@.len() && unassigned@[j] == v && forall|t: int|
                0 <= t < j ==> domains@[#[trigger] unassigned@[t] as int]@.len() > domains@[v as int]@.len(),
        forall|t: int|
            0 <= t < unassigned@.len() ==> domains@[#[trigger] unassigned@[t] as int]@.len() >= domains@[v as int]@.len(),
{
    let mut best: usize = unassigned[0];
    let mut best_j: usize = 0;
    let mut t: usize = 1;
    while t < unassigned.len()
        invariant
            1 <= t <= unassigned@.len(),
            forall|t: int| 0 <= t < unassigned@.len() ==> #[trigger] unassigned@[t] < domains@.len(),
            best_j < t,
            unassigned@[best_j as int] == best,
            forall|s: int| 0 <= s < best_j ==> domains@[#[trigger] unassigned@[s] as int]@.len() > domains@[best as int]@.len(),
            forall|s: int| 0 <= s < t ==> domains@[#[trigger] unassigned@[s] as int]@.len() >= domains@[best as int]@.len(),
        decreases unassigned@.len() - t,
    {
        let c = unassigned[t];
        if domains[c].len() < domains[best].len() {
            best = c;
            best_j = t;
        }
        t = t + 1;
    }
    best
}

/// Minimum-remaining-values backtracking: decides the undecided variable with
/// the smallest domain first, trying its values in order and skipping values
/// rejected by single-variable constraints.
fn backtrack_mrv(problem: &ConstraintProblem, domains: &mut Vec<Vec<i64>>, stats: &mut SolverStats) -> (r:
    Option<HashMap<usize, i64>>)
    requires
        problem@.well_formed(),
        old(domains)@.len() == problem@.n(),
        referenced_nonempty_in(problem@, dviews(old(domains)@)),
    ensures
        final(domains)@.len() == old(domains)@.len(),
        final(stats).nodes_visited >= old(stats).nodes_visited,
        (exists|i: int| 0 <= i < old(domains)@.len() && (#[trigger] old(domains)@[i])@.len() > 1) ==> final(stats).nodes_visited > 0,
        match r {
            Some(m) => problem@.solution_within(dviews(old(domains)@), m@),
            None => !solvable_within(problem@, dviews(old(domains)@)),
        },
        r is None ==> dviews(final(domains)@) == dviews(old(domains)@),
    decreases total_len(dviews(old(domains)@)),
{
    let ghost p = problem@;
    let ghost d0 = dviews(domains@);
    let unassigned = unassigned_vars(domains);
    if unassigned.len() == 0 {
        proof {
            assert forall|i: int| 0 <= i < d0.len() implies #[trigger] d0[i].len() <= 1 by {
                if d0[i].len() > 1 {
                    assert(domains@[i]@.len() > 1);
                    assert(unassigned@.contains(i as usize));
                }
            }
            lemma_singletons_solution(p, d0);
        }
        let result = singletons(domains);
        if problem.is_satisfied(&result) {
            return Some(result);
        }
        return None;
    }
    let var = min_domain_var(domains, &unassigned);
    assert(d0[var as int].len() > 1) by {
        let j = choose|j: int| 0 <= j < unassigned@.len() && unassigned@[j] == var;
        assert(unassigned@[j] == var);
    }
    let values = copy_domain(&domains[var]);
    let mut t: usize = 0;
    while t < values.len()
        invariant
            p == problem@,
            p.well_formed(),
            d0.len() == p.n(),
            var < d0.len(),
            d0[var as int].len() > 1,
            referenced_nonempty_in(p, d0),
            dviews(domains@) == d0,
            d0 == dviews(old(domains)@),
            old(domains)@.len() == d0.len(),
            domains@.len() == d0.len(),
            values@ == d0[var as int],
            t <= values@.len(),
            stats.nodes_visited >= old(stats).nodes_visited,
            t > 0 ==> stats.nodes_visited > 0,
            forall|m: Map<usize, i64>|
                #[trigger] p.solution_within(d0, m) ==> !values@.take(t as int).contains(m[var]),
        decreases values@.len() - t,
    {
        let val = values[t];
        bump(&mut stats.nodes_visited);
        let single = vec![(var, val)];
        if !problem.is_consistent(single.as_slice()) {
            proof {
                assert(single@ == seq![(var, val)]);
                assert forall|m: Map<usize, i64>| #[trigger]
                    p.solution_within(d0, m) implies !values@.take(t + 1).contains(m[var]) by {
                    assert(m.contains_key(var));
                    if m[var] == val {
                        lemma_rejected_value(p, var, val, m);
                    }
                    assert(values@.take(t + 1) =~= values@.take(t as int).push(val));
                }
            }
            bump(&mut stats.backtracks);
            t = t + 1;
            continue;
        }
        let saved = copy_domain(&domains[var]);
        let one = vec![val];
        assert(one@ =~= seq![val]);
        domains.set(var, one);
        let ghost d1 = dviews(domains@);
        assert(d1 =~= d0.update(var as int, seq![val]));
        assert(d0[var as int].contains(val)) by {
            assert(values@[t as int] == val);
        }
        proof {
            lemma_total_len_update(d0, var as int, seq![val]);
            assert forall|k: int, s: int|
                0 <= k < p.constraints.len() && 0 <= s < p.constraints[k].vars().len()
                    implies d1[#[trigger] p.constraints[k].vars()[s] as int].len() > 0 by {
                let v = p.constraints[k].vars()[s];
                assert(d0[v as int].len() > 0);
            }
        }
        assert(domains@.len() == d0.len());
        match backtrack_mrv(problem, domains, stats) {
            Some(rest) => {
                proof {
                    lemma_within_assign(p, d0, var, val, rest@);
                }
                let ghost before = rest@;
                assert(before.contains_key(var) && before[var] == val);
                let mut rest = rest;
                rest.insert(var, val);
                assert(rest@ =~= before);
                return Some(rest);
            },
            None => {},
        }
        proof {
            assert forall|m: Map<usize, i64>| #[trigger]
                p.solution_within(d0, m) implies !values@.take(t + 1).contains(m[var]) by {
                lemma_within_assign(p, d0, var, val, m);
                assert(m.contains_key(var));
                if m[var] == val {
                    assert(p.solution_within(d1, m));
                    assert(solvable_within(p, d1));
                }
                assert(values@.take(t + 1) =~= values@.take(t as int).push(val));
            }
        }
        let ghost dd = domains@;
        assert(dviews(dd) == d1);
        domains.set(var, saved);
        assert forall|i: int| 0 <= i < d0.len() implies dviews(domains@)[i] == d0[i] by {
            if i != var {
                assert(dviews(dd)[i] == d1[i]);
            }
        }
        assert(dviews(domains@) =~= d0);
        t = t + 1;
    }
    proof {
        assert(values@.take(t as int) =~= values@);
        assert forall|m: Map<usize, i64>| !(#[trigger] p.solution_within(d0, m)) by {
            if p.solution_within(d0, m) {
                assert(m.contains_key(var));
                assert(d0[var as int].contains(m[var]));
            }
        }
    }
    None
}

/// Solves with minimum-remaining-values backtracking. Returns a solution, or
/// `None` exactly when the problem has none.
pub fn solve_bt_mrv(problem: &ConstraintProblem) -> (r: Option<HashMap<usize, i64>>)
    requires
        problem@.well_formed(),
        problem@.referenced_nonempty(),
    ensures
        match r {
            Some(m) => problem@.is_solution(m@),
            None => !problem@.solvable(),
        },
{
    let mut stats = SolverStats::new();
    let start = now();
    let mut domains = initial_domains(problem);
    proof {
        lemma_referenced_nonempty(problem@);
        lemma_solvable(problem@);
    }
    assert(dviews(domains@).len() == domains@.len());
    let result = backtrack_mrv(problem, &mut domains, &mut stats);
    stats.elapsed = elapsed_since(&start);
    result
}


/// Solutions within narrowed domains with the same empty domains are
/// solutions within the wider ones.
proof fn lemma_within_narrow(p: ProblemView, d1: Seq<Seq<i64>>, d2: Seq<Seq<i64>>, m: Map<usize, i64>)
    requires
        narrows(d1, d2),
        same_empties(d1, d2),
        p.solution_within(d2, m),
    ensures
        p.solution_within(d1, m),
{
    assert forall|i: usize| #[trigger] m.contains_key(i) <==> (i < d1.len() && d1[i as int].len() > 0) by {
        if i < d1.len() {
            assert(d1[i as int].len() > 0 <==> d2[i as int].len() > 0);
        }
    }
    assert forall|i: usize| #[trigger] m.contains_key(i) implies d1[i as int].contains(m[i]) by {
        assert(d2[i as int].contains(m[i]));
    }
}

/// Maintaining arc consistency: MRV variable choice, values in domain order,
/// and AC-3 after each decision.
fn backtrack_mac(problem: &ConstraintProblem, domains: &mut Vec<Vec<i64>>, stats: &mut SolverStats) -> (r:
    Option<HashMap<usize, i64>>)
    requires
        problem@.well_formed(),
        old(domains)@.len() == problem@.n(),
        referenced_nonempty_in(problem@, dviews(old(domains)@)),
    ensures
        final(domains)@.len() == old(domains)@.len(),
        match r {
            Some(m) => problem@.solution_within(dviews(old(domains)@), m@),
            None => orientation_sound(problem@.constraints) ==> !solvable_within(
                problem@,
                dviews(old(domains)@),
            ),
        },
        r is None ==> dviews(final(domains)@) == dviews(old(domains)@),
    decreases total_len(dviews(old(domains)@)),
{
    let ghost p = problem@;
    let ghost cs = problem@.constraints;
    let ghost d0 = dviews(domains@);
    let unassigned = unassigned_vars(domains);
    if unassigned.len() == 0 {
        proof {
            assert forall|i: int| 0 <= i < d0.len() implies #[trigger] d0[i].len() <= 1 by {
                if d0[i].len() > 1 {
                    assert(domains@[i]@.len() > 1);
                    assert(unassigned@.contains(i as usize));
                }
            }
            lemma_singletons_solution(p, d0);
        }
        let result = singletons(domains);
        if problem.is_satisfied(&result) {
            return Some(result);
        }
        return None;
    }
    let var = min_domain_var(domains, &unassigned);
    assert(d0[var as int].len() > 1) by {
        let j = choose|j: int| 0 <= j < unassigned@.len() && unassigned@[j] == var;
        assert(unassigned@[j] == var);
    }
    let values = copy_domain(&domains[var]);
    let mut t: usize = 0;
    while t < values.len()
        invariant
            p == problem@,
            cs == p.constraints,
            p.well_formed(),
            d0.len() == p.n(),
            var < d0.len(),
            d0[var as int].len() > 1,
            referenced_nonempty_in(p, d0),
            dviews(domains@) == d0,
            d0 == dviews(old(domains)@),
            old(domains)@.len() == d0.len(),
            domains@.len() == d0.len(),
            values@ == d0[var as int],
            t <= values@.len(),
            orientation_sound(cs) ==> forall|m: Map<usize, i64>|
                #[trigger] p.solution_within(d0, m) ==> !values@.take(t as int).contains(m[var]),
        decreases values@.len() - t,
    {
        let val = values[t];
        bump(&mut stats.nodes_visited);
        let saved = copy_domains(domains);
        let one = vec![val];
        assert(one@ =~= seq![val]);
        domains.set(var, one);
        let ghost d1 = dviews(domains@);
        assert(d1 =~= d0.update(var as int, seq![val]));
        assert(d0[var as int].contains(val)) by {
            assert(values@[t as int] == val);
        }
        proof {
            lemma_total_len_update(d0, var as int, seq![val]);
            assert forall|k: int, s: int|
                0 <= k < p.constraints.len() && 0 <= s < p.constraints[k].vars().len()
                    implies d1[#[trigger] p.constraints[k].vars()[s] as int].len() > 0 by {
                let v = p.constraints[k].vars()[s];
                assert(d0[v as int].len() > 0);
            }
        }
        bump(&mut stats.propagations);
        assert(domains@.len() == d0.len());
        let consistent = enforce_ac3(problem, domains);
        let ghost d2 = dviews(domains@);
        if consistent {
            proof {
                lemma_total_len_mono(d1, d2);
                assert forall|k: int, s: int|
                    0 <= k < p.constraints.len() && 0 <= s < p.constraints[k].vars().len()
                        implies d2[#[trigger] p.constraints[k].vars()[s] as int].len() > 0 by {
                    let v = p.constraints[k].vars()[s];
                    assert(d1[v as int].len() > 0);
                }
            }
            match backtrack_mac(problem, domains, stats) {
                Some(rest) => {
                    proof {
                        lemma_within_narrow(p, d1, d2, rest@);
                        lemma_within_assign(p, d0, var, val, rest@);
                    }
                    let ghost before = rest@;
                    assert(before.contains_key(var) && before[var] == val);
                    let mut rest = rest;
                    rest.insert(var, val);
                    assert(rest@ =~= before);
                    return Some(rest);
                },
                None => {},
            }
        } else {
            bump(&mut stats.backtracks);
        }
        proof {
            if orientation_sound(cs) {
                assert forall|m: Map<usize, i64>| #[trigger]
                    p.solution_within(d0, m) implies !values@.take(t + 1).contains(m[var]) by {
                    lemma_within_assign(p, d0, var, val, m);
                    assert(m.contains_key(var));
                    if m[var] == val {
                        assert(p.solution_within(d1, m));
                        assert(p.solution_within(d2, m));
                        if consistent {
                            assert(solvable_within(p, d2));
                        }
                    }
                    assert(values@.take(t + 1) =~= values@.take(t as int).push(val));
                }
            }
        }
        *domains = saved;
        t = t + 1;
    }
    proof {
        if orientation_sound(cs) {
            assert(values@.take(t as int) =~= values@);
            assert forall|m: Map<usize, i64>| !(#[trigger] p.solution_within(d0, m)) by {
                if p.solution_within(d0, m) {
                    assert(m.contains_key(var));
                    assert(d0[var as int].contains(m[var]));
                }
            }
        }
    }
    None
}

/// Solves with maintaining arc consistency: AC-3 before the search and after
/// every decision. Returns only solutions; when constraints relating the same
/// pair in both orientations are symmetric, returns `None` exactly when the
/// problem has no solution.
pub fn solve_bt_mac(problem: &ConstraintProblem) -> (r: Option<HashMap<usize, i64>>)
    requires
        problem@.well_formed(),
        problem@.referenced_nonempty(),
    ensures
        match r {
            Some(m) => problem@.is_solution(m@),
            None => orientation_sound(problem@.constraints) ==> !problem@.solvable(),
        },
{
    let mut stats = SolverStats::new();
    let start = now();
    let mut domains = initial_domains(problem);
    let ghost p = problem@;
    let ghost d0 = dviews(domains@);
    proof {
        lemma_referenced_nonempty(problem@);
        lemma_solvable(problem@);
    }
    assert(d0.len() == domains@.len());
    if !enforce_ac3(problem, &mut domains) {
        return None;
    }
    let ghost d1 = dviews(domains@);
    proof {
        assert forall|k: int, s: int|
            0 <= k < p.constraints.len() && 0 <= s < p.constraints[k].vars().len()
                implies d1[#[trigger] p.constraints[k].vars()[s] as int].len() > 0 by {
            let v = p.constraints[k].vars()[s];
            assert(d0[v as int].len() > 0);
        }
    }
    let result = backtrack_mac(problem, &mut domains, &mut stats);
    stats.elapsed = elapsed_since(&start);
    proof {
        match &result {
            Some(m) => {
                lemma_within_narrow(p, d0, d1, m@);
            },
            None => {
                if orientation_sound(p.constraints) && p.solvable() {
                    let m = choose|m: Map<usize, i64>| p.solution_within(d0, m);
                    assert(p.solution_within(d1, m));
                }
            },
        }
    }
    result
}


// ---------------------------------------------------------------------------
// Forward checking and value ordering
// ---------------------------------------------------------------------------

/// The domain of `b` after removing values incompatible with the decided value
/// of `a`, under the relation of the first binary constraint between them read
/// as `(value of a, value of b)`.
pub open spec fn fc_domain(cs: Seq<ConstraintView>, d: Seq<Seq<i64>>, a: usize, b: usize) -> Seq<i64> {
    match first_between(cs, a, b) {
        None => d[b as int],
        Some(k) => d[b as int].filter(|vb: i64| cs[k].binary_check().holds(d[a as int][0], vb)),
    }
}

/// Every binary constraint is symmetric, hence orientation does not matter.
pub(crate) proof fn lemma_symmetric_orientation(cs: Seq<ConstraintView>)
    requires
        binary_symmetric(cs),
    ensures
        orientation_sound(cs),
{
    assert forall|k1: int, k2: int|
        0 <= k1 < cs.len() && 0 <= k2 < cs.len() && crate::ac3::opposite(
            #[trigger] cs[k1],
            #[trigger] cs[k2],
        ) implies cs[k1].binary_check().is_symmetric() by {
        assert(cs[k1] is Binary);
    }
}

/// With symmetric binary constraints, forward checking keeps the values of
/// every solution that agrees with the decided variable.
proof fn lemma_fc_sound(p: ProblemView, d: Seq<Seq<i64>>, a: usize, b: usize, m: Map<usize, i64>)
    requires
        binary_symmetric(p.constraints),
        p.satisfied_by(m),
        a < d.len(),
        b < d.len(),
        d[a as int].len() > 0,
        m[a] == d[a as int][0],
        d[b as int].contains(m[b]),
    ensures
        fc_domain(p.constraints, d, a, b).contains(m[b]),
{
    let cs = p.constraints;
    lemma_first_between(cs, a, b);
    match first_between(cs, a, b) {
        None => {},
        Some(k) => {
            assert(cs[k].holds_in(m));
            assert(cs[k] is Binary);
            assert(cs[k].binary_check().holds(m[a], m[b]));
            let pred = |vb: i64| cs[k].binary_check().holds(d[a as int][0], vb);
            let j = choose|j: int| 0 <= j < d[b as int].len() && d[b as int][j] == m[b];
            d[b as int].lemma_filter_contains(pred, j);
        },
    }
}

/// Removes from the domain of `b` the values incompatible with the (decided)
/// value of `a`. Returns whether anything was removed.
fn forward_check(problem: &ConstraintProblem, domains: &mut Vec<Vec<i64>>, a: usize, b: usize) -> (r:
    bool)
    requires
        a < old(domains)@.len(),
        b < old(domains)@.len(),
        old(domains)@[a as int]@.len() > 0,
    ensures
        final(domains)@.len() == old(domains)@.len(),
        forall|i: int|
            0 <= i < old(domains)@.len() && i != b ==> final(domains)@[i] == old(domains)@[i],
        final(domains)@[b as int]@ == fc_domain(problem@.constraints, dviews(old(domains)@), a, b),
        r == (final(domains)@[b as int]@.len() != old(domains)@[b as int]@.len()),
{
    let ghost cs = problem@.constraints;
    let ghost d = dviews(domains@);
    let check = find_binary_between(problem, a, b);
    match check {
        None => false,
        Some(chk) => {
            let ghost k = first_between(cs, a, b)->0;
            let a_val = domains[a][0];
            let old_len = domains[b].len();
            let mut kept: Vec<i64> = Vec::new();
            let mut t: usize = 0;
            while t < old_len
                invariant
                    old_len == d[b as int].len(),
                    d == dviews(domains@),
                    a < domains@.len(),
                    b < domains@.len(),
                    d[a as int].len() > 0,
                    a_val == d[a as int][0],
                    first_between(cs, a, b) == Some(k),
                    chk == cs[k].binary_check(),
                    t <= old_len,
                    kept@ == d[b as int].take(t as int).filter(
                        |vb: i64| cs[k].binary_check().holds(d[a as int][0], vb),
                    ),
                decreases old_len - t,
            {
                proof {
                    reveal_with_fuel(Seq::filter, 1);
                }
                let vb = domains[b][t];
                let ghost pre = d[b as int].take(t as int);
                let ghost cur = d[b as int].take(t + 1);
                assert(cur.drop_last() =~= pre);
                assert(cur.last() == vb);
                if chk.check(a_val, vb) {
                    kept.push(vb);
                }
                t = t + 1;
            }
            assert(d[b as int].take(old_len as int) =~= d[b as int]);
            let changed = kept.len() != old_len;
            domains.set(b, kept);
            changed
        },
    }
}

/// How many values of `s` the relation rejects as partners of `val` (with
/// `val` on the left).
pub open spec fn rejected_count(chk: BinaryCheck, val: i64, s: Seq<i64>) -> nat
    decreases s.len(),
{
    if s.len() == 0 {
        0
    } else {
        rejected_count(chk, val, s.drop_last()) + if chk.holds(val, s.last()) {
            0nat
        } else {
            1nat
        }
    }
}

/// Least-constraining-value score of `var = val`: over the binary constraints
/// with `var` at either end, in order, the number of values of the other
/// end's domain `d[other]` that the relation rejects as partners of `val`,
/// summed with saturation at `usize::MAX`.
pub open spec fn conflict_score(cs: Seq<ConstraintView>, d: Seq<Seq<i64>>, var: usize, val: i64) -> nat
    decreases cs.len(),
{
    if cs.len() == 0 {
        0
    } else {
        let prev = conflict_score(cs.drop_last(), d, var, val);
        match cs.last() {
            ConstraintView::Binary { a, b, check, .. } => {
                if a == var || b == var {
                    let other = if a == var {
                        b
                    } else {
                        a
                    };
                    let sum = prev + rejected_count(check, val, d[other as int]);
                    if sum > usize::MAX {
                        usize::MAX as nat
                    } else {
                        sum
                    }
                } else {
                    prev
                }
            },
            _ => prev,
        }
    }
}

/// How many values of neighbouring domains would be eliminated if `var` took
/// the value `val` (a least-constraining-value score; saturating).
fn count_conflicts(problem: &ConstraintProblem, domains: &Vec<Vec<i64>>, var: usize, val: i64) -> (r: usize)
    requires
        problem@.well_formed(),
        domains@.len() == problem@.n(),
    ensures
        r == conflict_score(problem@.constraints, dviews(domains@), var, val),
{
    let ghost cs = problem@.constraints;
    let ghost d = dviews(domains@);
    let mut conflicts: usize = 0;
    let mut k: usize = 0;
    assert(cs.take(0) =~= Seq::<ConstraintView>::empty());
    while k < problem.constraints.len()
        invariant
            cs == problem@.constraints,
            d == dviews(domains@),
            problem@.well_formed(),
            domains@.len() == problem@.n(),
            k <= problem@.constraints.len(),
            conflicts == conflict_score(cs.take(k as int), d, var, val),
        decreases problem@.constraints.len() - k,
    {
        assert(problem@.constraints[k as int] == problem.constraints@[k as int]@);
        assert(cs.take(k + 1).drop_last() =~= cs.take(k as int));
        assert(cs.take(k + 1).last() == cs[k as int]);
        match &problem.constraints[k] {
            Constraint::Binary { a, b, check, .. } => {
                assert(problem@.constraints[k as int].vars()[0] == *a);
                assert(problem@.constraints[k as int].vars()[1] == *b);
                let is_a = *a == var;
                let is_b = *b == var;
                if is_a || is_b {
                    let other = if is_a {
                        *b
                    } else {
                        *a
                    };
                    let ghost s = d[other as int];
                    assert(s == domains@[other as int]@);
                    let mut removed: usize = 0;
                    let mut t: usize = 0;
                    assert(s.take(0) =~= Seq::<i64>::empty());
                    while t < domains[other].len()
                        invariant
                            other < domains@.len(),
                            s == domains@[other as int]@,
                            t <= domains@[other as int]@.len(),
                            removed <= t,
                            removed == rejected_count(*check, val, s.take(t as int)),
                        decreases domains@[other as int]@.len() - t,
                    {
                        assert(s.take(t + 1).drop_last() =~= s.take(t as int));
                        assert(s.take(t + 1).last() == s[t as int]);
                        if !check.check(val, domains[other][t]) {
                            removed = removed + 1;
                        }
                        t = t + 1;
                    }
                    assert(s.take(t as int) =~= s);
                    conflicts = conflicts.saturating_add(removed);
                }
            },
            _ => {},
        }
        k = k + 1;
    }
    assert(cs.take(k as int) =~= cs);
    conflicts
}

/// Inserts into a list sorted by score, after every entry with a score not
/// above the new one (so equal scores keep their arrival order).
fn insert_by_score(sorted: &mut Vec<(i64, usize)>, e: (i64, usize))
    requires
        forall|i: int, j: int| 0 <= i < j < old(sorted)@.len() ==> old(sorted)@[i].1 <= old(sorted)@[j].1,
    ensures
        final(sorted)@.len() == old(sorted)@.len() + 1,
        forall|i: int, j: int| 0 <= i < j < final(sorted)@.len() ==> final(sorted)@[i].1 <= final(sorted)@[j].1,
        forall|x: (i64, usize)| final(sorted)@.contains(x) <==> (old(sorted)@.contains(x) || x == e),
{
    let ghost s0 = sorted@;
    let mut pos: usize = 0;
    while pos < sorted.len() && sorted[pos].1 <= e.1
        invariant
            sorted@ == s0,
            pos <= s0.len(),
            forall|i: int| 0 <= i < pos ==> s0[i].1 <= e.1,
        decreases s0.len() - pos,
    {
        pos = pos + 1;
    }
    assert(forall|i: int| pos <= i < s0.len() ==> s0[i].1 > e.1) by {
        if pos < s0.len() {
            assert(s0[pos as int].1 > e.1);
        }
    }
    sorted.insert(pos, e);
    let ghost s1 = sorted@;
    assert(s1 == s0.insert(pos as int, e));
    assert forall|i: int| 0 <= i < s1.len() implies #[trigger] s1[i] == (if i < pos { s0[i] } else if i == pos {
        e
    } else {
        s0[i - 1]
    }) by {}
    assert forall|x: (i64, usize)| s1.contains(x) <==> (s0.contains(x) || x == e) by {
        if s1.contains(x) {
            let i = choose|i: int| 0 <= i < s1.len() && s1[i] == x;
            if i < pos {
                assert(s0[i] == x);
            } else if i > pos {
                assert(s0[i - 1] == x);
            }
        }
        if s0.contains(x) {
            let i = choose|i: int| 0 <= i < s0.len() && s0[i] == x;
            if i < pos {
                assert(s1[i] == x);
            } else {
                assert(s1[i + 1] == x);
            }
        }
        if x == e {
            assert(s1[pos as int] == e);
        }
    }
}

/// Some entry of the scored list has value `v`.
spec fn scored_has(s: Seq<(i64, usize)>, v: i64) -> bool {
    exists|c: usize| #[trigger] s.contains((v, c))
}

/// The values of `var`'s domain ordered by increasing conflict count, ties in
/// domain order (least-constraining value first).
fn lcv_values(problem: &ConstraintProblem, domains: &Vec<Vec<i64>>, var: usize) -> (r: Vec<i64>)
    requires
        problem@.well_formed(),
        domains@.len() == problem@.n(),
        var < domains@.len(),
    ensures
        forall|v: i64| r@.contains(v) <==> domains@[var as int]@.contains(v),
{
    let ghost dv = domains@[var as int]@;
    let mut scored: Vec<(i64, usize)> = Vec::new();
    let mut t: usize = 0;
    while t < domains[var].len()
        invariant
            problem@.well_formed(),
            domains@.len() == problem@.n(),
            var < domains@.len(),
            dv == domains@[var as int]@,
            t <= dv.len(),
            forall|i: int, j: int| 0 <= i < j < scored@.len() ==> scored@[i].1 <= scored@[j].1,
            forall|v: i64| #[trigger] scored_has(scored@, v) <==> dv.take(t as int).contains(v),
        decreases dv.len() - t,
    {
        let v = domains[var][t];
        let c = count_conflicts(problem, domains, var, v);
        let ghost before = scored@;
        insert_by_score(&mut scored, (v, c));
        assert forall|w: i64| #[trigger] scored_has(scored@, w) <==> dv.take(t + 1).contains(w) by {
            assert(dv.take(t + 1) =~= dv.take(t as int).push(v));
            if dv.take(t + 1).contains(w) {
                if w == v {
                    assert(scored@.contains((w, c)));
                    assert(scored_has(scored@, w));
                } else {
                    assert(dv.take(t as int).contains(w));
                    assert(scored_has(before, w));
                    let c2 = choose|c2: usize| before.contains((w, c2));
                    assert(scored@.contains((w, c2)));
                    assert(scored_has(scored@, w));
                }
            }
            if scored_has(scored@, w) {
                let c2 = choose|c2: usize| scored@.contains((w, c2));
                if (w, c2) != (v, c) {
                    assert(before.contains((w, c2)));
                    assert(scored_has(before, w));
                    assert(dv.take(t as int).contains(w));
                    let i = choose|i: int| 0 <= i < t && dv.take(t as int)[i] == w;
                    assert(dv.take(t + 1)[i] == w);
                } else {
                    assert(dv.take(t + 1)[t as int] == w);
                }
            }
        }
        t = t + 1;
    }
    assert(dv.take(t as int) =~= dv);
    let mut r: Vec<i64> = Vec::new();
    let mut i: usize = 0;
    while i < scored.len()
        invariant
            i <= scored@.len(),
            r@ =~= scored@.take(i as int).map_values(|e: (i64, usize)| e.0),
        decreases scored@.len() - i,
    {
        r.push(scored[i].0);
        assert(r@ =~= scored@.take(i + 1).map_values(|e: (i64, usize)| e.0));
        i = i + 1;
    }
    assert(scored@.take(i as int) =~= scored@);
    assert forall|v: i64| r@.contains(v) <==> dv.contains(v) by {
        if r@.contains(v) {
            let j = choose|j: int| 0 <= j < r@.len() && r@[j] == v;
            assert(scored@.contains(scored@[j]));
            assert(scored@.contains((v, scored@[j].1)));
            assert(scored_has(scored@, v));
        }
        if dv.contains(v) {
            assert(scored_has(scored@, v));
            let c2 = choose|c2: usize| scored@.contains((v, c2));
            let j = choose|j: int| 0 <= j < scored@.len() && scored@[j] == (v, c2);
            assert(r@[j] == v);
        }
    }
    r
}


/// MRV search with forward checking: after deciding a variable, prunes the
/// domains of the other undecided variables; values are tried
/// least-constraining first when more than one variable is undecided.
fn backtrack_mrv_fc(problem: &ConstraintProblem, domains: &mut Vec<Vec<i64>>, stats: &mut SolverStats) -> (r:
    Option<HashMap<usize, i64>>)
    requires
        problem@.well_formed(),
        old(domains)@.len() == problem@.n(),
        referenced_nonempty_in(problem@, dviews(old(domains)@)),
    ensures
        final(domains)@.len() == old(domains)@.len(),
        final(stats).nodes_visited >= old(stats).nodes_visited,
        (exists|i: int| 0 <= i < old(domains)@.len() && (#[trigger] old(domains)@[i])@.len() > 1) ==> final(stats).nodes_visited > 0,
        match r {
            Some(m) => problem@.solution_within(dviews(old(domains)@), m@),
            None => binary_symmetric(problem@.constraints) ==> !solvable_within(
                problem@,
                dviews(old(domains)@),
            ),
        },
        r is None ==> dviews(final(domains)@) == dviews(old(domains)@),
    decreases total_len(dviews(old(domains)@)),
{
    let ghost p = problem@;
    let ghost cs = problem@.constraints;
    let ghost d0 = dviews(domains@);
    let unassigned = unassigned_vars(domains);
    if unassigned.len() == 0 {
        proof {
            assert forall|i: int| 0 <= i < d0.len() implies #[trigger] d0[i].len() <= 1 by {
                if d0[i].len() > 1 {
                    assert(domains@[i]@.len() > 1);
                    assert(unassigned@.contains(i as usize));
                }
            }
            lemma_singletons_solution(p, d0);
        }
        let result = singletons(domains);
        if problem.is_satisfied(&result) {
            return Some(result);
        }
        return None;
    }
    let var = min_domain_var(domains, &unassigned);
    assert(d0[var as int].len() > 1) by {
        let j = choose|j: int| 0 <= j < unassigned@.len() && unassigned@[j] == var;
        assert(unassigned@[j] == var);
    }
    let values = if unassigned.len() > 1 {
        lcv_values(problem, domains, var)
    } else {
        copy_domain(&domains[var])
    };
    assert forall|v: i64| values@.contains(v) <==> d0[var as int].contains(v) by {}
    assert(values@.len() > 0) by {
        assert(d0[var as int].contains(d0[var as int][0]));
        assert(values@.contains(d0[var as int][0]));
    }
    let mut t: usize = 0;
    while t < values.len()
        invariant
            p == problem@,
            cs == p.constraints,
            p.well_formed(),
            d0.len() == p.n(),
            var < d0.len(),
            d0[var as int].len() > 1,
            referenced_nonempty_in(p, d0),
            forall|t: int|
                0 <= t < unassigned@.len() ==> #[trigger] unassigned@[t] < d0.len() && d0[unassigned@[t] as int].len() > 1,
            dviews(domains@) == d0,
            d0 == dviews(old(domains)@),
            old(domains)@.len() == d0.len(),
            domains@.len() == d0.len(),
            forall|v: i64| values@.contains(v) <==> d0[var as int].contains(v),
            t <= values@.len(),
            stats.nodes_visited >= old(stats).nodes_visited,
            t > 0 ==> stats.nodes_visited > 0,
            binary_symmetric(cs) ==> forall|m: Map<usize, i64>|
                #[trigger] p.solution_within(d0, m) ==> !values@.take(t as int).contains(m[var]),
        decreases values@.len() - t,
    {
        let val = values[t];
        bump(&mut stats.nodes_visited);
        let saved = copy_domains(domains);
        let one = vec![val];
        assert(one@ =~= seq![val]);
        domains.set(var, one);
        let ghost d1 = dviews(domains@);
        assert(d1 =~= d0.update(var as int, seq![val]));
        assert(values@.contains(val)) by {
            assert(values@[t as int] == val);
        }
        assert(d0[var as int].contains(val));
        proof {
            lemma_total_len_update(d0, var as int, seq![val]);
        }
        // Forward-check the other undecided variables.
        let mut consistent = true;
        let mut u: usize = 0;
        let ghost nv = stats.nodes_visited;
        assert(nv > 0);
        while u < unassigned.len()
            invariant_except_break
                p == problem@,
                cs == p.constraints,
                consistent,
                var < d0.len(),
                d1.len() == d0.len(),
                d1[var as int] == seq![val],
                domains@.len() == d0.len(),
                forall|t: int|
                    0 <= t < unassigned@.len() ==> #[trigger] unassigned@[t] < d0.len(),
                narrows(d1, dviews(domains@)),
                same_empties(d1, dviews(domains@)),
                forall|i: int| 0 <= i < d1.len() ==> (#[trigger] dviews(domains@)[i]).len() <= d1[i].len(),
                dviews(domains@)[var as int] == seq![val],
                binary_symmetric(cs) ==> forall|m: Map<usize, i64>|
                    #[trigger] p.solution_within(d1, m) ==> p.solution_within(dviews(domains@), m),
            invariant
                stats.nodes_visited == nv,
            ensures
                consistent ==> {
                    &&& domains@.len() == d0.len()
                    &&& narrows(d1, dviews(domains@))
                    &&& same_empties(d1, dviews(domains@))
                    &&& forall|i: int| 0 <= i < d1.len() ==> (#[trigger] dviews(domains@)[i]).len() <= d1[i].len()
                    &&& binary_symmetric(cs) ==> forall|m: Map<usize, i64>|
                        #[trigger] p.solution_within(d1, m) ==> p.solution_within(dviews(domains@), m)
                },
                !consistent ==> (binary_symmetric(cs) ==> !solvable_within(p, d1)),
            decreases unassigned@.len() - u,
        {
            let nb = unassigned[u];
            if nb != var {
                let ghost dold = dviews(domains@);
                let saved_nb = copy_domain(&domains[nb]);
                assert(domains@[var as int]@ == seq![val]);
                let revised = forward_check(problem, domains, var, nb);
                bump(&mut stats.propagations);
                let ghost dnew = dviews(domains@);
                proof {
                    let pred = |vb: i64| cs[first_between(cs, var, nb)->0].binary_check().holds(
                        dold[var as int][0],
                        vb,
                    );
                    lemma_first_between(cs, var, nb);
                    if first_between(cs, var, nb) is Some {
                        dold[nb as int].lemma_filter_len(pred);
                    }
                    assert forall|i: int, v: i64|
                        0 <= i < d1.len() && #[trigger] dnew[i].contains(v) implies d1[i].contains(v) by {
                        if i == nb && first_between(cs, var, nb) is Some {
                            let j = choose|j: int| 0 <= j < dnew[i].len() && dnew[i][j] == v;
                            crate::ac3::lemma_filter_subset(dold[nb as int], pred, j);
                        }
                        assert(dold[i].contains(v));
                    }
                    assert forall|i: int| 0 <= i < d1.len() implies (#[trigger] dnew[i]).len() <= d1[i].len() by {
                        assert(dold[i].len() <= d1[i].len());
                    }
                    if binary_symmetric(cs) {
                        assert forall|m: Map<usize, i64>| #[trigger]
                            p.solution_within(d1, m) implies (p.solution_within(dold, m) && (m.contains_key(nb)
                            ==> dnew[nb as int].contains(m[nb]))) by {
                            if m.contains_key(nb) {
                                assert(m.contains_key(var));
                                assert(d1[var as int].contains(m[var]));
                                assert(m[var] == dold[var as int][0]);
                                assert(dold[nb as int].contains(m[nb]));
                                lemma_fc_sound(p, dold, var, nb, m);
                            }
                        }
                    }
                }
                if revised && domains[nb].len() == 0 {
                    proof {
                        if binary_symmetric(cs) {
                            assert forall|m: Map<usize, i64>| !(#[trigger] p.solution_within(d1, m)) by {
                                if p.solution_within(d1, m) {
                                    assert(dold[nb as int].len() > 0);
                                    assert(d1[nb as int].len() > 0);
                                    assert(m.contains_key(nb));
                                }
                            }
                        }
                    }
                    consistent = false;
                    domains.set(nb, saved_nb);
                    break;
                }
                proof {
                    assert(same_empties(d1, dnew)) by {
                        assert forall|i: int| 0 <= i < d1.len() implies (#[trigger] d1[i].len() > 0 <==> dnew[i].len() > 0) by {
                            assert(d1[i].len() > 0 <==> dold[i].len() > 0);
                            if i == nb && !revised {
                                assert(dnew[i].len() == dold[i].len());
                            }
                        }
                    }
                    if binary_symmetric(cs) {
                        assert forall|m: Map<usize, i64>| #[trigger]
                            p.solution_within(d1, m) implies p.solution_within(dnew, m) by {
                            assert(p.solution_within(dold, m));
                            assert forall|i: usize| #[trigger] m.contains_key(i) implies dnew[i as int].contains(m[i]) by {
                                assert(dold[i as int].contains(m[i]));
                            }
                            assert forall|i: usize| #[trigger] m.contains_key(i) <==> (i < dnew.len() && dnew[i as int].len() > 0) by {
                                if i < dnew.len() {
                                    assert(d1[i as int].len() > 0 <==> dnew[i as int].len() > 0);
                                }
                            }
                        }
                    }
                    assert(dnew[var as int] == seq![val]);
                }
            }
            u = u + 1;
        }
        if consistent {
            let ghost d2 = dviews(domains@);
            proof {
                lemma_total_len_mono(d1, d2);
                assert forall|k: int, s: int|
                    0 <= k < p.constraints.len() && 0 <= s < p.constraints[k].vars().len()
                        implies d2[#[trigger] p.constraints[k].vars()[s] as int].len() > 0 by {
                    let v = p.constraints[k].vars()[s];
                    assert(d0[v as int].len() > 0);
                    assert(d1[v as int].len() > 0);
                }
            }
            match backtrack_mrv_fc(problem, domains, stats) {
                Some(rest) => {
                    proof {
                        lemma_within_narrow(p, d1, d2, rest@);
                        lemma_within_assign(p, d0, var, val, rest@);
                    }
                    let ghost before = rest@;
                    assert(before.contains_key(var) && before[var] == val);
                    let mut rest = rest;
                    rest.insert(var, val);
                    assert(rest@ =~= before);
                    return Some(rest);
                },
                None => {},
            }
        } else {
            bump(&mut stats.backtracks);
        }
        proof {
            if binary_symmetric(cs) {
                assert forall|m: Map<usize, i64>| #[trigger]
                    p.solution_within(d0, m) implies !values@.take(t + 1).contains(m[var]) by {
                    lemma_within_assign(p, d0, var, val, m);
                    assert(m.contains_key(var));
                    if m[var] == val {
                        assert(p.solution_within(d1, m));
                        if consistent {
                            assert(p.solution_within(dviews(domains@), m));
                        }
                    }
                    assert(values@.take(t + 1) =~= values@.take(t as int).push(val));
                }
            }
        }
        *domains = saved;
        t = t + 1;
    }
    proof {
        if binary_symmetric(cs) {
            assert(values@.take(t as int) =~= values@);
            assert forall|m: Map<usize, i64>| !(#[trigger] p.solution_within(d0, m)) by {
                if p.solution_within(d0, m) {
                    assert(m.contains_key(var));
                    assert(d0[var as int].contains(m[var]));
                    assert(values@.contains(m[var]));
                }
            }
        }
    }
    None
}


/// Solves with AC-3 preprocessing, then MRV search with forward checking and
/// least-constraining-value ordering. Returns only solutions; when every binary
/// constraint is symmetric (`!=`, `==`), returns `None` exactly when the
/// problem has no solution.
pub fn solve_bt_fc(problem: &ConstraintProblem) -> (r: Option<HashMap<usize, i64>>)
    requires
        problem@.well_formed(),
        problem@.referenced_nonempty(),
    ensures
        match r {
            Some(m) => problem@.is_solution(m@),
            None => binary_symmetric(problem@.constraints) ==> !problem@.solvable(),
        },
{
    let mut stats = SolverStats::new();
    let start = now();
    let mut domains = initial_domains(problem);
    let ghost p = problem@;
    let ghost d0 = dviews(domains@);
    proof {
        lemma_referenced_nonempty(problem@);
        lemma_solvable(problem@);
        if binary_symmetric(p.constraints) {
            lemma_symmetric_orientation(p.constraints);
        }
    }
    assert(d0.len() == domains@.len());
    if !enforce_ac3(problem, &mut domains) {
        return None;
    }
    let ghost d1 = dviews(domains@);
    proof {
        assert forall|k: int, s: int|
            0 <= k < p.constraints.len() && 0 <= s < p.constraints[k].vars().len()
                implies d1[#[trigger] p.constraints[k].vars()[s] as int].len() > 0 by {
            let v = p.constraints[k].vars()[s];
            assert(d0[v as int].len() > 0);
        }
    }
    let result = backtrack_mrv_fc(problem, &mut domains, &mut stats);
    stats.elapsed = elapsed_since(&start);
    proof {
        match &result {
            Some(m) => {
                lemma_within_narrow(p, d0, d1, m@);
            },
            None => {
                if binary_symmetric(p.constraints) && p.solvable() {
                    let m = choose|m: Map<usize, i64>| p.solution_within(d0, m);
                    assert(p.solution_within(d1, m));
                }
            },
        }
    }
    result
}

/// The problem has two different solutions.
pub open spec fn has_two_solutions(p: ProblemView) -> bool {
    exists|m1: Map<usize, i64>, m2: Map<usize, i64>|
        #![trigger p.is_solution(m1), p.is_solution(m2)]
        p.is_solution(m1) && p.is_solution(m2) && m1 != m2
}

/// Two different solutions within `d` leave some domain with two values.
proof fn lemma_two_solutions_choice(p: ProblemView, d: Seq<Seq<i64>>, m1: Map<usize, i64>, m2: Map<usize, i64>)
    requires
        p.solution_within(d, m1),
        p.solution_within(d, m2),
        m1 != m2,
    ensures
        exists|i: int| 0 <= i < d.len() && #[trigger] d[i].len() > 1,
{
    if forall|i: usize| #[trigger] m1.contains_key(i) ==> m1[i] == m2[i] {
        assert(m1 =~= m2) by {
            assert forall|i: usize| m1.contains_key(i) <==> m2.contains_key(i) by {}
        }
    }
    let i = choose|i: usize| #[trigger] m1.contains_key(i) && m1[i] != m2[i];
    assert(m2.contains_key(i));
    assert(d[i as int].contains(m1[i]) && d[i as int].contains(m2[i]));
    assert(d[i as int].len() > 1) by {
        if d[i as int].len() <= 1 {
            let a = choose|a: int| 0 <= a < d[i as int].len() && d[i as int][a] == m1[i];
            let b = choose|b: int| 0 <= b < d[i as int].len() && d[i as int][b] == m2[i];
        }
    }
}

/// With every domain non-empty, every variable a constraint names has values.
proof fn lemma_all_nonempty_referenced(p: ProblemView, d: Seq<Seq<i64>>)
    requires
        p.well_formed(),
        d.len() == p.n(),
        all_nonempty(d),
    ensures
        referenced_nonempty_in(p, d),
{
    assert forall|k: int, t: int|
        0 <= k < p.constraints.len() && 0 <= t < p.constraints[k].vars().len()
            implies d[#[trigger] p.constraints[k].vars()[t] as int].len() > 0 by {
        let v = p.constraints[k].vars()[t];
        assert(v < p.n());
    }
}

/// Solves according to `config` and reports search statistics: optional AC-3
/// preprocessing, then MRV with forward checking, MRV alone, or chronological
/// backtracking. Returns only solutions (assigning every variable when MRV is
/// off); with neither MRV nor AC-3 it returns the first solution in index and
/// domain order, as `solve_bt` does. Returns `None` exactly when there is no such solution, provided the
/// constraints fit the chosen pruning: orientation-sound constraints with
/// AC-3, symmetric binary constraints with forward checking. A problem with
/// two different solutions (that AC-3, when on, cannot prune) leaves the
/// search a choice, so at least one node is visited.
pub fn solve_with_stats(problem: &ConstraintProblem, config: &SolverConfig) -> (r: (
    Option<HashMap<usize, i64>>,
    SolverStats,
))
    requires
        problem@.well_formed(),
        config.use_mrv ==> problem@.referenced_nonempty(),
    ensures
        match r.0 {
            Some(m) => problem@.is_solution(m@) && (!config.use_mrv ==> problem@.all_domains_nonempty())
                && (!config.use_mrv && !config.use_ac3 ==> first_solution_within(
                problem@,
                problem@.domains(),
                m@,
            )),
            None => (config.use_ac3 ==> orientation_sound(problem@.constraints)) && (config.use_mrv
                && config.use_forward_checking ==> binary_symmetric(problem@.constraints)) ==> !(
            problem@.solvable() && (!config.use_mrv ==> problem@.all_domains_nonempty())),
        },
        has_two_solutions(problem@) && (config.use_ac3 ==> orientation_sound(problem@.constraints)) && (
        !config.use_mrv ==> problem@.all_domains_nonempty()) ==> r.1.nodes_visited > 0,
{
    let start = now();
    let mut stats = SolverStats::new();
    let mut domains = initial_domains(problem);
    let ghost p = problem@;
    let ghost d0 = dviews(domains@);
    proof {
        if config.use_mrv {
            lemma_referenced_nonempty(problem@);
        }
        lemma_solvable(problem@);
        lemma_domains_nonempty(problem@);
    }
    assert(d0.len() == domains@.len());
    if config.use_ac3 {
        bump(&mut stats.propagations);
        if !enforce_ac3(problem, &mut domains) {
            proof {
                if has_two_solutions(p) && orientation_sound(p.constraints) && (!config.use_mrv
                    ==> p.all_domains_nonempty()) {
                    if !config.use_mrv {
                        lemma_all_nonempty_referenced(p, d0);
                    }
                    let (m1, m2) = choose|m1: Map<usize, i64>, m2: Map<usize, i64>|
                        #![trigger p.is_solution(m1), p.is_solution(m2)]
                        p.is_solution(m1) && p.is_solution(m2) && m1 != m2;
                    assert(p.solution_within(d0, m1));
                }
            }
            stats.elapsed = elapsed_since(&start);
            return (None, stats);
        }
    }
    let ghost d1 = dviews(domains@);
    assert(narrows(d0, d1) && same_empties(d0, d1)) by {
        if !config.use_ac3 {
            assert(d1 == d0);
        }
    }
    proof {
        if config.use_mrv {
            assert forall|k: int, s: int|
                0 <= k < p.constraints.len() && 0 <= s < p.constraints[k].vars().len()
                    implies d1[#[trigger] p.constraints[k].vars()[s] as int].len() > 0 by {
                let v = p.constraints[k].vars()[s];
                assert(d0[v as int].len() > 0);
            }
        }
        assert(all_nonempty(d0) == all_nonempty(d1)) by {
            if all_nonempty(d0) {
                assert forall|i: int| 0 <= i < d1.len() implies #[trigger] d1[i].len() > 0 by {
                    assert(d0[i].len() > 0);
                }
            }
            if all_nonempty(d1) {
                assert forall|i: int| 0 <= i < d0.len() implies #[trigger] d0[i].len() > 0 by {
                    assert(d1[i].len() > 0);
                }
            }
        }
        if (config.use_ac3 ==> orientation_sound(p.constraints)) && p.solvable() && (config.use_mrv
            || all_nonempty(d0)) {
            if !config.use_mrv {
                assert forall|k: int, s: int|
                    0 <= k < p.constraints.len() && 0 <= s < p.constraints[k].vars().len()
                        implies d0[#[trigger] p.constraints[k].vars()[s] as int].len() > 0 by {
                    let v = p.constraints[k].vars()[s];
                    assert(v < p.n());
                }
            }
            let m = choose|m: Map<usize, i64>| p.solution_within(d0, m);
            if !config.use_ac3 {
                assert(d1 == d0);
            }
            assert(p.solution_within(d1, m));
            assert(solvable_within(p, d1));
        }
    }
    let result = if config.use_mrv && config.use_forward_checking {
        backtrack_mrv_fc(problem, &mut domains, &mut stats)
    } else if config.use_mrv {
        backtrack_mrv(problem, &mut domains, &mut stats)
    } else {
        let mut order: Vec<usize> = Vec::new();
        let mut i: usize = 0;
        while i < problem.var_count()
            invariant
                i <= problem@.n(),
                order@.len() == i,
                forall|t: int| 0 <= t < i ==> order@[t] == t,
            decreases problem@.n() - i,
        {
            order.push(i);
            i = i + 1;
        }
        backtrack(problem, &mut domains, &order, 0, &mut stats)
    };
    proof {
        match &result {
            Some(m) => {
                lemma_within_narrow(p, d0, d1, m@);
            },
            None => {},
        }
    }
    proof {
        if has_two_solutions(p) && (config.use_ac3 ==> orientation_sound(p.constraints)) && (!config.use_mrv
            ==> p.all_domains_nonempty()) {
            if !config.use_mrv {
                lemma_all_nonempty_referenced(p, d0);
            }
            let (m1, m2) = choose|m1: Map<usize, i64>, m2: Map<usize, i64>|
                #![trigger p.is_solution(m1), p.is_solution(m2)]
                p.is_solution(m1) && p.is_solution(m2) && m1 != m2;
            assert(p.solution_within(d0, m1) && p.solution_within(d0, m2));
            if !config.use_ac3 {
                assert(d1 == d0);
            }
            assert(p.solution_within(d1, m1) && p.solution_within(d1, m2));
            lemma_two_solutions_choice(p, d1, m1, m2);
            if !config.use_mrv {
                let i = choose|i: int| 0 <= i < d1.len() && #[trigger] d1[i].len() > 1;
                assert(d0[0].len() > 0);
                assert(d1[0].len() > 0);
            }
        }
    }
    stats.elapsed = elapsed_since(&start);
    (result, stats)
}

} // verus!
