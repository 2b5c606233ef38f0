//! AC-3 arc consistency over the binary constraints of a problem.
use vstd::prelude::*;
use std::collections::VecDeque;
use crate::csp::{BinaryCheck, Constraint, ConstraintProblem, ConstraintView, ProblemView};

verus! {

// ---------------------------------------------------------------------------
// Specification
// ---------------------------------------------------------------------------

/// Views of a sequence of domains.
pub open spec fn dviews(d: Seq<Vec<i64>>) -> Seq<Seq<i64>> {
    d.map_values(|v: Vec<i64>| v@)
}

impl ConstraintView {
    /// The constraint is binary with orientation `(x, y)`.
    pub open spec fn is_arc(self, x: usize, y: usize) -> bool {
        self matches ConstraintView::Binary { a, b, .. } && a == x && b == y
    }

    /// The relation of a binary constraint (meaningless for other kinds).
    pub open spec fn binary_check(self) -> BinaryCheck {
        match self {
            ConstraintView::Binary { check, .. } => check,
            _ => BinaryCheck::Neq,
        }
    }
}

/// Index of the first binary constraint at or after `k` that relates `x` and `y`.
pub open spec fn first_between_from(cs: Seq<ConstraintView>, x: usize, y: usize, k: nat) -> Option<
    int,
>
    decreases cs.len() - k,
{
    if k >= cs.len() {
        None
    } else if cs[k as int].is_binary_between(x, y) {
        Some(k as int)
    } else {
        first_between_from(cs, x, y, k + 1)
    }
}

/// Index of the first binary constraint relating `x` and `y`, in either orientation.
pub open spec fn first_between(cs: Seq<ConstraintView>, x: usize, y: usize) -> Option<int> {
    first_between_from(cs, x, y, 0)
}

/// Some binary constraint has orientation `(x, y)`.
pub open spec fn has_arc(cs: Seq<ConstraintView>, x: usize, y: usize) -> bool {
    exists|k: int| 0 <= k < cs.len() && #[trigger] cs[k].is_arc(x, y)
}

/// The relation by which a value `vx` of `x` is supported by a value `vy` of
/// `y`: the relation of the first binary constraint between them, read in the
/// orientation `(x, y)` when some constraint has that orientation and reversed
/// otherwise.
pub open spec fn arc_relation(cs: Seq<ConstraintView>, x: usize, y: usize, vx: i64, vy: i64) -> bool {
    match first_between(cs, x, y) {
        None => true,
        Some(k) => if has_arc(cs, x, y) {
            cs[k].binary_check().holds(vx, vy)
        } else {
            cs[k].binary_check().holds(vy, vx)
        },
    }
}

/// `vx` has a supporting value in `dy`.
pub open spec fn supported(cs: Seq<ConstraintView>, x: usize, y: usize, vx: i64, dy: Seq<i64>) -> bool {
    exists|t: int| 0 <= t < dy.len() && arc_relation(cs, x, y, vx, #[trigger] dy[t])
}

/// The domain of `x` after removing values without support in the domain of `y`.
pub open spec fn revised_domain(cs: Seq<ConstraintView>, d: Seq<Seq<i64>>, x: usize, y: usize) -> Seq<
    i64,
> {
    match first_between(cs, x, y) {
        None => d[x as int],
        Some(_) => d[x as int].filter(|vx: i64| supported(cs, x, y, vx, d[y as int])),
    }
}

/// Every value of `x` has a support in the domain of `y`.
pub open spec fn arc_supported(cs: Seq<ConstraintView>, d: Seq<Seq<i64>>, x: usize, y: usize) -> bool {
    first_between(cs, x, y) is None || forall|t: int|
        0 <= t < d[x as int].len() ==> #[trigger] supported(cs, x, y, d[x as int][t], d[y as int])
}

/// Both arcs of every binary constraint are supported.
pub open spec fn arc_consistent(cs: Seq<ConstraintView>, d: Seq<Seq<i64>>) -> bool {
    forall|k: int, x: usize, y: usize|
        0 <= k < cs.len() && #[trigger] cs[k].is_arc(x, y) ==> arc_supported(cs, d, x, y)
            && arc_supported(cs, d, y, x)
}

/// Two binary constraints relate the same two distinct variables in opposite orientations.
pub open spec fn opposite(c1: ConstraintView, c2: ConstraintView) -> bool {
    &&& c1 matches ConstraintView::Binary { a: a1, b: b1, .. }
    &&& c2 matches ConstraintView::Binary { a: a2, b: b2, .. }
    &&& a1 == b2 && b1 == a2 && a1 != b1
}

/// Whenever two binary constraints relate the same pair in opposite
/// orientations, their relations are symmetric.
pub open spec fn orientation_sound(cs: Seq<ConstraintView>) -> bool {
    forall|k1: int, k2: int|
        0 <= k1 < cs.len() && 0 <= k2 < cs.len() && opposite(#[trigger] cs[k1], #[trigger] cs[k2])
            ==> cs[k1].binary_check().is_symmetric()
}

/// No binary constraint relates a variable to itself.
pub open spec fn no_self_loops(cs: Seq<ConstraintView>) -> bool {
    forall|k: int, x: usize| 0 <= k < cs.len() ==> !(#[trigger] cs[k].is_arc(x, x))
}

/// Every variable a constraint mentions has a non-empty domain in `d`.
pub open spec fn referenced_nonempty_in(p: ProblemView, d: Seq<Seq<i64>>) -> bool {
    forall|k: int, t: int|
        0 <= k < p.constraints.len() && 0 <= t < p.constraints[k].vars().len()
            ==> d[#[trigger] p.constraints[k].vars()[t] as int].len() > 0
}

/// Both variables of every binary constraint are variables of the problem
/// (the only constraints that arc consistency reads).
pub open spec fn binary_in_range(p: ProblemView) -> bool {
    forall|k: int, t: int|
        0 <= k < p.constraints.len() && p.constraints[k] is Binary && 0 <= t < 2
            ==> #[trigger] p.constraints[k].vars()[t] < p.n()
}

/// Domain `d2[i]` only keeps values of `d1[i]`, for every `i`.
pub open spec fn narrows(d1: Seq<Seq<i64>>, d2: Seq<Seq<i64>>) -> bool {
    &&& d1.len() == d2.len()
    &&& forall|i: int, v: i64| 0 <= i < d1.len() && #[trigger] d2[i].contains(v) ==> d1[i].contains(v)
}

/// Each domain `d2[i]` is `d1[i]` filtered by the predicate `keep(i, _)`.
pub open spec fn filtered_by(d1: Seq<Seq<i64>>, d2: Seq<Seq<i64>>, keep: spec_fn(int, i64) -> bool) -> bool {
    &&& d1.len() == d2.len()
    &&& forall|i: int| 0 <= i < d1.len() ==> #[trigger] d2[i] == d1[i].filter(|v: i64| keep(i, v))
}

/// Each domain of `d2` is the matching domain of `d1` filtered by a predicate
/// on values: it keeps the order of `d1[i]`, and every copy of a kept value.
pub open spec fn filtered_from(d1: Seq<Seq<i64>>, d2: Seq<Seq<i64>>) -> bool {
    exists|keep: spec_fn(int, i64) -> bool| #[trigger] filtered_by(d1, d2, keep)
}

/// `d` keeps every value of every arc-consistent family of domains that lies
/// within `d0`: no value that arc consistency allows is ever pruned.
pub open spec fn keeps_consistent(cs: Seq<ConstraintView>, d0: Seq<Seq<i64>>, d: Seq<Seq<i64>>) -> bool {
    forall|e: Seq<Seq<i64>>| narrows(d0, e) && #[trigger] arc_consistent(cs, e) ==> narrows(d, e)
}

/// `d1` and `d2` have the same empty domains.
pub open spec fn same_empties(d1: Seq<Seq<i64>>, d2: Seq<Seq<i64>>) -> bool {
    &&& d1.len() == d2.len()
    &&& forall|i: int| 0 <= i < d1.len() ==> (#[trigger] d1[i].len() > 0 <==> d2[i].len() > 0)
}

/// Total number of values over all domains.
pub open spec fn total_len(d: Seq<Seq<i64>>) -> nat
    decreases d.len(),
{
    if d.len() == 0 {
        0
    } else {
        total_len(d.drop_last()) + d.last().len()
    }
}


/// `vx` and `vy` are related by `check` read in the given orientation.
pub open spec fn oriented_holds(check: BinaryCheck, forward: bool, vx: i64, vy: i64) -> bool {
    if forward {
        check.holds(vx, vy)
    } else {
        check.holds(vy, vx)
    }
}

// ---------------------------------------------------------------------------
// Lemmas
// ---------------------------------------------------------------------------

proof fn lemma_first_between_from(cs: Seq<ConstraintView>, x: usize, y: usize, k: nat)
    ensures
        match first_between_from(cs, x, y, k) {
            Some(j) => k <= j < cs.len() && cs[j].is_binary_between(x, y) && forall|i: int|
                k <= i < j ==> !(#[trigger] cs[i].is_binary_between(x, y)),
            None => forall|i: int| k <= i < cs.len() ==> !(#[trigger] cs[i].is_binary_between(x, y)),
        },
        first_between_from(cs, x, y, k) == first_between_from(cs, y, x, k),
    decreases cs.len() - k,
{
    if k < cs.len() {
        lemma_first_between_from(cs, x, y, k + 1);
        assert(cs[k as int].is_binary_between(x, y) == cs[k as int].is_binary_between(y, x));
    }
}

/// Facts about the first binary constraint between two variables.
pub proof fn lemma_first_between(cs: Seq<ConstraintView>, x: usize, y: usize)
    ensures
        match first_between(cs, x, y) {
            Some(j) => 0 <= j < cs.len() && cs[j].is_binary_between(x, y) && forall|i: int|
                0 <= i < j ==> !(#[trigger] cs[i].is_binary_between(x, y)),
            None => forall|i: int| 0 <= i < cs.len() ==> !(#[trigger] cs[i].is_binary_between(x, y)),
        },
        first_between(cs, x, y) == first_between(cs, y, x),
{
    lemma_first_between_from(cs, x, y, 0);
}

/// Under `orientation_sound`, the relation of arc `(y, x)` is the converse of
/// that of arc `(x, y)`.
pub proof fn lemma_arc_converse(cs: Seq<ConstraintView>, x: usize, y: usize, vx: i64, vy: i64)
    requires
        orientation_sound(cs),
        x != y,
    ensures
        arc_relation(cs, x, y, vx, vy) == arc_relation(cs, y, x, vy, vx),
{
    lemma_first_between(cs, x, y);
    match first_between(cs, x, y) {
        None => {},
        Some(j) => {
            let c = cs[j];
            if has_arc(cs, x, y) && has_arc(cs, y, x) {
                if c.is_arc(x, y) {
                    let k2 = choose|k: int| 0 <= k < cs.len() && #[trigger] cs[k].is_arc(y, x);
                    assert(opposite(cs[j], cs[k2]));
                } else {
                    let k2 = choose|k: int| 0 <= k < cs.len() && #[trigger] cs[k].is_arc(x, y);
                    assert(opposite(cs[j], cs[k2]));
                }
            } else if has_arc(cs, x, y) {
                if c.is_arc(y, x) {
                    assert(has_arc(cs, y, x));
                }
            } else if has_arc(cs, y, x) {
                if c.is_arc(x, y) {
                    assert(has_arc(cs, x, y));
                }
            } else {
                if c.is_arc(x, y) {
                    assert(has_arc(cs, x, y));
                } else {
                    assert(cs[j].is_arc(y, x));
                    assert(has_arc(cs, y, x));
                }
            }
        },
    }
}

/// Every binary constraint holds under `m`.
pub open spec fn binary_holds(cs: Seq<ConstraintView>, m: Map<usize, i64>) -> bool {
    forall|k: int| 0 <= k < cs.len() && cs[k] is Binary ==> #[trigger] cs[k].holds_in(m)
}

/// `s` gives every variable of `d` a value of its domain, and satisfies every
/// binary constraint.
pub open spec fn binary_solution_within(cs: Seq<ConstraintView>, d: Seq<Seq<i64>>, s: Map<usize, i64>) -> bool {
    &&& forall|i: usize| i < d.len() ==> #[trigger] s.contains_key(i) && d[i as int].contains(s[i])
    &&& binary_holds(cs, s)
}

/// A solution's values of two related variables support each other.
pub proof fn lemma_solution_supports(p: ProblemView, m: Map<usize, i64>, x: usize, y: usize)
    requires
        orientation_sound(p.constraints),
        p.satisfied_by(m),
    ensures
        arc_relation(p.constraints, x, y, m[x], m[y]),
{
    lemma_binary_supports(p.constraints, m, x, y);
}

/// Values that satisfy every binary constraint support each other.
pub proof fn lemma_binary_supports(cs: Seq<ConstraintView>, m: Map<usize, i64>, x: usize, y: usize)
    requires
        orientation_sound(cs),
        binary_holds(cs, m),
    ensures
        arc_relation(cs, x, y, m[x], m[y]),
{
    lemma_first_between(cs, x, y);
    match first_between(cs, x, y) {
        None => {},
        Some(j) => {
            assert(cs[j].holds_in(m));
            if has_arc(cs, x, y) && !cs[j].is_arc(x, y) && x != y {
                let k2 = choose|k: int| 0 <= k < cs.len() && #[trigger] cs[k].is_arc(x, y);
                assert(opposite(cs[j], cs[k2]));
            }
            if !has_arc(cs, x, y) && cs[j].is_arc(x, y) {
                assert(has_arc(cs, x, y));
            }
        },
    }
}

/// Replacing one domain changes the total by the difference in lengths.
pub proof fn lemma_total_len_update(d: Seq<Seq<i64>>, i: int, s: Seq<i64>)
    requires
        0 <= i < d.len(),
    ensures
        total_len(d.update(i, s)) + d[i].len() == total_len(d) + s.len(),
    decreases d.len(),
{
    let d2 = d.update(i, s);
    if i == d.len() - 1 {
        assert(d2.drop_last() =~= d.drop_last());
    } else {
        lemma_total_len_update(d.drop_last(), i, s);
        assert(d2.drop_last() =~= d.drop_last().update(i, s));
    }
}

/// A filter that keeps the length keeps every element.
pub proof fn lemma_filter_same_len(s: Seq<i64>, pred: spec_fn(i64) -> bool)
    requires
        s.filter(pred).len() == s.len(),
    ensures
        s.filter(pred) == s,
    decreases s.len(),
{
    reveal_with_fuel(Seq::filter, 1);
    if s.len() > 0 {
        s.drop_last().lemma_filter_len(pred);
        if !pred(s.last()) {
            assert(false);
        }
        lemma_filter_same_len(s.drop_last(), pred);
        assert(s.drop_last().push(s.last()) =~= s);
    }
}


/// Filtering keeps a sequence whose elements all pass.
pub proof fn lemma_filter_all(s: Seq<i64>, pred: spec_fn(i64) -> bool)
    requires
        forall|i: int| 0 <= i < s.len() ==> pred(#[trigger] s[i]),
    ensures
        s.filter(pred) == s,
    decreases s.len(),
{
    reveal_with_fuel(Seq::filter, 1);
    if s.len() > 0 {
        let t = s.drop_last();
        assert forall|i: int| 0 <= i < t.len() implies pred(#[trigger] t[i]) by {
            assert(t[i] == s[i]);
        }
        lemma_filter_all(t, pred);
        assert(pred(s[s.len() - 1]));
        assert(t.push(s.last()) =~= s);
    }
}

/// Under `orientation_sound`, an assignment satisfying the binary constraints
/// within `d0` survives wherever every arc-consistent family survives.
proof fn lemma_binary_solution_kept(cs: Seq<ConstraintView>, d0: Seq<Seq<i64>>, d: Seq<Seq<i64>>, s: Map<usize, i64>)
    requires
        orientation_sound(cs),
        keeps_consistent(cs, d0, d),
        binary_solution_within(cs, d0, s),
        d.len() == d0.len(),
        d0.len() <= usize::MAX,
        forall|k: int, x: usize, y: usize| 0 <= k < cs.len() && #[trigger] cs[k].is_arc(x, y) ==> x < d0.len() && y < d0.len(),
    ensures
        forall|i: int| 0 <= i < d.len() ==> #[trigger] d[i].contains(s[i as usize]),
{
    let e = Seq::new(d0.len(), |i: int| seq![s[i as usize]]);
    assert(narrows(d0, e)) by {
        assert forall|i: int, v: i64| 0 <= i < d0.len() && #[trigger] e[i].contains(v) implies d0[i].contains(v) by {
            assert(e[i] == seq![s[i as usize]]);
            let t = choose|t: int| 0 <= t < e[i].len() && e[i][t] == v;
            assert(v == s[i as usize]);
            assert(s.contains_key(i as usize));
        }
    }
    assert(arc_consistent(cs, e)) by {
        assert forall|k: int, x: usize, y: usize| 0 <= k < cs.len() && #[trigger] cs[k].is_arc(x, y) implies arc_supported(
            cs,
            e,
            x,
            y,
        ) && arc_supported(cs, e, y, x) by {
            lemma_binary_supports(cs, s, x, y);
            lemma_binary_supports(cs, s, y, x);
            if first_between(cs, x, y) is Some {
                assert forall|t: int| 0 <= t < e[x as int].len() implies #[trigger] supported(
                    cs,
                    x,
                    y,
                    e[x as int][t],
                    e[y as int],
                ) by {
                    assert(e[y as int] == seq![s[y]]);
                    assert(e[y as int][0] == s[y]);
                }
            }
            if first_between(cs, y, x) is Some {
                assert forall|t: int| 0 <= t < e[y as int].len() implies #[trigger] supported(
                    cs,
                    y,
                    x,
                    e[y as int][t],
                    e[x as int],
                ) by {
                    assert(e[x as int] == seq![s[x]]);
                    assert(e[x as int][0] == s[x]);
                }
            }
        }
    }
    assert forall|i: int| 0 <= i < d.len() implies #[trigger] d[i].contains(s[i as usize]) by {
        assert(e[i] == seq![s[i as usize]]);
        assert(e[i][0] == s[i as usize]);
        assert(e[i].contains(s[i as usize]));
    }
}

/// After AC-3 keeps every arc-consistent family, every assignment that
/// satisfies the binary constraints within the input domains survives.
proof fn lemma_ac3_keeps_binary_solutions(p: ProblemView, d0: Seq<Seq<i64>>, d: Seq<Seq<i64>>)
    requires
        orientation_sound(p.constraints),
        binary_in_range(p),
        keeps_consistent(p.constraints, d0, d),
        d.len() == d0.len(),
        d0.len() >= p.n(),
        d0.len() <= usize::MAX,
    ensures
        forall|s: Map<usize, i64>| #[trigger] binary_solution_within(p.constraints, d0, s) ==> forall|i: int|
            0 <= i < d.len() ==> #[trigger] d[i].contains(s[i as usize]),
{
    let cs = p.constraints;
    assert forall|k: int, x: usize, y: usize| 0 <= k < cs.len() && #[trigger] cs[k].is_arc(x, y) implies x < d0.len()
        && y < d0.len() by {
        assert(cs[k].vars()[0] == x && cs[k].vars()[1] == y);
    }
    assert forall|s: Map<usize, i64>| #[trigger] binary_solution_within(cs, d0, s) implies forall|i: int|
        0 <= i < d.len() ==> #[trigger] d[i].contains(s[i as usize]) by {
        lemma_binary_solution_kept(cs, d0, d, s);
    }
}

/// Revising an arc keeps every value of every arc-consistent family inside
/// the domains.
proof fn lemma_revise_keeps(
    cs: Seq<ConstraintView>,
    d0: Seq<Seq<i64>>,
    dold: Seq<Seq<i64>>,
    dnew: Seq<Seq<i64>>,
    xi: usize,
    xj: usize,
)
    requires
        keeps_consistent(cs, d0, dold),
        relates(cs, (xi, xj)),
        xi < dold.len(),
        xj < dold.len(),
        dnew == dold.update(xi as int, revised_domain(cs, dold, xi, xj)),
    ensures
        keeps_consistent(cs, d0, dnew),
{
    assert forall|e: Seq<Seq<i64>>| narrows(d0, e) && #[trigger] arc_consistent(cs, e) implies narrows(dnew, e) by {
        assert(narrows(dold, e));
        let k = choose|k: int| 0 <= k < cs.len() && #[trigger] cs[k].is_binary_between(xi, xj);
        assert(cs[k].is_arc(xi, xj) || cs[k].is_arc(xj, xi));
        assert(arc_supported(cs, e, xi, xj));
        assert forall|i: int, v: i64| 0 <= i < dnew.len() && #[trigger] e[i].contains(v) implies dnew[i].contains(v) by {
            assert(dold[i].contains(v));
            if i == xi && first_between(cs, xi, xj) is Some {
                let t = choose|t: int| 0 <= t < e[i].len() && e[i][t] == v;
                assert(supported(cs, xi, xj, e[xi as int][t], e[xj as int]));
                let u = choose|u: int| 0 <= u < e[xj as int].len() && arc_relation(cs, xi, xj, v, #[trigger] e[xj as int][u]);
                assert(e[xj as int].contains(e[xj as int][u]));
                assert(dold[xj as int].contains(e[xj as int][u]));
                let w = choose|w: int| 0 <= w < dold[xj as int].len() && dold[xj as int][w] == e[xj as int][u];
                assert(supported(cs, xi, xj, v, dold[xj as int]));
                let s0 = choose|s0: int| 0 <= s0 < dold[i].len() && dold[i][s0] == v;
                dold[i].lemma_filter_contains(|vx: i64| supported(cs, xi, xj, vx, dold[xj as int]), s0);
            }
        }
    }
}

/// Filtering twice is filtering once by both predicates.
proof fn lemma_filter_filter(s: Seq<i64>, p: spec_fn(i64) -> bool, q: spec_fn(i64) -> bool)
    ensures
        s.filter(p).filter(q) == s.filter(|v: i64| p(v) && q(v)),
    decreases s.len(),
{
    reveal_with_fuel(Seq::filter, 1);
    if s.len() > 0 {
        let t = s.drop_last();
        lemma_filter_filter(t, p, q);
        let f = t.filter(p);
        if p(s.last()) {
            assert(f.push(s.last()).drop_last() =~= f);
        }
    }
}

/// Every element of a filter comes from the filtered sequence.
pub proof fn lemma_filter_subset(s: Seq<i64>, pred: spec_fn(i64) -> bool, i: int)
    requires
        0 <= i < s.filter(pred).len(),
    ensures
        s.contains(s.filter(pred)[i]),
    decreases s.len(),
{
    reveal_with_fuel(Seq::filter, 1);
    if s.len() > 0 {
        let sub = s.drop_last().filter(pred);
        s.drop_last().lemma_filter_len(pred);
        if i < sub.len() {
            lemma_filter_subset(s.drop_last(), pred, i);
            let j = choose|j: int| 0 <= j < s.drop_last().len() && s.drop_last()[j] == sub[i];
            assert(s[j] == s.filter(pred)[i]);
        } else {
            assert(s[s.len() - 1] == s.filter(pred)[i]);
        }
    }
}

/// Each arc of each binary constraint is waiting in the queue or supported.
pub open spec fn worklist_ok(cs: Seq<ConstraintView>, d: Seq<Seq<i64>>, q: Seq<(usize, usize)>) -> bool {
    forall|k: int, x: usize, y: usize|
        0 <= k < cs.len() && #[trigger] cs[k].is_arc(x, y) ==> (q.contains((x, y)) || arc_supported(
            cs,
            d,
            x,
            y,
        )) && (q.contains((y, x)) || arc_supported(cs, d, y, x))
}

/// Every queued pair is an arc of some binary constraint.
pub open spec fn queue_of_arcs(cs: Seq<ConstraintView>, q: Seq<(usize, usize)>) -> bool {
    forall|t: int| 0 <= t < q.len() ==> #[trigger] relates(cs, q[t])
}

/// Some binary constraint relates the two variables of `pair`.
pub open spec fn relates(cs: Seq<ConstraintView>, pair: (usize, usize)) -> bool {
    exists|k: int| 0 <= k < cs.len() && #[trigger] cs[k].is_binary_between(pair.0, pair.1)
}

/// After revising arc `(xi, xj)` taken from the front of the queue and
/// re-queueing the arcs into `xi`, each arc `(u, w)` is waiting or supported.
proof fn lemma_arc_after_revise(
    cs: Seq<ConstraintView>,
    dold: Seq<Seq<i64>>,
    dnew: Seq<Seq<i64>>,
    q0: Seq<(usize, usize)>,
    q2: Seq<(usize, usize)>,
    xi: usize,
    xj: usize,
    u: usize,
    w: usize,
)
    requires
        orientation_sound(cs),
        no_self_loops(cs),
        u != w,
        xi != xj,
        xi < dold.len(),
        xj < dold.len(),
        u < dold.len(),
        w < dold.len(),
        q0.len() > 0,
        q0[0] == (xi, xj),
        dnew == dold.update(xi as int, revised_domain(cs, dold, xi, xj)),
        forall|t: int| 1 <= t < q0.len() ==> q2.contains(#[trigger] q0[t]),
        dnew[xi as int].len() != dold[xi as int].len() ==> (w == xi && u != xj ==> q2.contains(
            (u, w),
        )),
        q0.contains((u, w)) || arc_supported(cs, dold, u, w),
    ensures
        q2.contains((u, w)) || arc_supported(cs, dnew, u, w),
{
    lemma_first_between(cs, xi, xj);
    lemma_first_between(cs, u, w);
    let changed = dnew[xi as int].len() != dold[xi as int].len();
    let pred = |vx: i64| supported(cs, xi, xj, vx, dold[xj as int]);
    if first_between(cs, xi, xj) is Some {
        dold[xi as int].lemma_filter_len(pred);
        if !changed {
            lemma_filter_same_len(dold[xi as int], pred);
        }
    }
    // Membership in the queue, except at the front, survives.
    if q0.contains((u, w)) && (u, w) != (xi, xj) {
        let t = choose|t: int| 0 <= t < q0.len() && q0[t] == (u, w);
        assert(t != 0);
        assert(q2.contains(q0[t]));
        return;
    }
    if first_between(cs, u, w) is None {
        return;
    }
    if !changed {
        assert(dnew =~= dold);
        if (u, w) == (xi, xj) && first_between(cs, xi, xj) is Some {
            assert forall|t: int| 0 <= t < dnew[u as int].len() implies #[trigger] supported(
                cs,
                u,
                w,
                dnew[u as int][t],
                dnew[w as int],
            ) by {
                dold[xi as int].lemma_filter_pred(pred, t);
            }
        }
        return;
    }
    // The domain of `xi` shrank.
    assert(first_between(cs, xi, xj) is Some);
    if u == xi && w == xj {
        assert forall|t: int| 0 <= t < dnew[u as int].len() implies #[trigger] supported(
            cs,
            u,
            w,
            dnew[u as int][t],
            dnew[w as int],
        ) by {
            dold[xi as int].lemma_filter_pred(pred, t);
        }
    } else if w == xi {
        if u != xj {
            return;
        }
        // Arc (xj, xi): supports of xj's values survive, by the converse relation.

        assert(arc_supported(cs, dold, u, w));
        assert forall|t: int| 0 <= t < dnew[u as int].len() implies #[trigger] supported(
            cs,
            u,
            w,
            dnew[u as int][t],
            dnew[w as int],
        ) by {
            let vy = dold[u as int][t];
            assert(supported(cs, u, w, vy, dold[w as int]));
            let s = choose|s: int|
                0 <= s < dold[w as int].len() && arc_relation(cs, u, w, vy, #[trigger] dold[w as int][s]);
            let vx = dold[w as int][s];
            lemma_arc_converse(cs, xi, xj, vx, vy);
            assert(supported(cs, xi, xj, vx, dold[xj as int]));
            dold[xi as int].lemma_filter_contains(pred, s);
            let r = choose|r: int| 0 <= r < dnew[w as int].len() && dnew[w as int][r] == vx;
            assert(arc_relation(cs, u, w, vy, dnew[w as int][r]));
        }
    } else if u == xi {
        assert(arc_supported(cs, dold, u, w));
        assert forall|t: int| 0 <= t < dnew[u as int].len() implies #[trigger] supported(
            cs,
            u,
            w,
            dnew[u as int][t],
            dnew[w as int],
        ) by {
            lemma_filter_subset(dold[xi as int], pred, t);
            let vx = dnew[u as int][t];
            let s = choose|s: int| 0 <= s < dold[u as int].len() && dold[u as int][s] == vx;
            assert(supported(cs, u, w, dold[u as int][s], dold[w as int]));
        }
    } else {
        assert(dnew[u as int] == dold[u as int]);
        assert(dnew[w as int] == dold[w as int]);
    }
}

// ---------------------------------------------------------------------------
// Implementation
// ---------------------------------------------------------------------------

/// The relation of the first binary constraint between `x` and `y`, if any.
pub(crate) fn find_binary_between(problem: &ConstraintProblem, x: usize, y: usize) -> (r: Option<
    BinaryCheck,
>)
    ensures
        match first_between(problem@.constraints, x, y) {
            None => r is None,
            Some(k) => r == Some(problem@.constraints[k].binary_check()),
        },
{
    let ghost cs = problem@.constraints;
    let mut k: usize = 0;
    while k < problem.constraints.len()
        invariant
            cs == problem@.constraints,
            k <= cs.len(),
            first_between(cs, x, y) == first_between_from(cs, x, y, k as nat),
        decreases cs.len() - k,
    {
        assert(cs[k as int] == problem.constraints@[k as int]@);
        match &problem.constraints[k] {
            Constraint::Binary { a, b, check, .. } => {
                if (*a == x && *b == y) || (*a == y && *b == x) {
                    return Some(*check);
                }
            },
            _ => {},
        }
        k = k + 1;
    }
    None
}

/// Whether some binary constraint has orientation `(x, y)`.
fn has_forward_arc(problem: &ConstraintProblem, x: usize, y: usize) -> (r: bool)
    ensures
        r == has_arc(problem@.constraints, x, y),
{
    let ghost cs = problem@.constraints;
    let mut k: usize = 0;
    while k < problem.constraints.len()
        invariant
            cs == problem@.constraints,
            k <= cs.len(),
            forall|j: int| 0 <= j < k ==> !(#[trigger] cs[j].is_arc(x, y)),
        decreases cs.len() - k,
    {
        assert(cs[k as int] == problem.constraints@[k as int]@);
        match &problem.constraints[k] {
            Constraint::Binary { a, b, .. } => {
                if *a == x && *b == y {
                    assert(cs[k as int].is_arc(x, y));
                    return true;
                }
            },
            _ => {},
        }
        k = k + 1;
    }
    false
}

/// Whether some value of `dy` is related to `vx`.
fn has_support(check: BinaryCheck, forward: bool, vx: i64, dy: &Vec<i64>) -> (r: bool)
    ensures
        r == exists|t: int| 0 <= t < dy@.len() && oriented_holds(check, forward, vx, #[trigger] dy@[t]),
{
    let mut t: usize = 0;
    while t < dy.len()
        invariant
            t <= dy@.len(),
            forall|i: int| 0 <= i < t ==> !oriented_holds(check, forward, vx, #[trigger] dy@[i]),
        decreases dy@.len() - t,
    {
        let vy = dy[t];
        let ok = if forward {
            check.check(vx, vy)
        } else {
            check.check(vy, vx)
        };
        if ok {
            return true;
        }
        t = t + 1;
    }
    false
}

/// Removes from the domain of `xi` the values with no support in the domain of
/// `xj`. Returns whether anything was removed.
fn revise(problem: &ConstraintProblem, domains: &mut Vec<Vec<i64>>, xi: usize, xj: usize) -> (changed:
    bool)
    requires
        xi < old(domains)@.len(),
        xj < old(domains)@.len(),
    ensures
        final(domains)@.len() == old(domains)@.len(),
        forall|i: int|
            0 <= i < old(domains)@.len() && i != xi ==> final(domains)@[i] == old(domains)@[i],
        final(domains)@[xi as int]@ == revised_domain(
            problem@.constraints,
            dviews(old(domains)@),
            xi,
            xj,
        ),
        changed == (final(domains)@[xi as int]@.len() != old(domains)@[xi as int]@.len()),
{
    let ghost cs = problem@.constraints;
    let ghost d = dviews(domains@);
    let check = find_binary_between(problem, xi, xj);
    match check {
        None => false,
        Some(chk) => {
            let forward = has_forward_arc(problem, xi, xj);
            let ghost k = first_between(cs, xi, xj)->0;
            let mut kept: Vec<i64> = Vec::new();
            let n = domains[xi].len();
            let mut t: usize = 0;
            while t < n
                invariant
                    n == d[xi as int].len(),
                    d == dviews(domains@),
                    xi < domains@.len(),
                    xj < domains@.len(),
                    first_between(cs, xi, xj) == Some(k),
                    chk == cs[k].binary_check(),
                    forward == has_arc(cs, xi, xj),
                    t <= n,
                    kept@ == d[xi as int].take(t as int).filter(
                        |vx: i64| supported(cs, xi, xj, vx, d[xj as int]),
                    ),
                decreases n - t,
            {
                proof {
                    reveal_with_fuel(Seq::filter, 1);
                }
                let vx = domains[xi][t];
                let ok = has_support(chk, forward, vx, &domains[xj]);
                assert(ok == supported(cs, xi, xj, vx, d[xj as int])) by {
                    if ok {
                        let w = choose|w: int|
                            0 <= w < d[xj as int].len() && oriented_holds(
                                chk,
                                forward,
                                vx,
                                #[trigger] d[xj as int][w],
                            );
                        assert(arc_relation(cs, xi, xj, vx, d[xj as int][w]));
                    }
                    if supported(cs, xi, xj, vx, d[xj as int]) {
                        let w = choose|w: int|
                            0 <= w < d[xj as int].len() && arc_relation(
                                cs,
                                xi,
                                xj,
                                vx,
                                #[trigger] d[xj as int][w],
                            );
                        assert(oriented_holds(chk, forward, vx, domains@[xj as int]@[w]));
                    }
                }
                let ghost pre = d[xi as int].take(t as int);
                let ghost cur = d[xi as int].take(t + 1);
                assert(cur.drop_last() =~= pre);
                assert(cur.last() == vx);
                if ok {
                    kept.push(vx);
                }
                t = t + 1;
            }
            assert(d[xi as int].take(n as int) =~= d[xi as int]);
            let changed = kept.len() != n;
            domains.set(xi, kept);
            changed
        },
    }
}


/// Enforces arc consistency on the binary constraints of `problem`, pruning
/// `domains` in place. Returns `false` when some domain is emptied
/// (the problem is then unsatisfiable within `domains`).
///
/// Values are only ever removed: each domain is filtered by a predicate on
/// values, so what stays keeps its order. Only the binary constraints are
/// read. Under `orientation_sound`, no value that
/// belongs to a solution is removed; with no self-loops as well, a `true`
/// result leaves the domains arc consistent.
pub fn enforce_ac3(problem: &ConstraintProblem, domains: &mut Vec<Vec<i64>>) -> (r: bool)
    requires
        binary_in_range(problem@),
        old(domains)@.len() >= problem@.n(),
    ensures
        narrows(dviews(old(domains)@), dviews(final(domains)@)),
        filtered_from(dviews(old(domains)@), dviews(final(domains)@)),
        keeps_consistent(problem@.constraints, dviews(old(domains)@), dviews(final(domains)@)),
        orientation_sound(problem@.constraints) ==> forall|s: Map<usize, i64>|
            #[trigger] binary_solution_within(problem@.constraints, dviews(old(domains)@), s) ==> forall|i: int|
                0 <= i < final(domains)@.len() ==> (#[trigger] final(domains)@[i])@.contains(s[i as usize]),
        forall|i: int|
            0 <= i < old(domains)@.len() ==> (#[trigger] dviews(final(domains)@)[i]).len() <= dviews(
                old(domains)@,
            )[i].len(),
        r ==> same_empties(dviews(old(domains)@), dviews(final(domains)@)),
        !r ==> exists|i: int|
            0 <= i < final(domains)@.len() && (#[trigger] final(domains)@[i])@.len() == 0
                && old(domains)@[i]@.len() > 0,
        orientation_sound(problem@.constraints) && referenced_nonempty_in(
            problem@,
            dviews(old(domains)@),
        ) ==> forall|m: Map<usize, i64>|
            #[trigger] problem@.solution_within(dviews(old(domains)@), m) ==> r
                && problem@.solution_within(dviews(final(domains)@), m),
        r && orientation_sound(problem@.constraints) && no_self_loops(problem@.constraints)
            ==> arc_consistent(problem@.constraints, dviews(final(domains)@)),
        arc_consistent(problem@.constraints, dviews(old(domains)@)) ==> r && dviews(final(domains)@) == dviews(
            old(domains)@,
        ),
{
    let ghost p = problem@;
    let ghost cs = problem@.constraints;
    let ghost d0 = dviews(domains@);
    assert(d0.len() <= usize::MAX) by {
        assert(domains.len() as int == d0.len());
    }
    let ghost mut keep: spec_fn(int, i64) -> bool = |i: int, v: i64| true;
    assert forall|i: int| 0 <= i < d0.len() implies #[trigger] d0[i] == d0[i].filter(|v: i64| keep(i, v)) by {
        lemma_filter_all(d0[i], |v: i64| keep(i, v));
    }
    assert(filtered_by(d0, d0, keep));
    let mut queue: VecDeque<(usize, usize)> = VecDeque::new();

    // Seed the queue with both arcs of every binary constraint.
    let mut k: usize = 0;
    while k < problem.constraints.len()
        invariant
            cs == problem@.constraints,
            p == problem@,
            binary_in_range(p),
            k <= cs.len(),
            d0 == dviews(domains@),
            queue_of_arcs(cs, queue@),
            forall|j: int, x: usize, y: usize|
                0 <= j < k && #[trigger] cs[j].is_arc(x, y) ==> queue@.contains((x, y))
                    && queue@.contains((y, x)),
        decreases cs.len() - k,
    {
        assert(cs[k as int] == problem.constraints@[k as int]@);
        match &problem.constraints[k] {
            Constraint::Binary { a, b, .. } => {
                let ghost q0 = queue@;
                queue.push_back((*a, *b));
                queue.push_back((*b, *a));
                assert(queue@[q0.len() as int] == (*a, *b));
                assert(queue@[q0.len() as int + 1] == (*b, *a));
                assert forall|t: int| 0 <= t < q0.len() implies queue@[t] == q0[t] by {}
                assert(cs[k as int].is_binary_between(*a, *b));
                assert(cs[k as int].is_binary_between(*b, *a));
                assert forall|t: int| 0 <= t < queue@.len() implies #[trigger] relates(cs, queue@[t]) by {
                    if t < q0.len() {
                        assert(relates(cs, q0[t]));
                    } else {
                        assert(cs[k as int].is_binary_between(queue@[t].0, queue@[t].1));
                    }
                }
                assert forall|x: (usize, usize)| q0.contains(x) implies queue@.contains(x) by {
                    let t = choose|t: int| 0 <= t < q0.len() && q0[t] == x;
                    assert(queue@[t] == x);
                }
            },
            _ => {},
        }
        k = k + 1;
    }

    while queue.len() > 0
        invariant
            cs == problem@.constraints,
            p == problem@,
            binary_in_range(p),
            d0.len() >= p.n(),
            d0 == dviews(old(domains)@),
            domains@.len() == d0.len(),
            narrows(d0, dviews(domains@)),
            filtered_by(d0, dviews(domains@), keep),
            keeps_consistent(cs, d0, dviews(domains@)),
            d0.len() <= usize::MAX,
            forall|i: int| 0 <= i < d0.len() ==> (#[trigger] dviews(domains@)[i]).len() <= d0[i].len(),
            same_empties(d0, dviews(domains@)),
            queue_of_arcs(cs, queue@),
            orientation_sound(cs) && referenced_nonempty_in(p, d0) ==> forall|m: Map<usize, i64>|
                #[trigger] p.solution_within(d0, m) ==> p.solution_within(dviews(domains@), m),
            orientation_sound(cs) && no_self_loops(cs) ==> worklist_ok(cs, dviews(domains@), queue@),
            arc_consistent(cs, d0) ==> dviews(domains@) == d0,
        decreases total_len(dviews(domains@)), queue@.len(),
    {
        let ghost dold = dviews(domains@);
        let ghost q0 = queue@;
        let front = queue.pop_front();
        match front {
            None => {},
            Some((xi, xj)) => {
                assert(q0[0] == (xi, xj));
                assert(relates(cs, q0[0]));
                let ghost kq = choose|kq: int|
                    0 <= kq < cs.len() && #[trigger] cs[kq].is_binary_between(q0[0].0, q0[0].1);
                assert(cs[kq].vars()[0] < p.n() && cs[kq].vars()[1] < p.n());
                assert(xi < p.n() && xj < p.n());
                let changed = revise(problem, domains, xi, xj);
                let ghost dnew = dviews(domains@);
                assert(dnew =~= dold.update(xi as int, revised_domain(cs, dold, xi, xj)));
                proof {
                    // The revision filters `xi` once more.
                    if first_between(cs, xi, xj) is Some {
                        let pred = |vx: i64| supported(cs, xi, xj, vx, dold[xj as int]);
                        let k0 = keep;
                        let k1 = |i: int, v: i64| k0(i, v) && (i == xi ==> pred(v));
                        assert forall|i: int| 0 <= i < d0.len() implies #[trigger] dnew[i] == d0[i].filter(
                            |v: i64| k1(i, v),
                        ) by {
                            assert(dold[i] == d0[i].filter(|v: i64| k0(i, v)));
                            if i == xi {
                                assert(dnew[i] == dold[i].filter(pred));
                                let pk = |v: i64| k0(i, v);
                                assert(dold[i] == d0[i].filter(pk));
                                lemma_filter_filter(d0[i], pk, pred);
                                assert((|v: i64| k1(i, v)) =~= (|v: i64| pk(v) && pred(v)));
                                assert(dnew[i] == d0[i].filter(|v: i64| k1(i, v)));
                            } else {
                                assert((|v: i64| k1(i, v)) =~= (|v: i64| k0(i, v)));
                                assert(dnew[i] == dold[i]);
                                assert(dnew[i] == d0[i].filter(|v: i64| k1(i, v)));
                            }
                        }
                        keep = k1;
                    }
                    assert(filtered_by(d0, dnew, keep));
                    lemma_revise_keeps(cs, d0, dold, dnew, xi, xj);
                }
                proof {
                    // An arc-consistent network loses no value.
                    if arc_consistent(cs, d0) {
                        assert(cs[kq].is_arc(xi, xj) || cs[kq].is_arc(xj, xi));
                        assert(arc_supported(cs, d0, xi, xj));
                        if first_between(cs, xi, xj) is Some {
                            let pred = |vx: i64| supported(cs, xi, xj, vx, dold[xj as int]);
                            assert forall|t: int| 0 <= t < dold[xi as int].len() implies pred(
                                #[trigger] dold[xi as int][t],
                            ) by {
                                assert(supported(cs, xi, xj, d0[xi as int][t], d0[xj as int]));
                            }
                            lemma_filter_all(dold[xi as int], pred);
                        }
                        assert(dnew =~= dold);
                    }
                }
                proof {
                    lemma_first_between(cs, xi, xj);
                    lemma_total_len_update(dold, xi as int, dnew[xi as int]);
                    let pred = |vx: i64| supported(cs, xi, xj, vx, dold[xj as int]);
                    dold[xi as int].lemma_filter_len(pred);
                    // Values are only removed.
                    assert forall|i: int, v: i64|
                        0 <= i < d0.len() && #[trigger] dnew[i].contains(v) implies d0[i].contains(v) by {
                        if i == xi && first_between(cs, xi, xj) is Some {
                            let t = choose|t: int| 0 <= t < dnew[i].len() && dnew[i][t] == v;
                            lemma_filter_subset(dold[xi as int], pred, t);
                        }
                        assert(dold[i].contains(v));
                    }
                    // Solutions survive the revision.
                    if orientation_sound(cs) && referenced_nonempty_in(p, d0) {
                        assert forall|m: Map<usize, i64>| #[trigger]
                            p.solution_within(d0, m) implies (dnew[xi as int].len() > 0 || !m.contains_key(xi))
                            && forall|i: usize| #[trigger] m.contains_key(i) ==> dnew[i as int].contains(m[i]) by {
                            assert(p.solution_within(dold, m));
                            if m.contains_key(xi) && first_between(cs, xi, xj) is Some {
                                let j = first_between(cs, xi, xj)->0;
                                assert(cs[j].vars()[0] == xi || cs[j].vars()[1] == xi);
                                assert(cs[j].vars()[0] == xj || cs[j].vars()[1] == xj);
                                if cs[j].vars()[0] == xj {
                                    assert(d0[cs[j].vars()[0] as int].len() > 0);
                                } else {
                                    assert(d0[cs[j].vars()[1] as int].len() > 0);
                                }
                                assert(m.contains_key(xj));
                                assert(dold[xj as int].contains(m[xj]));
                                lemma_solution_supports(p, m, xi, xj);
                                let t = choose|t: int| 0 <= t < dold[xj as int].len() && dold[xj as int][t] == m[xj];
                                assert(supported(cs, xi, xj, m[xi], dold[xj as int]));
                                let s = choose|s: int| 0 <= s < dold[xi as int].len() && dold[xi as int][s] == m[xi];
                                dold[xi as int].lemma_filter_contains(pred, s);
                            }
                            assert forall|i: usize| #[trigger] m.contains_key(i) implies dnew[i as int].contains(m[i]) by {
                                assert(dold[i as int].contains(m[i]));
                            }
                        }
                    }
                }
                assert(narrows(d0, dnew));
                assert(forall|i: int| 0 <= i < d0.len() ==> (#[trigger] dnew[i]).len() <= d0[i].len());
                if changed && domains[xi].len() == 0 {
                    proof {
                        assert(dold[xi as int].len() > 0);
                        assert(d0[xi as int].len() > 0);
                        assert(domains@[xi as int]@.len() == 0 && old(domains)@[xi as int]@.len() > 0);
                        assert(domains@[xi as int]@.len() == 0);
                        if orientation_sound(cs) && referenced_nonempty_in(p, d0) {
                            assert forall|m: Map<usize, i64>| #[trigger]
                                p.solution_within(d0, m) implies false by {
                                assert(m.contains_key(xi));
                                assert(dnew[xi as int].contains(m[xi]));
                            }
                        }
                    }
                proof {
                    if orientation_sound(cs) {
                        lemma_ac3_keeps_binary_solutions(p, d0, dviews(domains@));
                        assert forall|s: Map<usize, i64>| #[trigger] binary_solution_within(cs, d0, s) implies forall|i: int|
                            0 <= i < domains@.len() ==> (#[trigger] domains@[i])@.contains(s[i as usize]) by {
                            assert forall|i: int| 0 <= i < domains@.len() implies (#[trigger] domains@[i])@.contains(
                                s[i as usize],
                            ) by {
                                assert(dviews(domains@)[i] == domains@[i]@);
                            }
                        }
                    }
                }
                    return false;
                }
                let ghost q1 = queue@;
                assert(q1 =~= q0.subrange(1, q0.len() as int));
                assert forall|t: int| 0 <= t < q1.len() implies #[trigger] relates(cs, q1[t]) by {
                    assert(q1[t] == q0[t + 1]);
                    assert(relates(cs, q0[t + 1]));
                }
                assert(queue_of_arcs(cs, q1));
                assert(same_empties(d0, dnew));
                proof {
                    if orientation_sound(cs) && referenced_nonempty_in(p, d0) {
                        assert forall|m: Map<usize, i64>| #[trigger]
                            p.solution_within(d0, m) implies p.solution_within(dnew, m) by {
                            assert(m.contains_key(xi) ==> dnew[xi as int].contains(m[xi]));
                            assert forall|i: usize| #[trigger] m.contains_key(i) <==> (i < dnew.len() && dnew[i as int].len() > 0) by {
                                if i < dnew.len() {
                                    assert(d0[i as int].len() > 0 <==> dnew[i as int].len() > 0);
                                }
                            }
                        }
                    }
                }
                if changed {
                    // Every arc into `xi`, except from `xj`, needs rechecking.
                    let mut k: usize = 0;
                    while k < problem.constraints.len()
                        invariant
                            cs == problem@.constraints,
                            k <= cs.len(),
                            queue_of_arcs(cs, queue@),
                            forall|t: int| 0 <= t < q1.len() ==> queue@.contains(#[trigger] q1[t]),
                            forall|j: int, a: usize, b: usize|
                                0 <= j < k && #[trigger] cs[j].is_arc(a, b) ==> (b == xi && a != xj
                                    ==> queue@.contains((a, b))) && (a == xi && b != xj
                                    ==> queue@.contains((b, a))),
                        decreases cs.len() - k,
                    {
                        assert(cs[k as int] == problem.constraints@[k as int]@);
                        let ghost qa = queue@;
                        match &problem.constraints[k] {
                            Constraint::Binary { a, b, .. } => {
                                if *a == xi && *b != xj {
                                    queue.push_back((*b, *a));
                                    assert(queue@[qa.len() as int] == (*b, *a));
                                    assert(cs[k as int].is_binary_between(*b, *a));
                                } else if *b == xi && *a != xj {
                                    queue.push_back((*a, *b));
                                    assert(queue@[qa.len() as int] == (*a, *b));
                                    assert(cs[k as int].is_binary_between(*a, *b));
                                }
                            },
                            _ => {},
                        }
                        assert forall|t: int| 0 <= t < qa.len() implies queue@[t] == qa[t] by {}
                        assert forall|t: int| 0 <= t < queue@.len() implies #[trigger] relates(cs, queue@[t]) by {
                            if t < qa.len() {
                                assert(queue@[t] == qa[t]);
                                assert(relates(cs, qa[t]));
                            } else {
                                assert(cs[k as int].is_binary_between(queue@[t].0, queue@[t].1));
                            }
                        }
                        assert(queue_of_arcs(cs, queue@));
                        assert forall|x: (usize, usize)| qa.contains(x) implies queue@.contains(x) by {
                            let t = choose|t: int| 0 <= t < qa.len() && qa[t] == x;
                            assert(queue@[t] == x);
                        }
                        k = k + 1;
                    }
                }
                assert(queue_of_arcs(cs, queue@));
                proof {
                    assert(q1 =~= q0.subrange(1, q0.len() as int));
                    assert forall|t: int| 1 <= t < q0.len() implies queue@.contains(#[trigger] q0[t]) by {
                        assert(q1[t - 1] == q0[t]);
                        if !changed {
                            assert(queue@[t - 1] == q0[t]);
                        }
                    }
                    if orientation_sound(cs) && no_self_loops(cs) {
                        assert(xi != xj) by {
                            if xi == xj {
                                assert(cs[kq].is_arc(xi, xi));
                            }
                        }
                        assert forall|k: int, x: usize, y: usize|
                            0 <= k < cs.len() && #[trigger] cs[k].is_arc(x, y) implies (
                            queue@.contains((x, y)) || arc_supported(cs, dnew, x, y)) && (
                            queue@.contains((y, x)) || arc_supported(cs, dnew, y, x)) by {
                            assert(cs[k].vars()[0] == x && cs[k].vars()[1] == y);
                            assert(x != y);
                            lemma_arc_after_revise(cs, dold, dnew, q0, queue@, xi, xj, x, y);
                            lemma_arc_after_revise(cs, dold, dnew, q0, queue@, xi, xj, y, x);
                        }
                    }
                }
                assert(queue_of_arcs(cs, queue@));
            },
        }
        assert(queue_of_arcs(cs, queue@));
    }
    proof {
        if orientation_sound(cs) && no_self_loops(cs) {
            assert forall|k: int, x: usize, y: usize|
                0 <= k < cs.len() && #[trigger] cs[k].is_arc(x, y) implies arc_supported(
                cs,
                dviews(domains@),
                x,
                y,
            ) && arc_supported(cs, dviews(domains@), y, x) by {
                assert(!queue@.contains((x, y)));
                assert(!queue@.contains((y, x)));
            }
        }
    }
    proof {
        if orientation_sound(cs) {
            lemma_ac3_keeps_binary_solutions(p, d0, dviews(domains@));
            assert forall|s: Map<usize, i64>| #[trigger] binary_solution_within(cs, d0, s) implies forall|i: int|
                0 <= i < domains@.len() ==> (#[trigger] domains@[i])@.contains(s[i as usize]) by {
                assert forall|i: int| 0 <= i < domains@.len() implies (#[trigger] domains@[i])@.contains(s[i as usize]) by {
                    assert(dviews(domains@)[i] == domains@[i]@);
                }
            }
        }
    }
    true
}

} // verus!
