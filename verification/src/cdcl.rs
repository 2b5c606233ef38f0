//! A conflict-driven clause learning (CDCL) SAT solver: unit propagation,
//! learning of the first unique implication point (1-UIP) clause, and
//! non-chronological backtracking.
use vstd::prelude::*;
use std::collections::{HashMap, HashSet};

verus! {

broadcast use vstd::std_specs::hash::group_hash_axioms;

// ---------------------------------------------------------------------------
// Literals and clauses
// ---------------------------------------------------------------------------

/// A literal: a variable index with a sign (positive = true, negative = false).
#[derive(Clone, Copy, PartialEq, Eq, Structural, Hash, Debug)]
pub struct Lit(pub i64);

/// The variable of a literal: the absolute value of its code.
pub open spec fn lit_var(l: Lit) -> i64 {
    (if l.0 >= 0 {
        l.0 as int
    } else {
        -(l.0 as int)
    }) as i64
}

/// The value a literal asks of its variable.
pub open spec fn lit_sign(l: Lit) -> bool {
    l.0 > 0
}

/// The negation of a literal: the opposite code.
pub open spec fn lit_neg(l: Lit) -> Lit {
    Lit((-l.0) as i64)
}

/// The literal's code is negatable (not `i64::MIN`).
pub open spec fn lit_ok(l: Lit) -> bool {
    l.0 != i64::MIN
}

impl Lit {
    /// The variable index: the absolute value of the code.
    pub fn var(self) -> (r: i64)
        requires
            lit_ok(self),
        ensures
            r == lit_var(self),
            r >= 0,
    {
        if self.0 >= 0 {
            self.0
        } else {
            -self.0
        }
    }

    /// Whether the literal is positive.
    pub fn sign(self) -> (r: bool)
        ensures
            r == lit_sign(self),
    {
        self.0 > 0
    }

    /// The negated literal.
    pub fn not(self) -> (r: Lit)
        requires
            lit_ok(self),
        ensures
            r == lit_neg(self),
            r.0 == -self.0,
    {
        Lit(-self.0)
    }
}

/// The literal is true under `m`.
pub open spec fn lit_true(l: Lit, m: Map<i64, bool>) -> bool {
    m.contains_key(lit_var(l)) && m[lit_var(l)] == lit_sign(l)
}

/// The literal is false under `m`.
pub open spec fn lit_false(l: Lit, m: Map<i64, bool>) -> bool {
    m.contains_key(lit_var(l)) && m[lit_var(l)] != lit_sign(l)
}

/// Some literal is true under `m`.
pub open spec fn clause_satisfied(lits: Seq<Lit>, m: Map<i64, bool>) -> bool {
    exists|i: int| 0 <= i < lits.len() && #[trigger] lit_true(lits[i], m)
}

/// Every literal is false under `m`.
pub open spec fn clause_conflict(lits: Seq<Lit>, m: Map<i64, bool>) -> bool {
    forall|i: int| 0 <= i < lits.len() ==> #[trigger] lit_false(lits[i], m)
}

/// The literals whose variable has no value under `m`, in order.
pub open spec fn unassigned_lits(lits: Seq<Lit>, m: Map<i64, bool>) -> Seq<Lit> {
    lits.filter(|l: Lit| !m.contains_key(lit_var(l)))
}

/// The unit literal of a clause: when no literal is true and exactly one
/// literal is unassigned, that literal.
pub open spec fn unit_literal(lits: Seq<Lit>, m: Map<i64, bool>) -> Option<Lit> {
    if clause_satisfied(lits, m) {
        None
    } else if unassigned_lits(lits, m).len() == 1 {
        Some(unassigned_lits(lits, m)[0])
    } else {
        None
    }
}

/// A literal and its negation have the same variable; for a non-zero code,
/// once that variable has a value exactly one of the two is true.
pub proof fn lemma_negation(l: Lit, m: Map<i64, bool>)
    requires
        lit_ok(l),
        l.0 != 0,
    ensures
        lit_var(lit_neg(l)) == lit_var(l),
        m.contains_key(lit_var(l)) ==> (lit_true(l, m) <==> !lit_true(lit_neg(l), m)),
        lit_true(l, m) <==> lit_false(lit_neg(l), m),
{
}

/// A satisfied clause is not in conflict, and a clause with a unit literal is
/// neither satisfied nor in conflict.
pub proof fn lemma_clause_states(lits: Seq<Lit>, m: Map<i64, bool>)
    ensures
        clause_satisfied(lits, m) ==> !clause_conflict(lits, m),
        unit_literal(lits, m) is Some ==> !clause_satisfied(lits, m) && !clause_conflict(lits, m),
{
    if clause_satisfied(lits, m) {
        let i = choose|i: int| 0 <= i < lits.len() && #[trigger] lit_true(lits[i], m);
        assert(!lit_false(lits[i], m));
    }
    if unit_literal(lits, m) is Some {
        lemma_unit_literal(lits, m);
        let i = choose|i: int| 0 <= i < lits.len() && lits[i] == unit_literal(lits, m)->0;
        assert(!lit_false(lits[i], m));
    }
}

/// A disjunction of literals.
#[derive(Clone, Debug)]
pub struct Clause {
    pub lits: Vec<Lit>,
    pub learnt: bool,
}

impl Clause {
    /// A problem clause (not learnt).
    pub fn new(lits: Vec<Lit>) -> (c: Self)
        ensures
            c.lits@ == lits@,
            !c.learnt,
    {
        Clause { lits, learnt: false }
    }

    /// A learnt clause.
    pub fn learnt(lits: Vec<Lit>) -> (c: Self)
        ensures
            c.lits@ == lits@,
            c.learnt,
    {
        Clause { lits, learnt: true }
    }

    /// Whether some literal is true under `assignment`.
    pub fn is_satisfied(&self, assignment: &HashMap<i64, bool>) -> (r: bool)
        requires
            forall|i: int| 0 <= i < self.lits@.len() ==> lit_ok(#[trigger] self.lits@[i]),
        ensures
            r == clause_satisfied(self.lits@, assignment@),
    {
        let mut i: usize = 0;
        while i < self.lits.len()
            invariant
                i <= self.lits@.len(),
                forall|i: int| 0 <= i < self.lits@.len() ==> lit_ok(#[trigger] self.lits@[i]),
                forall|j: int| 0 <= j < i ==> !(#[trigger] lit_true(self.lits@[j], assignment@)),
            decreases self.lits@.len() - i,
        {
            let l = self.lits[i];
            assert(lit_ok(self.lits@[i as int]));
            match assignment.get(&l.var()) {
                Some(v) => {
                    if *v == l.sign() {
                        assert(lit_true(self.lits@[i as int], assignment@));
                        return true;
                    }
                },
                None => {},
            }
            i = i + 1;
        }
        false
    }

    /// The unit literal under `assignment`: `None` as soon as a literal is true
    /// or a second unassigned literal is seen; otherwise the single unassigned
    /// literal, if any.
    pub fn is_unit(&self, assignment: &HashMap<i64, bool>) -> (r: Option<Lit>)
        requires
            forall|i: int| 0 <= i < self.lits@.len() ==> lit_ok(#[trigger] self.lits@[i]),
        ensures
            r == unit_literal(self.lits@, assignment@),
    {
        let ghost lits = self.lits@;
        let ghost m = assignment@;
        let mut unassigned: Option<Lit> = None;
        let mut i: usize = 0;
        while i < self.lits.len()
            invariant
                lits == self.lits@,
                m == assignment@,
                i <= lits.len(),
                forall|i: int| 0 <= i < lits.len() ==> lit_ok(#[trigger] lits[i]),
                forall|j: int| 0 <= j < i ==> !(#[trigger] lit_true(lits[j], m)),
                unassigned_lits(lits.take(i as int), m).len() <= 1,
                match unassigned {
                    Some(u) => unassigned_lits(lits.take(i as int), m).len() == 1
                        && unassigned_lits(lits.take(i as int), m)[0] == u,
                    None => unassigned_lits(lits.take(i as int), m).len() == 0,
                },
            decreases lits.len() - i,
        {
            proof {
                reveal_with_fuel(Seq::filter, 1);
            }
            let l = self.lits[i];
            let ghost pre = lits.take(i as int);
            let ghost cur = lits.take(i + 1);
            assert(cur.drop_last() =~= pre);
            assert(cur.last() == l);
            assert(lit_ok(lits[i as int]));
            match assignment.get(&l.var()) {
                Some(v) => {
                    if *v == l.sign() {
                        assert(lit_true(lits[i as int], m));
                        return None;
                    }
                },
                None => {
                    if unassigned.is_some() {
                        proof {
                            assert(unassigned_lits(cur, m).len() == 2);
                            assert(lits =~= cur + lits.skip(i + 1));
                            Seq::filter_distributes_over_add(cur, lits.skip(i + 1), |l: Lit| !m.contains_key(lit_var(l)));
                        }
                        return None;
                    }
                    unassigned = Some(l);
                },
            }
            i = i + 1;
        }
        assert(lits.take(i as int) =~= lits);
        unassigned
    }

    /// Whether every literal is false under `assignment`.
    pub fn is_conflict(&self, assignment: &HashMap<i64, bool>) -> (r: bool)
        requires
            forall|i: int| 0 <= i < self.lits@.len() ==> lit_ok(#[trigger] self.lits@[i]),
        ensures
            r == clause_conflict(self.lits@, assignment@),
    {
        let mut i: usize = 0;
        while i < self.lits.len()
            invariant
                i <= self.lits@.len(),
                forall|i: int| 0 <= i < self.lits@.len() ==> lit_ok(#[trigger] self.lits@[i]),
                forall|j: int| 0 <= j < i ==> #[trigger] lit_false(self.lits@[j], assignment@),
            decreases self.lits@.len() - i,
        {
            let l = self.lits[i];
            assert(lit_ok(self.lits@[i as int]));
            match assignment.get(&l.var()) {
                Some(v) => {
                    if *v == l.sign() {
                        assert(!lit_false(self.lits@[i as int], assignment@));
                        return false;
                    }
                },
                None => {
                    assert(!lit_false(self.lits@[i as int], assignment@));
                    return false;
                },
            }
            i = i + 1;
        }
        true
    }
}


/// The literal lists of a sequence of clauses.
pub open spec fn cviews(cs: Seq<Clause>) -> Seq<Seq<Lit>> {
    cs.map_values(|c: Clause| c.lits@)
}

/// Every literal of every clause is negatable.
pub open spec fn clauses_ok(cs: Seq<Clause>) -> bool {
    forall|k: int, i: int|
        0 <= k < cs.len() && 0 <= i < cs[k].lits@.len() ==> lit_ok(#[trigger] cs[k].lits@[i])
}

/// Largest variable among `lits` (0 when none).
pub open spec fn max_lit_var(lits: Seq<Lit>) -> i64
    decreases lits.len(),
{
    if lits.len() == 0 {
        0
    } else {
        let rest = max_lit_var(lits.drop_last());
        let v = lit_var(lits.last());
        if v > rest {
            v
        } else {
            rest
        }
    }
}

/// Largest variable among the clauses (0 when none).
pub open spec fn max_clause_var(cs: Seq<Clause>) -> i64
    decreases cs.len(),
{
    if cs.len() == 0 {
        0
    } else {
        let rest = max_clause_var(cs.drop_last());
        let v = max_lit_var(cs.last().lits@);
        if v > rest {
            v
        } else {
            rest
        }
    }
}

/// Largest variable index among the clauses' literals, or 0 when there is none.
fn max_var_of(clauses: &Vec<Clause>) -> (r: i64)
    requires
        clauses_ok(clauses@),
    ensures
        r == max_clause_var(clauses@),
        r >= 0,
{
    let mut best: i64 = 0;
    let mut k: usize = 0;
    while k < clauses.len()
        invariant
            clauses_ok(clauses@),
            k <= clauses@.len(),
            best == max_clause_var(clauses@.take(k as int)),
            best >= 0,
        decreases clauses@.len() - k,
    {
        let lits = &clauses[k].lits;
        let mut cbest: i64 = 0;
        let mut i: usize = 0;
        while i < lits.len()
            invariant
                clauses_ok(clauses@),
                k < clauses@.len(),
                lits@ == clauses@[k as int].lits@,
                i <= lits@.len(),
                cbest == max_lit_var(lits@.take(i as int)),
                cbest >= 0,
            decreases lits@.len() - i,
        {
            assert(lits@.take(i + 1).drop_last() =~= lits@.take(i as int));
            assert(lit_ok(clauses@[k as int].lits@[i as int]));
            let v = lits[i].var();
            if v > cbest {
                cbest = v;
            }
            i = i + 1;
        }
        assert(lits@.take(i as int) =~= lits@);
        assert(clauses@.take(k + 1).drop_last() =~= clauses@.take(k as int));
        if cbest > best {
            best = cbest;
        }
        k = k + 1;
    }
    assert(clauses@.take(k as int) =~= clauses@);
    best
}

/// A SAT problem: a list of clauses.
#[derive(Clone)]
pub struct SATProblem {
    pub clauses: Vec<Clause>,
    num_vars: i64,
}

impl View for SATProblem {
    type V = Seq<Clause>;

    /// The clauses.
    closed spec fn view(&self) -> Seq<Clause> {
        self.clauses@
    }
}

impl SATProblem {
    /// The problem with the given clauses; its variable count is the largest
    /// variable index used (0 when there is none).
    pub fn new(clauses: Vec<Clause>) -> (p: Self)
        requires
            clauses_ok(clauses@),
        ensures
            p@ == clauses@,
            p.spec_num_vars() == max_clause_var(clauses@),
    {
        let num_vars = max_var_of(&clauses);
        SATProblem { clauses, num_vars }
    }

    /// The number of variables recorded at construction.
    pub closed spec fn spec_num_vars(&self) -> i64 {
        self.num_vars
    }

    /// The largest variable index used by the clauses given at construction.
    pub fn num_vars(&self) -> (r: i64)
        ensures
            r == self.spec_num_vars(),
    {
        self.num_vars
    }
}

// ---------------------------------------------------------------------------
// Meaning of a clause set
// ---------------------------------------------------------------------------

/// The literal is true under the total assignment `a`.
pub open spec fn lit_holds(l: Lit, a: spec_fn(i64) -> bool) -> bool {
    a(lit_var(l)) == lit_sign(l)
}

/// Some literal of the clause is true under `a`.
pub open spec fn clause_holds(lits: Seq<Lit>, a: spec_fn(i64) -> bool) -> bool {
    exists|i: int| 0 <= i < lits.len() && #[trigger] lit_holds(lits[i], a)
}

/// Every clause holds under `a`.
pub open spec fn satisfies_all(cs: Seq<Clause>, a: spec_fn(i64) -> bool) -> bool {
    forall|k: int| 0 <= k < cs.len() ==> #[trigger] clause_holds(cs[k].lits@, a)
}

/// The clauses `cs` entail the clause `lits`: every total assignment that
/// satisfies `cs` satisfies `lits`.
pub open spec fn entails(cs: Seq<Clause>, lits: Seq<Lit>) -> bool {
    forall|a: spec_fn(i64) -> bool| #[trigger] satisfies_all(cs, a) ==> clause_holds(lits, a)
}

/// Some total assignment satisfies every clause.
pub open spec fn satisfiable(cs: Seq<Clause>) -> bool {
    exists|a: spec_fn(i64) -> bool| #[trigger] satisfies_all(cs, a)
}

/// No literal has the code 0 (which names variable 0 and cannot be negated).
pub open spec fn nonzero_lits(cs: Seq<Clause>) -> bool {
    forall|k: int, j: int| 0 <= k < cs.len() && 0 <= j < cs[k].lits@.len() ==> (#[trigger] cs[k].lits@[j]).0 != 0
}

// ---------------------------------------------------------------------------
// Solver state
// ---------------------------------------------------------------------------

/// The assignment recorded by a trail of `(variable, value)` pairs.
pub open spec fn trail_map(t: Seq<(i64, bool)>) -> Map<i64, bool>
    decreases t.len(),
{
    if t.len() == 0 {
        Map::empty()
    } else {
        trail_map(t.drop_last()).insert(t.last().0, t.last().1)
    }
}

/// No variable occurs twice on the trail.
pub open spec fn trail_distinct(t: Seq<(i64, bool)>) -> bool {
    forall|i: int, j: int| 0 <= i < j < t.len() ==> (#[trigger] t[i]).0 != (#[trigger] t[j]).0
}

/// The decision level of trail position `pos`: the number of decision marks
/// at or before it (searching marks `i` down to 1).
pub open spec fn level_from(lim: Seq<usize>, pos: int, i: nat) -> nat
    decreases i,
{
    if i == 0 || i > lim.len() {
        0
    } else if pos >= lim[i - 1] {
        i
    } else {
        level_from(lim, pos, (i - 1) as nat)
    }
}

/// The decision level of trail position `pos`.
pub open spec fn level_of_pos(lim: Seq<usize>, pos: int) -> nat {
    level_from(lim, pos, lim.len())
}

/// First trail position holding `var`, if any.
pub open spec fn first_pos_from(t: Seq<(i64, bool)>, var: i64, i: nat) -> Option<int>
    decreases t.len() - i,
{
    if i >= t.len() {
        None
    } else if t[i as int].0 == var {
        Some(i as int)
    } else {
        first_pos_from(t, var, i + 1)
    }
}

/// The decision level at which `var` was assigned (0 when it is not on the trail).
pub open spec fn level_of_var_spec(t: Seq<(i64, bool)>, lim: Seq<usize>, var: i64) -> nat {
    match first_pos_from(t, var, 0) {
        Some(p) => level_of_pos(lim, p),
        None => 0,
    }
}

/// `x` comes before `v` on the trail.
pub open spec fn before_on_trail(t: Seq<(i64, bool)>, x: i64, v: i64) -> bool {
    exists|p: int, q: int| 0 <= p < q < t.len() && t[p].0 == x && t[q].0 == v
}

/// The clause `lits` is a reason for variable `v`: each of its literals on
/// another variable is false under `m`, and that variable comes before `v` on
/// the trail; each of its literals on `v` is true.
pub open spec fn reason_holds(t: Seq<(i64, bool)>, m: Map<i64, bool>, lits: Seq<Lit>, v: i64) -> bool {
    forall|j: int|
        0 <= j < lits.len() ==> if lit_var(#[trigger] lits[j]) != v {
            lit_false(lits[j], m) && before_on_trail(t, lit_var(lits[j]), v)
        } else {
            lit_true(lits[j], m)
        }
}

/// Each literal of `lits` on another variable than `v` is false under `m`,
/// and each literal on `v` has the sign `b`.
pub open spec fn reason_ready(m: Map<i64, bool>, lits: Seq<Lit>, v: i64, b: bool) -> bool {
    forall|j: int|
        0 <= j < lits.len() ==> if lit_var(#[trigger] lits[j]) != v {
            lit_false(lits[j], m)
        } else {
            lit_sign(lits[j]) == b
        }
}

/// Every recorded antecedent names an existing clause that is a reason for
/// its assigned variable.
pub open spec fn justified_by(cs: Seq<Clause>, t: Seq<(i64, bool)>, m: Map<i64, bool>, ants: Map<i64, usize>) -> bool {
    forall|v: i64|
        #[trigger] ants.contains_key(v) ==> ants[v] < cs.len() && m.contains_key(v) && reason_holds(
            t,
            m,
            cs[ants[v] as int].lits@,
            v,
        )
}

/// Mathematical content of the solver state.
pub struct CdclView {
    pub assignment: Map<i64, bool>,
    pub trail: Seq<(i64, bool)>,
    pub trail_lim: Seq<usize>,
    pub clauses: Seq<Clause>,
}

/// CDCL solver state.
#[derive(Debug)]
pub struct CDCL {
    pub assignment: HashMap<i64, bool>,
    pub trail: Vec<(i64, bool)>,
    pub trail_lim: Vec<usize>,
    pub clauses: Vec<Clause>,
    antecedents: HashMap<i64, usize>,
    learnts: Vec<usize>,
}

impl View for CDCL {
    type V = CdclView;

    /// The assignment, trail, decision marks and clauses.
    closed spec fn view(&self) -> CdclView {
        CdclView {
            assignment: self.assignment@,
            trail: self.trail@,
            trail_lim: self.trail_lim@,
            clauses: self.clauses@,
        }
    }
}

impl CDCL {
    /// Consistency of the solver state: the assignment is the one the trail
    /// records, trail variables are distinct and non-negative, decision marks
    /// are strictly increasing positions of the trail (every decision level
    /// holds at least its decision), and recorded learnt-clause indices exist.
    pub closed spec fn inv(&self) -> bool {
        &&& clauses_ok(self.clauses@)
        &&& self.assignment@ == trail_map(self.trail@)
        &&& trail_distinct(self.trail@)
        &&& forall|i: int| 0 <= i < self.trail@.len() ==> (#[trigger] self.trail@[i]).0 >= 0
        &&& forall|i: int, j: int|
            0 <= i < j < self.trail_lim@.len() ==> self.trail_lim@[i] < self.trail_lim@[j]
        &&& forall|i: int| 0 <= i < self.trail_lim@.len() ==> #[trigger] self.trail_lim@[i] < self.trail@.len()
        &&& forall|i: int| 0 <= i < self.learnts@.len() ==> #[trigger] self.learnts@[i] < self.clauses@.len()
    }

    /// What the solver invariant asks of the public state: valid literals,
    /// the assignment recorded by the trail, distinct non-negative trail
    /// variables, and strictly increasing decision marks inside the trail.
    pub proof fn lemma_inv_facts(&self)
        requires
            self.inv(),
        ensures
            clauses_ok(self@.clauses),
            self@.assignment == trail_map(self@.trail),
            trail_distinct(self@.trail),
            forall|i: int| 0 <= i < self@.trail.len() ==> (#[trigger] self@.trail[i]).0 >= 0,
            forall|i: int, j: int| 0 <= i < j < self@.trail_lim.len() ==> self@.trail_lim[i] < self@.trail_lim[j],
            forall|i: int| 0 <= i < self@.trail_lim.len() ==> #[trigger] self@.trail_lim[i] < self@.trail.len(),
    {
        reveal(CDCL::inv);
    }

    /// Every trail entry that is not a decision (a position that no decision
    /// mark points at) has a recorded antecedent.
    pub closed spec fn structured(&self) -> bool {
        forall|p: int|
            0 <= p < self.trail@.len() && !self.trail_lim@.contains(p as usize) ==> self.antecedents@.contains_key(
                #[trigger] self.trail@[p].0,
            )
    }

    /// Every variable implied by propagation has its implying clause recorded
    /// as its reason.
    pub closed spec fn justified(&self) -> bool {
        justified_by(self.clauses@, self.trail@, self.assignment@, self.antecedents@)
    }

    /// A fresh solver over the problem's clauses: nothing assigned, level 0.
    pub fn new(problem: &SATProblem) -> (s: Self)
        requires
            clauses_ok(problem@),
        ensures
            s.inv(),
            s.justified(),
            cviews(s@.clauses) == cviews(problem@),
            s@.assignment == Map::<i64, bool>::empty(),
            s@.trail.len() == 0,
            s@.trail_lim.len() == 0,
            s.structured(),
    {
        let clauses = copy_clauses(&problem.clauses);
        assert(clauses_ok(clauses@)) by {
            assert forall|k: int, i: int|
                0 <= k < clauses@.len() && 0 <= i < clauses@[k].lits@.len() implies lit_ok(
                #[trigger] clauses@[k].lits@[i],
            ) by {
                assert(cviews(clauses@).len() == cviews(problem.clauses@).len());
                assert(cviews(clauses@)[k] == cviews(problem.clauses@)[k]);
                assert(clauses@[k].lits@ == problem.clauses@[k].lits@);
                assert(problem@ == problem.clauses@);
                assert(lit_ok(problem.clauses@[k].lits@[i]));
            }
        }
        let s = CDCL {
            assignment: HashMap::new(),
            trail: Vec::new(),
            trail_lim: Vec::new(),
            clauses,
            antecedents: HashMap::new(),
            learnts: Vec::new(),
        };
        assert(s.assignment@ =~= trail_map(s.trail@));
        s
    }

    /// The clause recorded as the reason for each implied variable.
    pub closed spec fn antecedent_map(&self) -> Map<i64, usize> {
        self.antecedents@
    }

    /// The current decision level (number of decisions on the trail).
    pub fn current_level(&self) -> (r: usize)
        ensures
            r == self@.trail_lim.len(),
    {
        self.trail_lim.len()
    }

    /// Assigns the literal's variable so that the literal is true, recording
    /// `antecedent` as the clause that implied it (`None` for a decision).
    /// Returns `true` when the literal is already true and `false` (changing
    /// nothing) when it is already false. The state stays justified when the
    /// antecedent names a clause whose other literals are false.
    pub fn enqueue(&mut self, lit: Lit, antecedent: Option<usize>) -> (r: bool)
        requires
            old(self).inv(),
            lit_ok(lit),
        ensures
            final(self).inv(),
            final(self)@.clauses == old(self)@.clauses,
            final(self)@.trail_lim == old(self)@.trail_lim,
            old(self)@.assignment.contains_key(lit_var(lit)) ==> r == (old(self)@.assignment[lit_var(lit)]
                == lit_sign(lit)) && final(self)@ == old(self)@ && final(self).antecedent_map()
                == old(self).antecedent_map(),
            !old(self)@.assignment.contains_key(lit_var(lit)) ==> r && final(self)@.assignment
                == old(self)@.assignment.insert(lit_var(lit), lit_sign(lit)) && final(self)@.trail
                == old(self)@.trail.push((lit_var(lit), lit_sign(lit))) && final(self).antecedent_map() == (
            match antecedent {
                Some(ci) => old(self).antecedent_map().insert(lit_var(lit), ci),
                None => old(self).antecedent_map(),
            }),
            old(self).justified() && (antecedent matches Some(ci) ==> ci < old(self)@.clauses.len() && reason_ready(
                old(self)@.assignment,
                old(self)@.clauses[ci as int].lits@,
                lit_var(lit),
                lit_sign(lit),
            )) ==> final(self).justified(),
            old(self).structured() && (antecedent is Some || old(self)@.assignment.contains_key(lit_var(lit)))
                ==> final(self).structured(),
    {
        let var = lit.var();
        match self.assignment.get(&var) {
            Some(existing) => {
                return *existing == lit.sign();
            },
            None => {},
        }
        proof {
            lemma_trail_map_dom(self.trail@);
        }
        let ghost t0 = self.trail@;
        let ghost m0 = self.assignment@;
        let ghost a0 = self.antecedents@;
        self.assignment.insert(var, lit.sign());
        self.trail.push((var, lit.sign()));
        assert(self.trail@.drop_last() =~= t0);
        proof {
            if justified_by(self.clauses@, t0, m0, a0) {
                lemma_justified_push(self.clauses@, t0, m0, a0, var, lit_sign(lit));
            }
        }
        match antecedent {
            Some(ci) => {
                self.antecedents.insert(var, ci);
                proof {
                    if justified_by(self.clauses@, t0, m0, a0) && ci < self.clauses@.len() && reason_ready(m0, self.clauses@[ci as int].lits@, var, lit_sign(lit)) {
                        lemma_reason_push(self.clauses@[ci as int].lits@, t0, m0, var, lit_sign(lit));
                        assert(justified_by(self.clauses@, self.trail@, self.assignment@, self.antecedents@)) by {
                            assert forall|v: i64| #[trigger] self.antecedents@.contains_key(v) implies self.antecedents@[v]
                                < self.clauses@.len() && self.assignment@.contains_key(v) && reason_holds(
                                self.trail@,
                                self.assignment@,
                                self.clauses@[self.antecedents@[v] as int].lits@,
                                v,
                            ) by {
                                if v != var {
                                    assert(a0.contains_key(v));
                                }
                            }
                        }
                    }
                }
            },
            None => {},
        }
        proof {
            assert forall|i: int, j: int| 0 <= i < j < self.trail@.len() implies (#[trigger] self.trail@[i]).0
                != (#[trigger] self.trail@[j]).0 by {
                if j == t0.len() {
                    assert(t0[i].0 != var) by {
                        assert(trail_map(t0).contains_key(t0[i].0));
                    }
                } else {
                    assert(t0[i] == self.trail@[i] && t0[j] == self.trail@[j]);
                }
            }
            assert forall|i: int| 0 <= i < self.trail_lim@.len() implies #[trigger] self.trail_lim@[i] < self.trail@.len() by {}
            assert forall|i: int| 0 <= i < self.trail@.len() implies (#[trigger] self.trail@[i]).0 >= 0 by {
                if i < t0.len() {
                    assert(t0[i] == self.trail@[i]);
                }
            }
        }
        proof {
            if antecedent is Some {
                assert forall|p: int|
                    0 <= p < self.trail@.len() && !self.trail_lim@.contains(p as usize) && old(self).structured()
                        implies self.antecedents@.contains_key(#[trigger] self.trail@[p].0) by {
                    if p < t0.len() {
                        assert(self.trail@[p] == t0[p]);
                        assert(a0.contains_key(t0[p].0));
                    }
                }
            }
        }
        true
    }
}

impl CDCL {
    /// Decides the smallest unassigned variable in `1..=max` (the largest
    /// variable of the clauses): opens a new decision level and assigns it
    /// `true`. Returns the decided literal, or `None` (changing nothing) when
    /// every such variable is assigned.
    pub fn decide(&mut self) -> (r: Option<Lit>)
        requires
            old(self).inv(),
        ensures
            final(self).inv(),
            old(self).justified() ==> final(self).justified(),
            final(self)@.clauses == old(self)@.clauses,
            match r {
                Some(l) => {
                    &&& 1 <= l.0 <= max_clause_var(old(self)@.clauses)
                    &&& !old(self)@.assignment.contains_key(l.0)
                    &&& forall|j: i64| 1 <= j < l.0 ==> old(self)@.assignment.contains_key(j)
                    &&& final(self)@.trail_lim == old(self)@.trail_lim.push(old(self)@.trail.len() as usize)
                    &&& final(self)@.assignment == old(self)@.assignment.insert(l.0, true)
                    &&& final(self)@.trail == old(self)@.trail.push((l.0, true))
                },
                None => {
                    &&& forall|j: i64|
                        1 <= j <= max_clause_var(old(self)@.clauses) ==> old(self)@.assignment.contains_key(j)
                    &&& final(self)@ == old(self)@
                },
            },
            old(self).structured() ==> final(self).structured(),
    {
        let max = max_var_of(&self.clauses);
        if max < 1 {
            return None;
        }
        let mut i: i64 = 1;
        loop
            invariant_except_break
                self.inv(),
                *self == *old(self),
                max == max_clause_var(self@.clauses),
                1 <= i <= max,
                forall|j: i64| 1 <= j < i ==> self@.assignment.contains_key(j),
            ensures
                self.inv(),
                *self == *old(self),
                forall|j: i64| 1 <= j <= max ==> self@.assignment.contains_key(j),
            decreases max - i,
        {
            if !self.assignment.contains_key(&i) {
                // The decision is assigned first and its level opened right
                // after, at the position it took on the trail.
                let ghost s0 = self@;
                let ghost a0 = self.antecedents@;
                let ok = self.enqueue(Lit(i), None);
                let ghost s1 = self@;
                self.trail_lim.push(self.trail.len() - 1);
                proof {
                    reveal(CDCL::inv);
                    assert(self.antecedents@ == a0);
                    if old(self).structured() {
                        assert forall|p: int|
                            0 <= p < self.trail@.len() && !self.trail_lim@.contains(p as usize) implies self.antecedents@.contains_key(
                                #[trigger] self.trail@[p].0,
                            ) by {
                            if p < s0.trail.len() {
                                assert(self.trail@[p] == s0.trail[p]);
                                if s0.trail_lim.contains(p as usize) {
                                    let q = choose|q: int| 0 <= q < s0.trail_lim.len() && s0.trail_lim[q] == p as usize;
                                    assert(self.trail_lim@[q] == s0.trail_lim[q]);
                                }
                            } else {
                                assert(self.trail_lim@[s0.trail_lim.len() as int] == p as usize);
                            }
                        }
                    }
                    assert forall|a: int, b: int|
                        0 <= a < b < self.trail_lim@.len() implies self.trail_lim@[a] < self.trail_lim@[b] by {
                        if b < s0.trail_lim.len() {
                            assert(self.trail_lim@[a] == s1.trail_lim[a]);
                            assert(self.trail_lim@[b] == s1.trail_lim[b]);
                        } else {
                            assert(self.trail_lim@[a] == s1.trail_lim[a]);
                        }
                    }
                    assert forall|a: int| 0 <= a < self.trail_lim@.len() implies #[trigger] self.trail_lim@[a]
                        < self.trail@.len() by {
                        if a < s0.trail_lim.len() {
                            assert(self.trail_lim@[a] == s1.trail_lim[a]);
                        }
                    }
                }
                return Some(Lit(i));
            }
            if i == max {
                break;
            }
            i = i + 1;
        }
        None
    }

    /// The decision level of trail position `pos`.
    fn level_of_trail_index(&self, pos: usize) -> (r: usize)
        ensures
            r == level_of_pos(self.trail_lim@, pos as int),
    {
        let mut i: usize = self.trail_lim.len();
        while i > 0
            invariant
                i <= self.trail_lim@.len(),
                level_of_pos(self.trail_lim@, pos as int) == level_from(self.trail_lim@, pos as int, i as nat),
            decreases i,
        {
            if pos >= self.trail_lim[i - 1] {
                return i;
            }
            i = i - 1;
        }
        0
    }

    /// The decision level at which `var` was assigned (0 when it is not on the trail).
    fn level_of_var(&self, var: i64) -> (r: usize)
        ensures
            r == level_of_var_spec(self.trail@, self.trail_lim@, var),
    {
        let mut i: usize = 0;
        while i < self.trail.len()
            invariant
                i <= self.trail@.len(),
                first_pos_from(self.trail@, var, 0) == first_pos_from(self.trail@, var, i as nat),
            decreases self.trail@.len() - i,
        {
            if self.trail[i].0 == var {
                return self.level_of_trail_index(i);
            }
            i = i + 1;
        }
        0
    }

    /// Undoes every decision level above `level`, unassigning the variables
    /// assigned on them.
    pub fn backtrack_to(&mut self, level: usize)
        requires
            old(self).inv(),
        ensures
            final(self).inv(),
            old(self).justified() ==> final(self).justified(),
            final(self)@.clauses == old(self)@.clauses,
            old(self)@.trail_lim.len() <= level ==> final(self)@ == old(self)@,
            old(self)@.trail_lim.len() > level ==> {
                &&& final(self)@.trail_lim == old(self)@.trail_lim.take(level as int)
                &&& final(self)@.trail == old(self)@.trail.take(old(self)@.trail_lim[level as int] as int)
                &&& final(self)@.assignment == trail_map(final(self)@.trail)
                &&& final(self)@.assignment == old(self)@.assignment.restrict(final(self)@.assignment.dom())
            },
            old(self).structured() ==> final(self).structured(),
    {
        let ghost s0 = self@;
        let ghost j0 = self.justified();
        let ghost a0 = self.antecedents@;
        let ghost st0 = self.structured();
        proof {
            reveal(CDCL::inv);
        }
        if self.trail_lim.len() <= level {
            return;
        }
        while self.trail_lim.len() > level
            invariant
                self.inv(),
                j0 == old(self).justified(),
                j0 ==> self.justified(),
                self@.clauses == s0.clauses,
                level < s0.trail_lim.len(),
                level <= self@.trail_lim.len() <= s0.trail_lim.len(),
                self@.trail_lim == s0.trail_lim.take(self@.trail_lim.len() as int),
                self@.trail == if self@.trail_lim.len() == s0.trail_lim.len() {
                    s0.trail
                } else {
                    s0.trail.take(s0.trail_lim[self@.trail_lim.len() as int] as int)
                },
                s0.trail_lim.len() > 0,
                forall|i: int, j: int| 0 <= i < j < s0.trail_lim.len() ==> s0.trail_lim[i] < s0.trail_lim[j],
                forall|i: int| 0 <= i < s0.trail_lim.len() ==> #[trigger] s0.trail_lim[i] < s0.trail.len(),
                forall|p: int|
                    0 <= p < self@.trail.len() && a0.contains_key(self@.trail[p].0) ==> self.antecedents@.contains_key(
                        #[trigger] self@.trail[p].0,
                    ),
            decreases self@.trail_lim.len(),
        {
            let k = self.trail_lim.len();
            let lim = match self.trail_lim.pop() {
                Some(x) => x,
                None => 0,
            };
            assert(lim == s0.trail_lim[k - 1]);
            proof {
                assert(s0.trail_lim[k - 1] <= s0.trail.len());
                if k < s0.trail_lim.len() {
                    assert(s0.trail_lim[k - 1] <= s0.trail_lim[k as int]);
                    assert(s0.trail_lim[k as int] <= s0.trail.len());
                }
            }
            assert(self@.trail.len() >= lim);
            while self.trail.len() > lim
                invariant
                    self@.clauses == s0.clauses,
                    clauses_ok(self.clauses@),
                    self.assignment@ == trail_map(self.trail@),
                    trail_distinct(self.trail@),
                    forall|i: int| 0 <= i < self.trail@.len() ==> (#[trigger] self.trail@[i]).0 >= 0,
                    forall|i: int| 0 <= i < self.learnts@.len() ==> #[trigger] self.learnts@[i] < self.clauses@.len(),
                    self@.trail_lim == s0.trail_lim.take(k - 1),
                    lim == s0.trail_lim[k - 1],
                    self@.trail == s0.trail.take(self@.trail.len() as int),
                    self@.trail.len() <= s0.trail.len(),
                    self@.trail.len() >= lim,
                    j0 ==> justified_by(self.clauses@, self.trail@, self.assignment@, self.antecedents@),
                    forall|p: int|
                        0 <= p < self@.trail.len() && a0.contains_key(self@.trail[p].0) ==> self.antecedents@.contains_key(
                            #[trigger] self@.trail[p].0,
                        ),
                decreases self@.trail.len(),
            {
                let ghost t = self.trail@;
                let ghost m = self.assignment@;
                let ghost ants = self.antecedents@;
                proof {
                    if j0 {
                        lemma_justified_pop(self.clauses@, t, m, ants);
                    }
                }
                let (v, _) = match self.trail.pop() {
                    Some(e) => e,
                    None => (0, false),
                };
                proof {
                    lemma_trail_map_dom(t.drop_last());
                    assert(t.drop_last() =~= s0.trail.take(t.len() - 1));
                    assert(!trail_map(t.drop_last()).contains_key(v)) by {
                        if trail_map(t.drop_last()).contains_key(v) {
                            let i = choose|i: int| 0 <= i < t.drop_last().len() && t.drop_last()[i].0 == v;
                            assert(t[i].0 == t[t.len() - 1].0);
                        }
                    }
                }
                self.assignment.remove(&v);
                self.antecedents.remove(&v);
                assert(self.assignment@ =~= trail_map(self.trail@));
                assert forall|i: int, j: int| 0 <= i < j < self.trail@.len() implies (#[trigger] self.trail@[i]).0
                    != (#[trigger] self.trail@[j]).0 by {
                    assert(self.trail@[i] == t[i] && self.trail@[j] == t[j]);
                }
                assert forall|i: int| 0 <= i < self.trail@.len() implies (#[trigger] self.trail@[i]).0 >= 0 by {
                    assert(self.trail@[i] == t[i]);
                }
                assert forall|p: int|
                    0 <= p < self@.trail.len() && a0.contains_key(self@.trail[p].0) implies self.antecedents@.contains_key(
                        #[trigger] self@.trail[p].0,
                    ) by {
                    assert(self@.trail[p] == t[p]);
                    assert(t[p].0 != t[t.len() - 1].0);
                }
            }
            proof {
                assert(self@.trail =~= s0.trail.take(lim as int));
                assert forall|i: int| 0 <= i < self.trail_lim@.len() implies #[trigger] self.trail_lim@[i]
                    < self.trail@.len() by {
                    assert(self.trail_lim@[i] == s0.trail_lim[i]);
                    assert(s0.trail_lim[i] < s0.trail_lim[k - 1]);
                }
                assert forall|i: int, j: int|
                    0 <= i < j < self.trail_lim@.len() implies self.trail_lim@[i] < self.trail_lim@[j] by {
                    assert(self.trail_lim@[i] == s0.trail_lim[i]);
                    assert(self.trail_lim@[j] == s0.trail_lim[j]);
                }
            }
        }
        proof {
            let n = s0.trail_lim[level as int] as int;
            assert(self@.trail == s0.trail.take(n));
            lemma_trail_map_prefix(s0.trail, n);
            if st0 {
                assert forall|p: int|
                    0 <= p < self.trail@.len() && !self.trail_lim@.contains(p as usize) implies self.antecedents@.contains_key(
                        #[trigger] self.trail@[p].0,
                    ) by {
                    assert(self@.trail[p] == s0.trail[p]);
                    if s0.trail_lim.contains(p as usize) {
                        let i = choose|i: int| 0 <= i < s0.trail_lim.len() && s0.trail_lim[i] == p as usize;
                        if i >= level {
                            if i > level {
                                assert(s0.trail_lim[level as int] < s0.trail_lim[i]);
                            }
                        } else {
                            assert(self.trail_lim@[i] == s0.trail_lim[i]);
                        }
                    }
                }
            }
        }
    }
}

impl CDCL {
    /// Unit propagation: repeatedly sweeps the clauses, assigning the unit
    /// literal of each unit clause, until a sweep changes nothing. Returns the
    /// index of the first clause found in conflict, if any.
    pub fn propagate(&mut self) -> (r: Option<usize>)
        requires
            old(self).inv(),
        ensures
            final(self).inv(),
            final(self)@.clauses == old(self)@.clauses,
            final(self)@.trail_lim == old(self)@.trail_lim,
            old(self)@.trail.len() <= final(self)@.trail.len(),
            final(self)@.trail.take(old(self)@.trail.len() as int) == old(self)@.trail,
            forall|p: int|
                old(self)@.trail.len() <= p < final(self)@.trail.len() ==> (#[trigger] final(self)@.trail[p]).0
                    <= max_clause_var(final(self)@.clauses),
            forall|v: i64| #[trigger] old(self)@.assignment.contains_key(v) ==> final(self)@.assignment.contains_key(v)
                && final(self)@.assignment[v] == old(self)@.assignment[v],
            match r {
                Some(ci) => ci < final(self)@.clauses.len() && clause_conflict(
                    final(self)@.clauses[ci as int].lits@,
                    final(self)@.assignment,
                ),
                None => forall|k: int| 0 <= k < final(self)@.clauses.len() ==> #[trigger] settled(
                    final(self)@.clauses[k].lits@,
                    final(self)@.assignment,
                ),
            },
            r matches Some(ci) ==> (final(self)@.trail.len() == old(self)@.trail.len() ==> forall|k: int|
                0 <= k < ci ==> #[trigger] settled(final(self)@.clauses[k].lits@, final(self)@.assignment)),
            old(self).justified() ==> final(self).justified(),
            old(self).structured() ==> final(self).structured(),
    {
        let ghost s0 = self@;
        let ghost j0 = self.justified();
        let ghost st0 = self.structured();
        let ghost nb: nat = (max_clause_var(self@.clauses) + 1) as nat;
        proof {
            lemma_max_clause_var_nonneg(self@.clauses);
        }
        let mut changed = true;
        while changed
            invariant
                self.inv(),
                nb == max_clause_var(self@.clauses) + 1,
                nb <= i64::MAX + 1,
                s0 == old(self)@,
                j0 == old(self).justified(),
                j0 ==> self.justified(),
                st0 == old(self).structured(),
                st0 ==> self.structured(),
                self@.clauses == s0.clauses,
                self@.trail_lim == s0.trail_lim,
                s0.trail.len() <= self@.trail.len(),
                self@.trail.take(s0.trail.len() as int) == s0.trail,
                forall|p: int|
                    s0.trail.len() <= p < self@.trail.len() ==> (#[trigger] self@.trail[p]).0 <= max_clause_var(
                        self@.clauses,
                    ),
                forall|v: i64| #[trigger] s0.assignment.contains_key(v) ==> self@.assignment.contains_key(v)
                    && self@.assignment[v] == s0.assignment[v],
                !changed ==> forall|k: int| 0 <= k < self@.clauses.len() ==> #[trigger] settled(
                    self@.clauses[k].lits@,
                    self@.assignment,
                ),
            decreases unassigned_below(self@.assignment, nb) + if changed { 1nat } else { 0nat },
        {
            changed = false;
            let ghost a0 = self@.assignment;
            let n = self.clauses.len();
            let mut ci: usize = 0;
            while ci < n
                invariant
                    self.inv(),
                    nb == max_clause_var(self@.clauses) + 1,
                    nb <= i64::MAX + 1,
                    n == self@.clauses.len(),
                    ci <= n,
                    s0 == old(self)@,
                    j0 == old(self).justified(),
                    j0 ==> self.justified(),
                    st0 == old(self).structured(),
                    st0 ==> self.structured(),
                    self@.clauses == s0.clauses,
                    self@.trail_lim == s0.trail_lim,
                    s0.trail.len() <= self@.trail.len(),
                    self@.trail.take(s0.trail.len() as int) == s0.trail,
                    forall|p: int|
                        s0.trail.len() <= p < self@.trail.len() ==> (#[trigger] self@.trail[p]).0 <= max_clause_var(
                            self@.clauses,
                        ),
                    forall|v: i64| #[trigger] s0.assignment.contains_key(v) ==> self@.assignment.contains_key(v)
                        && self@.assignment[v] == s0.assignment[v],
                    forall|v: i64| #[trigger] a0.contains_key(v) ==> self@.assignment.contains_key(v)
                        && self@.assignment[v] == a0[v],
                    !changed ==> self@.assignment == a0,
                    !changed ==> forall|k: int| 0 <= k < ci ==> #[trigger] settled(
                        self@.clauses[k].lits@,
                        self@.assignment,
                    ),
                    changed ==> unassigned_below(self@.assignment, nb) < unassigned_below(a0, nb),
                    changed ==> self@.trail.len() > s0.trail.len(),
                decreases n - ci,
            {
                proof {
                    reveal(CDCL::inv);
                }
                let sat = self.clauses[ci].is_satisfied(&self.assignment);
                let conf = self.clauses[ci].is_conflict(&self.assignment);
                let unit = self.clauses[ci].is_unit(&self.assignment);
                if sat {
                    ci = ci + 1;
                    continue;
                }
                if conf {
                    return Some(ci);
                }
                match unit {
                    Some(lit) => {
                        let ghost before = self@;
                        proof {
                            lemma_unit_literal(self@.clauses[ci as int].lits@, self@.assignment);
                            let i = choose|i: int|
                                0 <= i < self@.clauses[ci as int].lits@.len()
                                    && self@.clauses[ci as int].lits@[i] == lit;
                            lemma_max_clause_var(self@.clauses, ci as int, i);
                            assert(lit_ok(self.clauses@[ci as int].lits@[i]));
                            lemma_unit_reason(self@.clauses[ci as int].lits@, self@.assignment);
                        }
                        let ok = self.enqueue(lit, Some(ci));
                        proof {
                            assert(self@.trail.take(s0.trail.len() as int) =~= s0.trail) by {
                                assert(before.trail.take(s0.trail.len() as int) == s0.trail);
                            }
                            assert forall|p: int|
                                s0.trail.len() <= p < self@.trail.len() implies (#[trigger] self@.trail[p]).0
                                    <= max_clause_var(self@.clauses) by {
                                if p < before.trail.len() {
                                    assert(self@.trail[p] == before.trail[p]);
                                }
                            }
                            lemma_unassigned_below_mono(a0, before.assignment, nb);
                            lemma_unassigned_below_strict(
                                before.assignment,
                                self@.assignment,
                                nb,
                                lit_var(lit) as int,
                            );
                        }
                        if !ok {
                            return Some(ci);
                        }
                        changed = true;
                    },
                    None => {},
                }
                ci = ci + 1;
            }
        }
        None
    }
}

/// `l` is a literal of some clause of `cs`.
pub open spec fn clause_lit(cs: Seq<Clause>, l: Lit) -> bool {
    exists|k: int, j: int| 0 <= k < cs.len() && 0 <= j < cs[k].lits@.len() && #[trigger] cs[k].lits@[j] == l
}

/// The largest decision level below `cur` among the literals' variables
/// (0 when there is none).
pub open spec fn max_low_level(lits: Seq<Lit>, t: Seq<(i64, bool)>, lim: Seq<usize>, cur: nat) -> nat
    decreases lits.len(),
{
    if lits.len() == 0 {
        0
    } else {
        let rest = max_low_level(lits.drop_last(), t, lim, cur);
        let dl = level_of_var_spec(t, lim, lit_var(lits.last()));
        if dl < cur && dl > rest {
            dl
        } else {
            rest
        }
    }
}

/// The literal that trail entry `e` makes true.
pub open spec fn trail_literal(e: (i64, bool)) -> Lit {
    Lit(if e.1 { e.0 } else { (-e.0) as i64 })
}

impl CDCL {
    /// The last trail position holding `v`, or 0 when `v` is not on the trail.
    fn last_pos_of(&self, v: i64) -> (r: usize)
        ensures
            self@.trail.len() == 0 ==> r == 0,
            self@.trail.len() > 0 ==> r < self@.trail.len(),
            (exists|p: int| 0 <= p < self@.trail.len() && (#[trigger] self@.trail[p]).0 == v) ==> (
            self@.trail[r as int].0 == v && forall|p: int|
                r < p < self@.trail.len() ==> (#[trigger] self@.trail[p]).0 != v),
            !(exists|p: int| 0 <= p < self@.trail.len() && (#[trigger] self@.trail[p]).0 == v) ==> r == 0,
    {
        let mut i: usize = self.trail.len();
        while i > 0
            invariant
                i <= self@.trail.len(),
                forall|p: int| i <= p < self@.trail.len() ==> (#[trigger] self@.trail[p]).0 != v,
            decreases i,
        {
            if self.trail[i - 1].0 == v {
                return i - 1;
            }
            i = i - 1;
        }
        0
    }

    /// The highest decision level among the variables of clause `ci` (0 for
    /// an empty clause).
    fn clause_top_level(&self, ci: usize) -> (r: usize)
        requires
            self.inv(),
            ci < self@.clauses.len(),
        ensures
            forall|j: int|
                0 <= j < self@.clauses[ci as int].lits@.len() ==> level_of_var_spec(
                    self@.trail,
                    self@.trail_lim,
                    lit_var(#[trigger] self@.clauses[ci as int].lits@[j]),
                ) <= r,
            self@.clauses[ci as int].lits@.len() > 0 ==> exists|j: int|
                0 <= j < self@.clauses[ci as int].lits@.len() && level_of_var_spec(
                    self@.trail,
                    self@.trail_lim,
                    lit_var(#[trigger] self@.clauses[ci as int].lits@[j]),
                ) == r,
            self@.clauses[ci as int].lits@.len() == 0 ==> r == 0,
    {
        proof {
            reveal(CDCL::inv);
        }
        let ghost lits = self@.clauses[ci as int].lits@;
        let n = self.clauses[ci].lits.len();
        let mut top: usize = 0;
        let mut j: usize = 0;
        while j < n
            invariant
                self.inv(),
                ci < self@.clauses.len(),
                lits == self@.clauses[ci as int].lits@,
                n == lits.len(),
                j <= n,
                forall|i: int| 0 <= i < j ==> level_of_var_spec(self@.trail, self@.trail_lim, lit_var(#[trigger] lits[i])) <= top,
                j > 0 ==> exists|i: int| 0 <= i < j && level_of_var_spec(self@.trail, self@.trail_lim, lit_var(#[trigger] lits[i])) == top,
                j == 0 ==> top == 0,
            decreases n - j,
        {
            let l = self.clauses[ci].lits[j];
            proof {
                reveal(CDCL::inv);
                assert(lit_ok(self.clauses@[ci as int].lits@[j as int]));
            }
            let dl = self.level_of_var(l.var());
            if j == 0 || dl > top {
                top = dl;
            }
            j = j + 1;
        }
        top
    }

    /// Conflict analysis by the first unique implication point (1-UIP).
    /// Starting from the conflict clause, literals of earlier decision levels
    /// are collected and variables of the current level are marked. Walking
    /// the trail backwards, the latest marked entry is resolved with its
    /// antecedent clause while another marked entry of the current level lies
    /// below it; the last one left is the UIP. The learnt clause is the
    /// collected literals followed by the negated UIP literal; it follows from
    /// the clauses, all its literals but the last are false on earlier levels,
    /// and the backtrack level is the largest of those levels (0 when there is
    /// none), where the clause becomes unit. The solver state is left as it was.
    pub fn analyze(&mut self, conflict_idx: usize) -> (r: (Clause, usize))
        requires
            old(self).inv(),
            old(self).justified(),
            old(self).structured(),
            conflict_idx < old(self)@.clauses.len(),
            clause_conflict(old(self)@.clauses[conflict_idx as int].lits@, old(self)@.assignment),
            old(self)@.trail_lim.len() > 0,
            exists|j: int|
                0 <= j < old(self)@.clauses[conflict_idx as int].lits@.len() && level_of_var_spec(
                    old(self)@.trail,
                    old(self)@.trail_lim,
                    lit_var(#[trigger] old(self)@.clauses[conflict_idx as int].lits@[j]),
                ) == old(self)@.trail_lim.len(),
        ensures
            *final(self) == *old(self),
            r.0.learnt,
            r.0.lits@.len() >= 1,
            forall|i: int| 0 <= i < r.0.lits@.len() ==> lit_ok(#[trigger] r.0.lits@[i]),
            forall|i: int|
                0 <= i < r.0.lits@.len() - 1 ==> clause_lit(old(self)@.clauses, #[trigger] r.0.lits@[i])
                    && level_of_var_spec(old(self)@.trail, old(self)@.trail_lim, lit_var(r.0.lits@[i]))
                    < old(self)@.trail_lim.len() && lit_false(r.0.lits@[i], old(self)@.assignment),
            exists|p: int|
                old(self)@.trail_lim.last() <= p < old(self)@.trail.len() && r.0.lits@.last().0 == -trail_literal(
                    #[trigger] old(self)@.trail[p],
                ).0,
            level_of_var_spec(old(self)@.trail, old(self)@.trail_lim, lit_var(r.0.lits@.last()))
                == old(self)@.trail_lim.len(),
            r.1 == max_low_level(r.0.lits@, old(self)@.trail, old(self)@.trail_lim, old(self)@.trail_lim.len()),
            nonzero_lits(old(self)@.clauses) ==> entails(old(self)@.clauses, r.0.lits@) && r.0.lits@.last().0 != 0,
    {
        proof {
            reveal(CDCL::inv);
            reveal(CDCL::justified);
            reveal(CDCL::structured);
        }
        let ghost cs = self@.clauses;
        let ghost t = self@.trail;
        let ghost m = self@.assignment;
        let ghost lim = self@.trail_lim;
        let ghost ants = self.antecedents@;
        let cur = self.trail_lim.len();
        let start = self.trail_lim[cur - 1];
        let n = self.trail.len();
        proof {
            lemma_trail_map_dom(t);
            lemma_trail_map_value(t);
        }
        let mut learnt: Vec<Lit> = Vec::new();
        let mut seen: HashSet<i64> = HashSet::new();
        let mut idx: usize = n - 1;
        let mut ci: usize = conflict_idx;
        let mut pivot: Option<i64> = None;
        loop
            invariant_except_break
                ci < cs.len(),
                match pivot {
                    None => ci == conflict_idx && learnt@.len() == 0 && seen@ == Set::<i64>::empty() && idx == n - 1,
                    Some(v) => {
                        &&& idx + 1 < n
                        &&& t[idx + 1].0 == v
                        &&& ants.contains_key(v)
                        &&& ants[v] == ci
                        &&& res_ok(cs, t, learnt@, seen@, start as int, idx + 1)
                        &&& exists|q: int| start <= q <= idx && seen@.contains(#[trigger] t[q].0)
                    },
                },
            invariant
                *self == *old(self),
                self.inv(),
                cs == self@.clauses,
                t == self@.trail,
                m == self@.assignment,
                lim == self@.trail_lim,
                ants == self.antecedents@,
                cs == old(self)@.clauses,
                t == old(self)@.trail,
                m == old(self)@.assignment,
                lim == old(self)@.trail_lim,
                justified_by(cs, t, m, ants),
                forall|p: int| 0 <= p < t.len() && !lim.contains(p as usize) ==> ants.contains_key(#[trigger] t[p].0),
                m == trail_map(t),
                trail_distinct(t),
                forall|i: int| 0 <= i < t.len() ==> trail_map(t).contains_key(#[trigger] t[i].0),
                forall|p: int| 0 <= p < t.len() ==> trail_map(t)[#[trigger] t[p].0] == t[p].1,
                forall|v: i64| #[trigger] trail_map(t).contains_key(v) <==> exists|i: int| 0 <= i < t.len() && t[i].0 == v,
                clause_conflict(cs[conflict_idx as int].lits@, m),
                conflict_idx < cs.len(),
                exists|j: int|
                    0 <= j < cs[conflict_idx as int].lits@.len() && level_of_var_spec(
                        t,
                        lim,
                        lit_var(#[trigger] cs[conflict_idx as int].lits@[j]),
                    ) == lim.len(),
                cur == lim.len(),
                cur > 0,
                start == lim[cur - 1],
                n == t.len(),
                start < n,
                start <= idx < n,
                forall|i: int|
                    0 <= i < learnt@.len() ==> clause_lit(cs, #[trigger] learnt@[i]) && lit_false(learnt@[i], m) && lit_ok(
                        learnt@[i],
                    ) && seen@.contains(lit_var(learnt@[i])) && exists|p: int| 0 <= p < start && t[p].0 == lit_var(learnt@[i]),
                forall|v: i64|
                    #[trigger] seen@.contains(v) ==> (exists|i: int| 0 <= i < learnt@.len() && lit_var(learnt@[i]) == v) || (
                    exists|q: int| start <= q < n && t[q].0 == v),
                forall|v: i64| #[trigger] seen@.contains(v) ==> clause_var(cs, v),
            ensures
                start <= idx < n,
                seen@.contains(t[idx as int].0),
                forall|q: int| start <= q < idx ==> !seen@.contains(#[trigger] t[q].0),
                res_ok(cs, t, learnt@, seen@, start as int, idx as int),
            decreases idx,
        {
            let ghost l0 = learnt@;
            let ghost s0 = seen@;
            let ghost idx_top = idx;
            let len = self.clauses[ci].lits.len();
            let mut j: usize = 0;
            while j < len
                invariant
                    *self == *old(self),
                    self.inv(),
                    cs == self@.clauses,
                    t == self@.trail,
                    m == self@.assignment,
                    lim == self@.trail_lim,
                    ants == self.antecedents@,
                    justified_by(cs, t, m, ants),
                    m == trail_map(t),
                    trail_distinct(t),
                    forall|i: int| 0 <= i < t.len() ==> trail_map(t).contains_key(#[trigger] t[i].0),
                    forall|p: int| 0 <= p < t.len() ==> trail_map(t)[#[trigger] t[p].0] == t[p].1,
                    forall|v: i64| #[trigger] trail_map(t).contains_key(v) <==> exists|i: int| 0 <= i < t.len() && t[i].0 == v,
                    clause_conflict(cs[conflict_idx as int].lits@, m),
                    ci < cs.len(),
                    len == cs[ci as int].lits@.len(),
                    j <= len,
                    cur == lim.len(),
                    start == lim[cur - 1],
                    n == t.len(),
                    start <= idx < n,
                    match pivot {
                        None => ci == conflict_idx && idx == n - 1,
                        Some(v) => idx + 1 < n && t[idx + 1].0 == v && ants.contains_key(v) && ants[v] == ci,
                    },
                    learnt@.len() >= l0.len(),
                    forall|i: int| 0 <= i < l0.len() ==> learnt@[i] == l0[i],
                    forall|v: i64| s0.contains(v) ==> seen@.contains(v),
                    forall|i: int|
                        0 <= i < learnt@.len() ==> clause_lit(cs, #[trigger] learnt@[i]) && lit_false(learnt@[i], m)
                            && lit_ok(learnt@[i]) && seen@.contains(lit_var(learnt@[i])) && exists|p: int|
                            0 <= p < start && t[p].0 == lit_var(learnt@[i]),
                    forall|v: i64|
                        #[trigger] seen@.contains(v) ==> (exists|i: int| 0 <= i < learnt@.len() && lit_var(learnt@[i]) == v)
                            || (exists|q: int| start <= q < n && t[q].0 == v),
                    forall|v: i64| #[trigger] seen@.contains(v) ==> clause_var(cs, v),
                    forall|jj: int|
                        0 <= jj < j && (pivot is None || lit_var(cs[ci as int].lits@[jj]) != pivot->0) ==> covered(
                            #[trigger] cs[ci as int].lits@[jj],
                            learnt@,
                            seen@,
                            t,
                            start as int,
                            idx as int,
                        ),
                decreases len - j,
            {
                let l = self.clauses[ci].lits[j];
                let ghost lj = cs[ci as int].lits@[j as int];
                assert(l == lj);
                assert(lit_ok(l));
                let v = l.var();
                let skip = match pivot {
                    Some(pv) => v == pv,
                    None => false,
                };
                let ghost lb = learnt@;
                let ghost sb = seen@;
                if !skip {
                    proof {
                        match pivot {
                            None => {
                                assert(lit_false(cs[ci as int].lits@[j as int], m));
                            },
                            Some(pv) => {
                                assert(reason_holds(t, m, cs[ants[pv] as int].lits@, pv));
                                assert(lit_false(cs[ci as int].lits@[j as int], m));
                            },
                        }
                    }
                    assert(lit_false(l, m));
                    let ghost p0 = choose|p: int| 0 <= p < t.len() && t[p].0 == v;
                    proof {
                        // The literal's trail position comes before the pivot's.
                        if let Some(pv) = pivot {
                            assert(before_on_trail(t, v, pv));
                            let (pp, qq) = choose|pp: int, qq: int| 0 <= pp < qq < t.len() && t[pp].0 == v && t[qq].0 == pv;
                            if qq != idx + 1 {
                                if qq < idx + 1 {
                                    assert(t[qq].0 != t[idx + 1].0);
                                } else {
                                    assert(t[idx + 1].0 != t[qq].0);
                                }
                            }
                            if pp != p0 {
                                if pp < p0 {
                                    assert(t[pp].0 != t[p0].0);
                                } else {
                                    assert(t[p0].0 != t[pp].0);
                                }
                            }
                        }
                        assert(p0 <= idx);
                        assert(t[p0].1 != lit_sign(l));
                    }
                    if seen.contains(&v) {
                        proof {
                            if p0 >= start {
                                assert(seen@.contains(t[p0].0));
                            } else {
                                if exists|i: int| 0 <= i < learnt@.len() && lit_var(learnt@[i]) == v {
                                    let i = choose|i: int| 0 <= i < learnt@.len() && lit_var(learnt@[i]) == v;
                                    assert(lit_false(learnt@[i], m));
                                    assert(lit_var(#[trigger] learnt@[i]) == lit_var(l) && lit_sign(learnt@[i]) == lit_sign(l));
                                } else {
                                    let q = choose|q: int| start <= q < n && t[q].0 == v;
                                    assert(t[q].0 != t[p0].0);
                                }
                            }
                            assert(covered(l, learnt@, seen@, t, start as int, idx as int));
                        }
                    } else {
                        let pos = self.last_pos_of(v);
                        assert(pos as int == p0) by {
                            if pos as int != p0 {
                                if (pos as int) < p0 {
                                    assert(t[pos as int].0 != t[p0].0);
                                } else {
                                    assert(t[p0].0 != t[pos as int].0);
                                }
                            }
                        }
                        seen.insert(v);
                        if pos >= start {
                            proof {
                                assert(seen@.contains(t[p0].0));
                                assert(covered(l, learnt@, seen@, t, start as int, idx as int));
                            }
                        } else {
                            learnt.push(l);
                            proof {
                                assert(learnt@[lb.len() as int] == l);
                                assert(covered(l, learnt@, seen@, t, start as int, idx as int));
                            }
                        }
                        proof {
                            assert(clause_var(cs, v)) by {
                                assert(lit_var(cs[ci as int].lits@[j as int]) == v);
                            }
                            assert(clause_lit(cs, l)) by {
                                assert(cs[ci as int].lits@[j as int] == l);
                            }
                            assert forall|i: int|
                                0 <= i < learnt@.len() implies clause_lit(cs, #[trigger] learnt@[i]) && lit_false(learnt@[i], m)
                                    && lit_ok(learnt@[i]) && seen@.contains(lit_var(learnt@[i])) && exists|p: int|
                                    0 <= p < start && t[p].0 == lit_var(learnt@[i]) by {
                                if i < lb.len() {
                                    assert(learnt@[i] == lb[i]);
                                } else {
                                    assert(t[p0].0 == lit_var(learnt@[i]));
                                }
                            }
                            assert forall|w: i64| #[trigger] seen@.contains(w) implies (exists|i: int|
                                0 <= i < learnt@.len() && lit_var(learnt@[i]) == w) || (exists|q: int|
                                start <= q < n && t[q].0 == w) by {
                                if w == v {
                                    if pos >= start {
                                        assert(t[p0].0 == w);
                                    } else {
                                        assert(lit_var(learnt@[lb.len() as int]) == w);
                                    }
                                } else {
                                    assert(sb.contains(w));
                                    if exists|i: int| 0 <= i < lb.len() && lit_var(lb[i]) == w {
                                        let i = choose|i: int| 0 <= i < lb.len() && lit_var(lb[i]) == w;
                                        assert(learnt@[i] == lb[i]);
                                    }
                                }
                            }
                            assert forall|w: i64| #[trigger] seen@.contains(w) implies clause_var(cs, w) by {
                                if w != v {
                                    assert(sb.contains(w));
                                }
                            }
                        }
                    }
                }
                proof {
                    assert forall|jj: int|
                        0 <= jj < j + 1 && (pivot is None || lit_var(cs[ci as int].lits@[jj]) != pivot->0) implies covered(
                            #[trigger] cs[ci as int].lits@[jj],
                            learnt@,
                            seen@,
                            t,
                            start as int,
                            idx as int,
                        ) by {
                        if jj < j {
                            let lk = cs[ci as int].lits@[jj];
                            assert(covered(lk, lb, sb, t, start as int, idx as int));
                            if exists|i: int| 0 <= i < lb.len() && lit_var(#[trigger] lb[i]) == lit_var(lk) && lit_sign(lb[i])
                                == lit_sign(lk) {
                                let i = choose|i: int| 0 <= i < lb.len() && lit_var(#[trigger] lb[i]) == lit_var(lk) && lit_sign(
                                    lb[i],
                                ) == lit_sign(lk);
                                assert(learnt@[i] == lb[i]);
                                assert(lit_var(#[trigger] learnt@[i]) == lit_var(lk) && lit_sign(learnt@[i]) == lit_sign(lk));
                            } else {
                                let q = choose|q: int| start <= q <= idx && sb.contains(#[trigger] t[q].0) && t[q].0 == lit_var(lk)
                                    && t[q].1 != lit_sign(lk);
                                assert(seen@.contains(t[q].0));
                            }
                        }
                    }
                }
                j = j + 1;
            }
            proof {
                match pivot {
                    None => {
                        lemma_res_start(cs, t, learnt@, seen@, start as int, idx as int, ci as int);
                    },
                    Some(pv) => {
                        let a_lits = cs[ci as int].lits@;
                        assert(reason_holds(t, m, a_lits, pv));
                        assert forall|jj: int|
                            0 <= jj < a_lits.len() implies if lit_var(#[trigger] a_lits[jj]) == t[idx + 1].0 {
                                lit_sign(a_lits[jj]) == t[idx + 1].1
                            } else {
                                covered(a_lits[jj], learnt@, seen@, t, start as int, idx as int)
                            } by {
                            if lit_var(a_lits[jj]) == t[idx + 1].0 {
                                assert(lit_true(a_lits[jj], m));
                            }
                        }
                        lemma_res_step(cs, t, l0, s0, learnt@, seen@, start as int, idx as int, ci as int);
                    },
                }
                // Some marked entry of the current level lies at or below `idx`.
                match pivot {
                    None => {
                        let jc = choose|jc: int|
                            0 <= jc < cs[conflict_idx as int].lits@.len() && level_of_var_spec(
                                t,
                                lim,
                                lit_var(#[trigger] cs[conflict_idx as int].lits@[jc]),
                            ) == lim.len();
                        let lc = cs[conflict_idx as int].lits@[jc];
                        assert(covered(lc, learnt@, seen@, t, start as int, idx as int));
                        assert(lit_false(lc, m));
                        let pc = choose|pc: int| 0 <= pc < t.len() && t[pc].0 == lit_var(lc);
                        lemma_var_level(t, lim, pc);
                        assert(pc >= start) by {
                            if pc < start {
                                assert(level_of_pos(lim, pc) <= cur - 1);
                            }
                        }
                        if exists|i: int| 0 <= i < learnt@.len() && lit_var(#[trigger] learnt@[i]) == lit_var(lc) && lit_sign(
                            learnt@[i],
                        ) == lit_sign(lc) {
                            let i = choose|i: int| 0 <= i < learnt@.len() && lit_var(#[trigger] learnt@[i]) == lit_var(lc)
                                && lit_sign(learnt@[i]) == lit_sign(lc);
                            let p1 = choose|p1: int| 0 <= p1 < start && t[p1].0 == lit_var(learnt@[i]);
                            assert(t[p1].0 != t[pc].0);
                        }
                        assert(exists|q: int| start <= q <= idx && seen@.contains(#[trigger] t[q].0));
                    },
                    Some(pv) => {
                        let q = choose|q: int| start <= q <= idx && s0.contains(#[trigger] t[q].0);
                        assert(seen@.contains(t[q].0));
                    },
                }
            }
            // The latest marked entry at or below `idx`.
            while !seen.contains(&self.trail[idx].0)
                invariant
                    *self == *old(self),
                    t == self@.trail,
                    start <= idx < n,
                    n == t.len(),
                    exists|q: int| start <= q <= idx && seen@.contains(#[trigger] t[q].0),
                    res_ok(cs, t, learnt@, seen@, start as int, idx as int),
                    idx <= idx_top,
                decreases idx,
            {
                proof {
                    let q = choose|q: int| start <= q <= idx && seen@.contains(#[trigger] t[q].0);
                    assert(q != idx);
                    lemma_res_lower(cs, t, learnt@, seen@, start as int, idx as int);
                }
                idx = idx - 1;
            }
            // Is there another marked entry of the current level below it?
            let mut q: usize = idx;
            let mut other = false;
            while q > start && !other
                invariant
                    *self == *old(self),
                    t == self@.trail,
                    start <= q <= idx < n,
                    n == t.len(),
                    !other ==> forall|r: int| q <= r < idx ==> !seen@.contains(#[trigger] t[r].0),
                    other ==> q < idx && seen@.contains(t[q as int].0),
                decreases q,
            {
                q = q - 1;
                if seen.contains(&self.trail[q].0) {
                    other = true;
                }
            }
            if !other {
                break;
            }
            let v = self.trail[idx].0;
            proof {
                assert(!lim.contains(idx as usize)) by {
                    if lim.contains(idx as usize) {
                        let w = choose|w: int| 0 <= w < lim.len() && lim[w] == idx as usize;
                        if w < cur - 1 {
                            assert(lim[w] < lim[cur - 1]);
                        }
                    }
                }
                assert(ants.contains_key(t[idx as int].0));
            }
            let next = match self.antecedents.get(&v) {
                Some(c) => *c,
                None => 0,
            };
            proof {
                assert(next == ants[v]);
                assert(seen@.contains(t[q as int].0));
            }
            ci = next;
            pivot = Some(v);
            idx = idx - 1;
        }
        let (v, b) = self.trail[idx];
        assert(v >= 0);
        let neg = Lit(
            if b {
                -v
            } else {
                v
            },
        );
        let ghost body = learnt@;
        learnt.push(neg);
        let mut bt: usize = 0;
        let mut q: usize = 0;
        while q < learnt.len()
            invariant
                *self == *old(self),
                t == self@.trail,
                lim == self@.trail_lim,
                cur == lim.len(),
                q <= learnt@.len(),
                learnt@ == body.push(neg),
                forall|x: int| 0 <= x < body.len() ==> lit_ok(#[trigger] body[x]),
                lit_ok(neg),
                bt == max_low_level(learnt@.take(q as int), t, lim, cur as nat),
            decreases learnt@.len() - q,
        {
            let l = learnt[q];
            assert(lit_ok(l)) by {
                if q < body.len() {
                    assert(learnt@[q as int] == body[q as int]);
                }
            }
            let dl = self.level_of_var(l.var());
            assert(learnt@.take(q + 1).drop_last() =~= learnt@.take(q as int));
            if dl < cur && dl > bt {
                bt = dl;
            }
            q = q + 1;
        }
        assert(learnt@.take(q as int) =~= learnt@);
        proof {
            let u = idx as int;
            lemma_var_level(t, lim, u);
            assert(level_of_pos(lim, u) >= cur);
            assert(neg.0 == -trail_literal(t[u]).0);
            assert(learnt@.last() == neg);
            assert forall|x: int| 0 <= x < learnt@.len() implies lit_ok(#[trigger] learnt@[x]) by {
                if x < body.len() {
                    assert(learnt@[x] == body[x]);
                }
            }
            assert forall|x: int|
                0 <= x < learnt@.len() - 1 implies clause_lit(cs, #[trigger] learnt@[x]) && level_of_var_spec(
                    t,
                    lim,
                    lit_var(learnt@[x]),
                ) < cur && lit_false(learnt@[x], m) by {
                assert(learnt@[x] == body[x]);
                let p = choose|p: int| 0 <= p < start && t[p].0 == lit_var(body[x]);
                lemma_var_level(t, lim, p);
                assert(level_of_pos(lim, p) <= cur - 1);
            }
            if nonzero_lits(cs) {
                assert(seen@.contains(t[u].0));
                assert(clause_var(cs, v));
                let (kk, jj) = choose|kk: int, jj: int|
                    0 <= kk < cs.len() && 0 <= jj < cs[kk].lits@.len() && lit_var(#[trigger] cs[kk].lits@[jj]) == v;
                assert(cs[kk].lits@[jj].0 != 0);
                assert(v >= 1);
                assert(neg.0 != 0);
                assert forall|a: spec_fn(i64) -> bool| #[trigger] satisfies_all(cs, a) implies clause_holds(learnt@, a) by {
                    if !clause_holds(learnt@, a) {
                        assert forall|i: int| 0 <= i < body.len() implies !lit_holds(#[trigger] body[i], a) by {
                            assert(learnt@[i] == body[i]);
                            if lit_holds(body[i], a) {
                                assert(lit_holds(learnt@[i], a));
                            }
                        }
                        assert(!lit_holds(learnt@[body.len() as int], a));
                        assert(a(t[u].0) == t[u].1);
                        assert forall|qq: int| start <= qq <= u && seen@.contains(#[trigger] t[qq].0) implies a(t[qq].0)
                            == t[qq].1 by {
                            if qq < u {
                                assert(!seen@.contains(t[qq].0));
                            }
                        }
                    }
                }
            }
        }
        (Clause::learnt(learnt), bt)
    }
}

impl CDCL {
    /// Assigns `true` to every variable of `1..=max` (the largest variable of
    /// the clauses) still unassigned, as decisions on the current level.
    fn complete_assignment(&mut self)
        requires
            old(self).inv(),
        ensures
            final(self).inv(),
            old(self).justified() ==> final(self).justified(),
            final(self)@.clauses == old(self)@.clauses,
            forall|j: i64| old(self)@.assignment.contains_key(j) ==> #[trigger] final(self)@.assignment.contains_key(j),
            forall|j: i64| 1 <= j <= max_clause_var(final(self)@.clauses) ==> #[trigger] final(self)@.assignment.contains_key(j),
            (forall|j: i64| 1 <= j <= max_clause_var(old(self)@.clauses) ==> #[trigger] old(self)@.assignment.contains_key(j))
                ==> final(self)@ == old(self)@,
    {
        let max_var = max_var_of(&self.clauses);
        if max_var < 1 {
            return;
        }
        let ghost s0 = self@;
        let mut i: i64 = 1;
        loop
            invariant_except_break
                1 <= i <= max_var,
                forall|j: i64| 1 <= j < i ==> #[trigger] self@.assignment.contains_key(j),
            invariant
                self.inv(),
                s0 == old(self)@,
                old(self).justified() ==> self.justified(),
                self@.clauses == s0.clauses,
                max_var == max_clause_var(self@.clauses),
                forall|j: i64| s0.assignment.contains_key(j) ==> #[trigger] self@.assignment.contains_key(j),
                (forall|j: i64| 1 <= j <= max_var ==> #[trigger] s0.assignment.contains_key(j)) ==> self@ == s0,
            ensures
                forall|j: i64| 1 <= j <= max_var ==> #[trigger] self@.assignment.contains_key(j),
            decreases max_var - i,
        {
            if !self.assignment.contains_key(&i) {
                self.enqueue(Lit(i), None);
            }
            if i == max_var {
                break;
            }
            i = i + 1;
        }
    }

    /// Handles a conflict on a decision level: backtracks first to the highest
    /// level of the conflict clause when it has no literal on the current
    /// level, then learns the 1-UIP clause, backtracks to its level and
    /// assigns its last literal. Returns `false` when the conflict leaves no
    /// decision level, and then no assignment satisfies the clauses.
    #[verifier::rlimit(100)]
    #[verifier::spinoff_prover]
    fn resolve_conflict(&mut self, conflict: usize, Ghost(orig): Ghost<Seq<Clause>>, Ghost(nb): Ghost<int>) -> (r: bool)
        requires
            old(self).inv(),
            old(self).justified(),
            old(self).structured(),
            conflict < old(self)@.clauses.len(),
            clause_conflict(old(self)@.clauses[conflict as int].lits@, old(self)@.assignment),
            old(self)@.trail_lim.len() > 0,
            nb >= 0,
            nb <= i64::MAX,
            search_ok(old(self)@, nb, orig),
            nonzero_lits(orig) ==> nonzero_lits(old(self)@.clauses),
            nonzero_lits(orig) ==> forall|k: int|
                0 <= k < old(self)@.clauses.len() ==> entails(orig, #[trigger] old(self)@.clauses[k].lits@),
        ensures
            final(self).inv(),
            final(self).justified(),
            final(self).structured(),
            search_ok(final(self)@, nb, orig),
            nonzero_lits(orig) ==> nonzero_lits(final(self)@.clauses),
            nonzero_lits(orig) ==> forall|k: int|
                0 <= k < final(self)@.clauses.len() ==> entails(orig, #[trigger] final(self)@.clauses[k].lits@),
            !r ==> (nonzero_lits(orig) ==> !satisfiable(orig)),
            r ==> digits_value(level_digits(old(self)@.trail_lim, old(self)@.trail.len(), (nb + 2) as nat), nb + 2)
                < digits_value(level_digits(final(self)@.trail_lim, final(self)@.trail.len(), (nb + 2) as nat), nb + 2),
    {
        let ghost p = self@;
        proof {
            lemma_state_digits(*self, nb);
        }
        let top = self.clause_top_level(conflict);
        let cur = self.current_level();
        let ghost cl = p.clauses[conflict as int].lits@;
        proof {
            reveal(CDCL::inv);
            lemma_trail_map_dom(p.trail);
            assert forall|j: int| 0 <= j < cl.len() implies level_of_var_spec(p.trail, p.trail_lim, lit_var(#[trigger] cl[j]))
                <= cur by {
                assert(lit_false(cl[j], p.assignment));
                let pp = choose|pp: int| 0 <= pp < p.trail.len() && p.trail[pp].0 == lit_var(cl[j]);
                lemma_var_level(p.trail, p.trail_lim, pp);
            }
            if cl.len() > 0 {
                let j0 = choose|j0: int| 0 <= j0 < cl.len() && level_of_var_spec(p.trail, p.trail_lim, lit_var(#[trigger] cl[j0])) == top;
                assert(top <= cur);
            }
        }
        if top < cur {
            proof {
                lemma_conflict_kept(p.trail, p.trail_lim, cl, top as int);
            }
            self.backtrack_to(top);
            if top == 0 {
                proof {
                    assert(self@.assignment == trail_map(p.trail.take(p.trail_lim[0] as int)));
                    lemma_level_zero_unsat(*self, orig, conflict as int);
                }
                return false;
            }
            proof {
                let j0 = choose|j0: int| 0 <= j0 < cl.len() && level_of_var_spec(p.trail, p.trail_lim, lit_var(#[trigger] cl[j0])) == top;
                assert(level_of_var_spec(self@.trail, self@.trail_lim, lit_var(cl[j0])) == self@.trail_lim.len());
            }
        } else {
            proof {
                assert(cl.len() > 0);
            }
        }
        let ghost q = self@;
        proof {
            reveal(CDCL::inv);
            assert(q.clauses == p.clauses);
            assert(q.trail_lim.len() > 0);
            assert(q.trail_lim[0] < q.trail.len());
        }
        let (learnt, bt) = self.analyze(conflict);
        proof {
            lemma_max_low_level(learnt.lits@, q.trail, q.trail_lim, q.trail_lim.len());
        }
        self.backtrack_to(bt);
        let ghost k = self@;
        let ghost lits = learnt.lits@;
        let ghost ka = self.antecedents@;
        let ghost kc = learnt;
        proof {
            reveal(CDCL::justified);
            lemma_justified_more_clauses(k.clauses, kc, k.trail, k.assignment, ka);
            // The learnt clause is unit after backtracking.
            reveal(CDCL::inv);
            lemma_learnt_asserting(q, k, lits, bt as int);
            if top < cur {
                assert(q.trail_lim == p.trail_lim.take(top as int));
                assert(q.trail == p.trail.take(p.trail_lim[top as int] as int));
                assert(k.trail_lim =~= p.trail_lim.take(bt as int));
                assert(p.trail_lim[bt as int] < p.trail_lim[top as int]);
                assert(k.trail =~= p.trail.take(p.trail_lim[bt as int] as int));
            }
        }
        self.clauses.push(learnt);
        let last = self.clauses.len() - 1;
        self.learnts.push(last);
        proof {
            reveal(CDCL::inv);
            reveal(CDCL::justified);
            reveal(CDCL::structured);
            assert(self@.clauses == p.clauses.push(self@.clauses[last as int]));
            assert(self@.clauses[last as int].lits@ == lits);
            assert forall|x: int| 0 <= x < lits.len() implies lit_var(#[trigger] lits[x]) <= nb by {
                if x < lits.len() - 1 {
                    let (kk, jj) = choose|kk: int, jj: int|
                        0 <= kk < p.clauses.len() && 0 <= jj < p.clauses[kk].lits@.len()
                            && #[trigger] p.clauses[kk].lits@[jj] == lits[x];
                    assert(lit_var(p.clauses[kk].lits@[jj]) <= nb);
                } else {
                    let qq = choose|qq: int|
                        q.trail_lim.last() <= qq < q.trail.len() && lits.last().0 == -trail_literal(#[trigger] q.trail[qq]).0;
                    assert(q.trail[qq] == p.trail[qq]);
                    assert(p.trail[qq].0 <= nb);
                    assert(p.trail[qq].0 >= 0);
                }
            }
            assert forall|kk: int, jj: int|
                0 <= kk < self@.clauses.len() && 0 <= jj < self@.clauses[kk].lits@.len() implies lit_ok(
                #[trigger] self@.clauses[kk].lits@[jj],
            ) by {
                if kk < p.clauses.len() {
                    assert(self@.clauses[kk] == p.clauses[kk]);
                } else {
                    assert(self@.clauses[kk].lits@ == lits);
                    assert(lit_ok(lits[jj]));
                }
            }
            assert(self.inv());
            if nonzero_lits(orig) {
                assert forall|kk: int, jj: int|
                    0 <= kk < self@.clauses.len() && 0 <= jj < self@.clauses[kk].lits@.len() implies (
                    #[trigger] self@.clauses[kk].lits@[jj]).0 != 0 by {
                    if kk < p.clauses.len() {
                        assert(self@.clauses[kk] == p.clauses[kk]);
                    } else if jj < lits.len() - 1 {
                        let (k2, j2) = choose|k2: int, j2: int|
                            0 <= k2 < p.clauses.len() && 0 <= j2 < p.clauses[k2].lits@.len()
                                && #[trigger] p.clauses[k2].lits@[j2] == lits[jj];
                        assert(p.clauses[k2].lits@[j2].0 != 0);
                    }
                }
                assert forall|kk: int| 0 <= kk < self@.clauses.len() implies entails(
                    orig,
                    #[trigger] self@.clauses[kk].lits@,
                ) by {
                    if kk < p.clauses.len() {
                        assert(self@.clauses[kk] == p.clauses[kk]);
                    } else {
                        assert forall|a: spec_fn(i64) -> bool| #[trigger] satisfies_all(orig, a) implies clause_holds(
                            lits,
                            a,
                        ) by {
                            assert forall|k3: int| 0 <= k3 < p.clauses.len() implies #[trigger] clause_holds(
                                p.clauses[k3].lits@,
                                a,
                            ) by {
                                assert(entails(orig, p.clauses[k3].lits@));
                            }
                            assert(satisfies_all(p.clauses, a));
                        }
                    }
                }
            }
        }
        let unit = self.clauses[last].is_unit(&self.assignment);
        let lit = match unit {
            Some(l) => l,
            None => {
                proof {
                    assert(false);
                }
                Lit(0)
            },
        };
        proof {
            lemma_unit_literal(lits, self@.assignment);
            lemma_unit_reason(lits, self@.assignment);
        }
        self.enqueue(lit, Some(last));
        proof {
            assert(search_ok(self@, nb, orig)) by {
                assert forall|i: int| 0 <= i < self@.trail.len() implies (#[trigger] self@.trail[i]).0
                    <= nb by {
                    if i < k.trail.len() {
                        assert(self@.trail[i] == p.trail[i]);
                    }
                }
                assert forall|kk: int, jj: int|
                    0 <= kk < self@.clauses.len() && 0 <= jj < self@.clauses[kk].lits@.len() implies lit_var(
                    #[trigger] self@.clauses[kk].lits@[jj],
                ) <= nb by {
                    if kk < p.clauses.len() {
                        assert(self@.clauses[kk] == p.clauses[kk]);
                    } else {
                        assert(self@.clauses[kk].lits@ == lits);
                        assert(lit_var(lits[jj]) <= nb);
                    }
                }
                assert(self@.clauses.take(orig.len() as int) =~= orig) by {
                    assert(p.clauses.take(orig.len() as int) == orig);
                }
                assert forall|kk: int| orig.len() <= kk < self@.clauses.len() implies (
                #[trigger] self@.clauses[kk]).learnt by {
                    if kk < p.clauses.len() {
                        assert(self@.clauses[kk] == p.clauses[kk]);
                    }
                }
            }
            lemma_state_digits(*self, nb);
            let c1 = level_digits(p.trail_lim, p.trail.len(), (nb + 2) as nat);
            let c2 = level_digits(self@.trail_lim, self@.trail.len(), (nb + 2) as nat);
            assert(bt < p.trail_lim.len());
            assert(self@.trail_lim == p.trail_lim.take(bt as int));
            assert(self@.trail.len() == p.trail_lim[bt as int] + 1);
            assert forall|i: int| 0 <= i < bt implies c1[i] == #[trigger] c2[i] by {}
            lemma_digits_lex(c1, c2, (nb + 2), bt as int);
        }
        true
    }

    /// Runs the search: alternates unit propagation, conflict analysis with
    /// non-chronological backtracking and clause learning, and decisions.
    /// A conflict with no decision on the trail ends the search with `None`;
    /// a conflict whose clause has no literal of the current level first
    /// backtracks to the highest level among its literals. With no conflict
    /// and nothing left to decide, it completes the assignment and, when every
    /// clause is satisfied, returns it. Every learnt clause follows from the
    /// clauses; when no literal has the code 0, `None` means that no
    /// assignment satisfies the clauses.
    #[verifier::rlimit(80)]
    #[verifier::spinoff_prover]
    pub fn solve(&mut self) -> (r: Option<HashMap<i64, bool>>)
        requires
            old(self).inv(),
            old(self).justified(),
            old(self).structured(),
        ensures
            final(self).inv(),
            final(self).justified(),
            final(self)@.clauses.len() >= old(self)@.clauses.len(),
            final(self)@.clauses.take(old(self)@.clauses.len() as int) == old(self)@.clauses,
            forall|k: int|
                old(self)@.clauses.len() <= k < final(self)@.clauses.len() ==> (#[trigger] final(self)@.clauses[k]).learnt,
            nonzero_lits(old(self)@.clauses) ==> forall|k: int|
                0 <= k < final(self)@.clauses.len() ==> entails(old(self)@.clauses, #[trigger] final(self)@.clauses[k].lits@),
            match r {
                Some(m) => {
                    &&& m@ == final(self)@.assignment
                    &&& forall|k: int|
                        0 <= k < final(self)@.clauses.len() ==> clause_satisfied(
                            #[trigger] final(self)@.clauses[k].lits@,
                            m@,
                        )
                    &&& forall|j: i64| 1 <= j <= max_clause_var(final(self)@.clauses) ==> #[trigger] m@.contains_key(j)
                },
                None => nonzero_lits(old(self)@.clauses) ==> !satisfiable(old(self)@.clauses),
            },
    {
        let ghost s0 = self@;
        let ghost nz = nonzero_lits(s0.clauses);
        let ghost nb: int = if max_clause_var(s0.clauses) > max_trail_var(s0.trail) {
            max_clause_var(s0.clauses) as int
        } else {
            max_trail_var(s0.trail) as int
        };
        proof {
            reveal(CDCL::inv);
            lemma_max_clause_var_nonneg(s0.clauses);
            lemma_max_trail_var(s0.trail);
            assert forall|k: int, j: int|
                0 <= k < s0.clauses.len() && 0 <= j < s0.clauses[k].lits@.len() implies lit_var(
                #[trigger] s0.clauses[k].lits@[j],
            ) <= nb by {
                lemma_max_clause_var(s0.clauses, k, j);
            }
            assert(s0.clauses.take(s0.clauses.len() as int) =~= s0.clauses);
            assert forall|k: int| 0 <= k < s0.clauses.len() implies entails(s0.clauses, #[trigger] s0.clauses[k].lits@) by {
                assert forall|a: spec_fn(i64) -> bool| #[trigger] satisfies_all(s0.clauses, a) implies clause_holds(
                    s0.clauses[k].lits@,
                    a,
                ) by {}
            }
        }
        let ghost width: nat = (nb + 2) as nat;
        loop
            invariant
                self.inv(),
                self.justified(),
                self.structured(),
                s0 == old(self)@,
                nz == nonzero_lits(s0.clauses),
                nb >= 0,
                nb <= i64::MAX,
                width == nb + 2,
                search_ok(self@, nb, s0.clauses),
                nz ==> nonzero_lits(self@.clauses),
                nz ==> forall|k: int| 0 <= k < self@.clauses.len() ==> entails(s0.clauses, #[trigger] self@.clauses[k].lits@),
            decreases search_measure(self@, width),
        {
            let ghost st = self@;
            proof {
                lemma_state_digits(*self, nb);
            }
            let step = self.propagate();
            proof {
                lemma_max_clause_var_le(self@.clauses, nb);
                lemma_propagated_vars(st, self@, nb);
            }
            match step {
                Some(conflict) => {
                    let ghost p = self@;
                    proof {
                        lemma_state_digits(*self, nb);
                        assert(search_ok(p, nb, s0.clauses));
                    }
                    if self.current_level() == 0 {
                        proof {
                            lemma_level_zero_unsat(*self, s0.clauses, conflict as int);
                        }
                        return None;
                    }
                    let cont = self.resolve_conflict(conflict, Ghost(s0.clauses), Ghost(nb));
                    if !cont {
                        return None;
                    }
                    proof {
                        lemma_state_digits(*self, nb);
                        let c0 = level_digits(st.trail_lim, st.trail.len(), width);
                        let c1 = level_digits(p.trail_lim, p.trail.len(), width);
                        lemma_digits_mono(c0, c1, width as int);
                    }
                },
                None => {
                    let ghost p = self@;
                    proof {
                        assert(search_ok(p, nb, s0.clauses));
                        assert(p.trail.len() == self.trail.len());
                    }
                    match self.decide() {
                        Some(_) => {
                            proof {
                                assert(search_ok(self@, nb, s0.clauses)) by {
                                    assert forall|i: int| 0 <= i < self@.trail.len() implies (
                                    #[trigger] self@.trail[i]).0 <= nb by {
                                        if i < p.trail.len() {
                                            assert(self@.trail[i] == p.trail[i]);
                                        }
                                    }
                                }
                                lemma_state_digits(*self, nb);
                                let c0 = level_digits(st.trail_lim, st.trail.len(), width);
                                let c1 = level_digits(p.trail_lim, p.trail.len(), width);
                                let c2 = level_digits(self@.trail_lim, self@.trail.len(), width);
                                lemma_digits_mono(c0, c1, width as int);
                                let j = p.trail_lim.len() + 1;
                                assert forall|i: int| 0 <= i < j implies c1[i] == #[trigger] c2[i] by {
                                    if i < p.trail_lim.len() {
                                        assert(self@.trail_lim[i] == p.trail_lim[i]);
                                    } else {
                                        assert(self@.trail_lim[i] == p.trail.len());
                                    }
                                }
                                lemma_digits_lex(c1, c2, width as int, j as int);
                            }
                        },
                        None => {
                            self.complete_assignment();
                            let ghost pc = self@;
                            let mut q: usize = 0;
                            while q < self.clauses.len()
                                invariant
                                    self.inv(),
                                    self.justified(),
                                    s0 == old(self)@,
                                    nz == nonzero_lits(s0.clauses),
                                    self@ == pc,
                                    pc == p,
                                    pc.clauses == p.clauses,
                                    search_ok(p, nb, s0.clauses),
                                    nz ==> nonzero_lits(self@.clauses),
                                    nz ==> forall|k: int|
                                        0 <= k < self@.clauses.len() ==> entails(s0.clauses, #[trigger] self@.clauses[k].lits@),
                                    forall|k: int| 0 <= k < p.clauses.len() ==> #[trigger] settled(p.clauses[k].lits@, p.assignment),
                                    forall|j: i64|
                                        1 <= j <= max_clause_var(pc.clauses) ==> #[trigger] pc.assignment.contains_key(j),
                                    q <= self@.clauses.len(),
                                    forall|kk: int|
                                        0 <= kk < q ==> clause_satisfied(
                                            #[trigger] self@.clauses[kk].lits@,
                                            self@.assignment,
                                        ),
                                decreases self@.clauses.len() - q,
                            {
                                proof {
                                    reveal(CDCL::inv);
                                    assert forall|i: int| 0 <= i < self@.clauses[q as int].lits@.len() implies lit_ok(
                                        #[trigger] self@.clauses[q as int].lits@[i],
                                    ) by {
                                        assert(lit_ok(self.clauses@[q as int].lits@[i]));
                                    }
                                }
                                if !self.clauses[q].is_satisfied(&self.assignment) {
                                    proof {
                                        if nz {
                                            let lits = p.clauses[q as int].lits@;
                                            assert forall|i: int| 0 <= i < lits.len() implies p.assignment.contains_key(
                                                lit_var(#[trigger] lits[i]),
                                            ) by {
                                                lemma_max_clause_var(p.clauses, q as int, i);
                                                assert(lits[i].0 != 0);
                                            }
                                            lemma_settled_full(lits, p.assignment);
                                        }
                                    }
                                    return None;
                                }
                                q = q + 1;
                            }
                            return Some(self.assignment.clone());
                        },
                    }
                },
            }
        }
    }
}

// ---------------------------------------------------------------------------
// Progress of the search
// ---------------------------------------------------------------------------

/// Value of the digit sequence `c` in base `b`, most significant digit first.
pub open spec fn digits_value(c: Seq<int>, b: int) -> int
    decreases c.len(),
{
    if c.len() == 0 {
        0
    } else {
        digits_value(c.drop_last(), b) * b + c.last()
    }
}

/// `b` to the power `n`.
pub open spec fn power(b: int, n: nat) -> int
    decreases n,
{
    if n == 0 {
        1
    } else {
        power(b, (n - 1) as nat) * b
    }
}

/// Every digit lies in `0..b`.
pub open spec fn digits_below(c: Seq<int>, b: int) -> bool {
    forall|i: int| 0 <= i < c.len() ==> 0 <= #[trigger] c[i] < b
}

proof fn lemma_digits_bound(c: Seq<int>, b: int)
    requires
        b >= 1,
        digits_below(c, b),
    ensures
        0 <= digits_value(c, b) < power(b, c.len()),
    decreases c.len(),
{
    if c.len() > 0 {
        let c0 = c.drop_last();
        assert(digits_below(c0, b)) by {
            assert forall|i: int| 0 <= i < c0.len() implies 0 <= #[trigger] c0[i] < b by {
                assert(c0[i] == c[i]);
            }
        }
        lemma_digits_bound(c0, b);
        let v = digits_value(c0, b);
        let p = power(b, c0.len());
        let d = c.last();
        assert(0 <= v * b + d < p * b) by (nonlinear_arith)
            requires
                0 <= v < p,
                0 <= d < b,
        ;
    }
}

proof fn lemma_digits_mono(c: Seq<int>, c2: Seq<int>, b: int)
    requires
        b >= 1,
        c.len() == c2.len(),
        digits_below(c, b),
        forall|i: int| 0 <= i < c.len() ==> c[i] <= #[trigger] c2[i],
    ensures
        digits_value(c, b) <= digits_value(c2, b),
    decreases c.len(),
{
    if c.len() > 0 {
        let (c0, c20) = (c.drop_last(), c2.drop_last());
        assert(digits_below(c0, b)) by {
            assert forall|i: int| 0 <= i < c0.len() implies 0 <= #[trigger] c0[i] < b by {
                assert(c0[i] == c[i]);
            }
        }
        assert forall|i: int| 0 <= i < c0.len() implies c0[i] <= #[trigger] c20[i] by {
            assert(c0[i] == c[i] && c20[i] == c2[i]);
        }
        lemma_digits_mono(c0, c20, b);
        lemma_digits_bound(c0, b);
        let (v, v2) = (digits_value(c0, b), digits_value(c20, b));
        let (d, d2) = (c.last(), c2.last());
        assert(v * b + d <= v2 * b + d2) by (nonlinear_arith)
            requires
                0 <= v <= v2,
                d <= d2,
                b >= 1,
        ;
    }
}

proof fn lemma_digits_lex(c: Seq<int>, c2: Seq<int>, b: int, j: int)
    requires
        b >= 1,
        c.len() == c2.len(),
        digits_below(c, b),
        digits_below(c2, b),
        0 <= j < c.len(),
        forall|i: int| 0 <= i < j ==> c[i] == #[trigger] c2[i],
        c[j] < c2[j],
    ensures
        digits_value(c, b) < digits_value(c2, b),
    decreases c.len(),
{
    let (c0, c20) = (c.drop_last(), c2.drop_last());
    assert(digits_below(c0, b) && digits_below(c20, b)) by {
        assert forall|i: int| 0 <= i < c0.len() implies 0 <= #[trigger] c0[i] < b by {
            assert(c0[i] == c[i]);
        }
        assert forall|i: int| 0 <= i < c20.len() implies 0 <= #[trigger] c20[i] < b by {
            assert(c20[i] == c2[i]);
        }
    }
    lemma_digits_bound(c0, b);
    lemma_digits_bound(c20, b);
    let (v, v2) = (digits_value(c0, b), digits_value(c20, b));
    let (d, d2) = (c.last(), c2.last());
    if j == c.len() - 1 {
        assert(c0 =~= c20) by {
            assert forall|i: int| 0 <= i < c0.len() implies c0[i] == c20[i] by {
                assert(c[i] == c2[i]);
            }
        }
    } else {
        assert forall|i: int| 0 <= i < j implies c0[i] == #[trigger] c20[i] by {
            assert(c[i] == c2[i]);
        }
        lemma_digits_lex(c0, c20, b, j);
        assert(v * b + d < v2 * b + d2) by (nonlinear_arith)
            requires
                0 <= v < v2,
                0 <= d < b,
                0 <= d2,
        ;
    }
}

/// The boundaries of the decision levels, padded to `width` with the trail length.
pub open spec fn level_digits(lim: Seq<usize>, t: nat, width: nat) -> Seq<int> {
    Seq::new(width, |i: int| if i < lim.len() { lim[i] as int } else { t as int })
}

/// Search progress measure: decreases with every step of the main loop.
pub open spec fn search_measure(s: CdclView, width: nat) -> int {
    power(width as int, width) - digits_value(level_digits(s.trail_lim, s.trail.len(), width), width as int)
}

/// Largest variable on a trail (0 when none).
pub open spec fn max_trail_var(t: Seq<(i64, bool)>) -> i64
    decreases t.len(),
{
    if t.len() == 0 {
        0
    } else {
        let rest = max_trail_var(t.drop_last());
        if t.last().0 > rest {
            t.last().0
        } else {
            rest
        }
    }
}

proof fn lemma_max_trail_var(t: Seq<(i64, bool)>)
    ensures
        max_trail_var(t) >= 0,
        forall|i: int| 0 <= i < t.len() ==> (#[trigger] t[i]).0 <= max_trail_var(t),
    decreases t.len(),
{
    if t.len() > 0 {
        lemma_max_trail_var(t.drop_last());
        assert forall|i: int| 0 <= i < t.len() implies (#[trigger] t[i]).0 <= max_trail_var(t) by {
            if i < t.len() - 1 {
                assert(t.drop_last()[i] == t[i]);
            }
        }
    }
}

/// A trail of distinct variables from `0..=nb` has at most `nb + 1` entries.
proof fn lemma_trail_len_bound(t: Seq<(i64, bool)>, nb: int)
    requires
        nb >= 0,
        trail_distinct(t),
        forall|i: int| 0 <= i < t.len() ==> 0 <= (#[trigger] t[i]).0 <= nb,
    ensures
        t.len() <= nb + 1,
{
    let vs = t.map_values(|e: (i64, bool)| e.0 as int);
    assert(vs.no_duplicates()) by {
        assert forall|i: int, j: int| 0 <= i < vs.len() && 0 <= j < vs.len() && i != j implies vs[i] != vs[j] by {
            if i < j {
                assert(t[i].0 != t[j].0);
            } else {
                assert(t[j].0 != t[i].0);
            }
        }
    }
    vs.unique_seq_to_set();
    vstd::set_lib::lemma_int_range(0, nb + 1);
    assert(vs.to_set().subset_of(vstd::set_lib::set_int_range(0, nb + 1))) by {
        assert forall|x: int| vs.to_set().contains(x) implies vstd::set_lib::set_int_range(0, nb + 1).contains(x) by {
            let i = choose|i: int| 0 <= i < vs.len() && vs[i] == x;
            assert(0 <= t[i].0 <= nb);
        }
    }
    vstd::set_lib::lemma_len_subset(vs.to_set(), vstd::set_lib::set_int_range(0, nb + 1));
}

/// Strictly increasing marks below `t` number at most `t`.
proof fn lemma_marks_len(lim: Seq<usize>, t: nat, i: int)
    requires
        forall|a: int, b: int| 0 <= a < b < lim.len() ==> lim[a] < lim[b],
        0 <= i < lim.len(),
    ensures
        lim[i] >= i,
    decreases i,
{
    if i > 0 {
        lemma_marks_len(lim, t, i - 1);
    }
}

/// The largest low level is below `cur` when `cur` is positive, and 0 otherwise.
proof fn lemma_max_low_level(lits: Seq<Lit>, t: Seq<(i64, bool)>, lim: Seq<usize>, cur: nat)
    ensures
        cur > 0 ==> max_low_level(lits, t, lim, cur) < cur,
        cur == 0 ==> max_low_level(lits, t, lim, cur) == 0,
    decreases lits.len(),
{
    if lits.len() > 0 {
        lemma_max_low_level(lits.drop_last(), t, lim, cur);
    }
}

/// When every literal's variable is at most `nb >= 0`, so is the largest one.
proof fn lemma_max_clause_var_le(cs: Seq<Clause>, nb: int)
    requires
        nb >= 0,
        forall|k: int, j: int|
            0 <= k < cs.len() && 0 <= j < cs[k].lits@.len() ==> lit_var(#[trigger] cs[k].lits@[j]) <= nb,
    ensures
        max_clause_var(cs) <= nb,
    decreases cs.len(),
{
    if cs.len() > 0 {
        let c0 = cs.drop_last();
        assert forall|k: int, j: int| 0 <= k < c0.len() && 0 <= j < c0[k].lits@.len() implies lit_var(
            #[trigger] c0[k].lits@[j],
        ) <= nb by {
            assert(c0[k] == cs[k]);
        }
        lemma_max_clause_var_le(c0, nb);
        let lits = cs.last().lits@;
        assert(max_lit_var(lits) <= nb) by {
            lemma_max_lit_var_le(lits, nb);
            assert forall|j: int| 0 <= j < lits.len() implies lit_var(#[trigger] lits[j]) <= nb by {
                assert(cs[cs.len() - 1].lits@[j] == lits[j]);
            }
        }
    }
}

proof fn lemma_max_lit_var_le(lits: Seq<Lit>, nb: int)
    requires
        nb >= 0,
    ensures
        (forall|j: int| 0 <= j < lits.len() ==> lit_var(#[trigger] lits[j]) <= nb) ==> max_lit_var(lits) <= nb,
    decreases lits.len(),
{
    if lits.len() > 0 {
        lemma_max_lit_var_le(lits.drop_last(), nb);
        if forall|j: int| 0 <= j < lits.len() ==> lit_var(#[trigger] lits[j]) <= nb {
            assert forall|j: int| 0 <= j < lits.drop_last().len() implies lit_var(
                #[trigger] lits.drop_last()[j],
            ) <= nb by {
                assert(lits.drop_last()[j] == lits[j]);
            }
            assert(lit_var(lits[lits.len() - 1]) <= nb);
        }
    }
}

/// What the search keeps between its steps: the variables of the trail and
/// of every clause stay within `0..=nb`, and the clause list is `orig`
/// followed by learnt clauses.
pub open spec fn search_ok(s: CdclView, nb: int, orig: Seq<Clause>) -> bool {
    &&& forall|i: int| 0 <= i < s.trail.len() ==> (#[trigger] s.trail[i]).0 <= nb
    &&& forall|k: int, j: int|
        0 <= k < s.clauses.len() && 0 <= j < s.clauses[k].lits@.len() ==> lit_var(#[trigger] s.clauses[k].lits@[j]) <= nb
    &&& s.clauses.len() >= orig.len()
    &&& s.clauses.take(orig.len() as int) == orig
    &&& forall|k: int| orig.len() <= k < s.clauses.len() ==> (#[trigger] s.clauses[k]).learnt
}

/// Propagation keeps the trail's variables within a bound that covers the clauses.
proof fn lemma_propagated_vars(before: CdclView, after: CdclView, nb: int)
    requires
        forall|i: int| 0 <= i < before.trail.len() ==> (#[trigger] before.trail[i]).0 <= nb,
        before.trail.len() <= after.trail.len(),
        after.trail.take(before.trail.len() as int) == before.trail,
        forall|p: int|
            before.trail.len() <= p < after.trail.len() ==> (#[trigger] after.trail[p]).0 <= max_clause_var(
                after.clauses,
            ),
        max_clause_var(after.clauses) <= nb,
    ensures
        forall|i: int| 0 <= i < after.trail.len() ==> (#[trigger] after.trail[i]).0 <= nb,
{
    assert forall|i: int| 0 <= i < after.trail.len() implies (#[trigger] after.trail[i]).0 <= nb by {
        if i < before.trail.len() {
            assert(after.trail.take(before.trail.len() as int)[i] == after.trail[i]);
        }
    }
}

/// The level digits of a consistent state whose variables stay within `0..=nb`
/// are in range, and there is room for one more level.
proof fn lemma_state_digits(s: CDCL, nb: int)
    requires
        s.inv(),
        nb >= 0,
        forall|i: int| 0 <= i < s@.trail.len() ==> (#[trigger] s@.trail[i]).0 <= nb,
    ensures
        s@.trail.len() <= nb + 1,
        s@.trail_lim.len() <= s@.trail.len(),
        digits_below(level_digits(s@.trail_lim, s@.trail.len(), (nb + 2) as nat), nb + 2),
        0 <= digits_value(level_digits(s@.trail_lim, s@.trail.len(), (nb + 2) as nat), nb + 2) < power(
            nb + 2,
            (nb + 2) as nat,
        ),
{
    lemma_trail_len_bound(s@.trail, nb);
    let lim = s@.trail_lim;
    if lim.len() > 0 {
        lemma_marks_len(lim, s@.trail.len(), lim.len() - 1);
    }
    let c = level_digits(lim, s@.trail.len(), (nb + 2) as nat);
    assert(digits_below(c, nb + 2)) by {
        assert forall|i: int| 0 <= i < c.len() implies 0 <= #[trigger] c[i] < nb + 2 by {
            if i < lim.len() {
                assert(lim[i] < s@.trail.len());
            }
        }
    }
    lemma_digits_bound(c, nb + 2);
}

/// Number of variables in `0..hi` to which `m` gives no value.
pub open spec fn unassigned_below(m: Map<i64, bool>, hi: nat) -> nat
    decreases hi,
{
    if hi == 0 {
        0
    } else {
        unassigned_below(m, (hi - 1) as nat) + if m.contains_key((hi - 1) as i64) {
            0nat
        } else {
            1nat
        }
    }
}

/// Assigning more variables never raises the count of unassigned ones.
proof fn lemma_unassigned_below_mono(m: Map<i64, bool>, m2: Map<i64, bool>, hi: nat)
    requires
        hi <= i64::MAX + 1,
        forall|v: i64| m.contains_key(v) ==> #[trigger] m2.contains_key(v),
    ensures
        unassigned_below(m2, hi) <= unassigned_below(m, hi),
    decreases hi,
{
    if hi > 0 {
        lemma_unassigned_below_mono(m, m2, (hi - 1) as nat);
    }
}

/// Assigning a new variable of `0..hi` lowers the count of unassigned ones.
proof fn lemma_unassigned_below_strict(m: Map<i64, bool>, m2: Map<i64, bool>, hi: nat, j: int)
    requires
        hi <= i64::MAX + 1,
        forall|v: i64| m.contains_key(v) ==> #[trigger] m2.contains_key(v),
        0 <= j < hi,
        !m.contains_key(j as i64),
        m2.contains_key(j as i64),
    ensures
        unassigned_below(m2, hi) < unassigned_below(m, hi),
    decreases hi,
{
    if j < hi - 1 {
        lemma_unassigned_below_strict(m, m2, (hi - 1) as nat, j);
    } else {
        lemma_unassigned_below_mono(m, m2, (hi - 1) as nat);
    }
}

/// Every literal's variable is at most the largest one.
proof fn lemma_max_lit_var(lits: Seq<Lit>, i: int)
    requires
        0 <= i < lits.len(),
    ensures
        lit_var(lits[i]) <= max_lit_var(lits),
    decreases lits.len(),
{
    if i < lits.len() - 1 {
        lemma_max_lit_var(lits.drop_last(), i);
        assert(lits.drop_last()[i] == lits[i]);
    }
}

/// The largest variable of a clause list is non-negative.
proof fn lemma_max_clause_var_nonneg(cs: Seq<Clause>)
    ensures
        max_clause_var(cs) >= 0,
    decreases cs.len(),
{
    if cs.len() > 0 {
        lemma_max_clause_var_nonneg(cs.drop_last());
    }
}

/// Every literal of every clause has a variable at most the largest one.
proof fn lemma_max_clause_var(cs: Seq<Clause>, k: int, i: int)
    requires
        0 <= k < cs.len(),
        0 <= i < cs[k].lits@.len(),
    ensures
        lit_var(cs[k].lits@[i]) <= max_clause_var(cs),
    decreases cs.len(),
{
    if k < cs.len() - 1 {
        lemma_max_clause_var(cs.drop_last(), k, i);
        assert(cs.drop_last()[k] == cs[k]);
    } else {
        lemma_max_lit_var(cs[k].lits@, i);
    }
}

/// A unit literal is one of the clause's literals, and its variable is unassigned.
proof fn lemma_unit_literal(lits: Seq<Lit>, m: Map<i64, bool>)
    requires
        unit_literal(lits, m) is Some,
    ensures
        exists|i: int| 0 <= i < lits.len() && lits[i] == unit_literal(lits, m)->0,
        !m.contains_key(lit_var(unit_literal(lits, m)->0)),
{
    let pred = |l: Lit| !m.contains_key(lit_var(l));
    let u = unassigned_lits(lits, m);
    lits.lemma_filter_pred(pred, 0);
    assert(u.contains(u[0]));
    lits.lemma_filter_contains_rev(pred, u[0]);
}

/// A clause state reached by unit propagation: satisfied, or neither in
/// conflict nor unit.
pub open spec fn settled(lits: Seq<Lit>, m: Map<i64, bool>) -> bool {
    clause_satisfied(lits, m) || (!clause_conflict(lits, m) && unit_literal(lits, m) is None)
}

/// Reasons stay reasons when a new variable is appended to the trail.
proof fn lemma_justified_push(cs: Seq<Clause>, t: Seq<(i64, bool)>, m: Map<i64, bool>, ants: Map<i64, usize>, w: i64, b: bool)
    requires
        justified_by(cs, t, m, ants),
        !m.contains_key(w),
    ensures
        justified_by(cs, t.push((w, b)), m.insert(w, b), ants),
{
    let t2 = t.push((w, b));
    let m2 = m.insert(w, b);
    assert forall|v: i64| #[trigger] ants.contains_key(v) implies ants[v] < cs.len() && m2.contains_key(v) && reason_holds(
        t2,
        m2,
        cs[ants[v] as int].lits@,
        v,
    ) by {
        let lits = cs[ants[v] as int].lits@;
        assert forall|j: int| 0 <= j < lits.len() && lit_var(lits[j]) != v implies lit_false(#[trigger] lits[j], m2)
            && before_on_trail(t2, lit_var(lits[j]), v) by {
            assert(lit_false(lits[j], m) && before_on_trail(t, lit_var(lits[j]), v));
            let (p, q) = choose|p: int, q: int| 0 <= p < q < t.len() && t[p].0 == lit_var(lits[j]) && t[q].0 == v;
            assert(t2[p] == t[p] && t2[q] == t[q]);
        }
    }
}

/// A clause whose other literals are false becomes the reason of a variable
/// appended to the trail.
proof fn lemma_reason_push(lits: Seq<Lit>, t: Seq<(i64, bool)>, m: Map<i64, bool>, w: i64, b: bool)
    requires
        m == trail_map(t),
        reason_ready(m, lits, w, b),
    ensures
        reason_holds(t.push((w, b)), m.insert(w, b), lits, w),
{
    lemma_trail_map_dom(t);
    let t2 = t.push((w, b));
    assert forall|j: int| 0 <= j < lits.len() && lit_var(lits[j]) != w implies lit_false(#[trigger] lits[j], m.insert(w, b))
        && before_on_trail(t2, lit_var(lits[j]), w) by {
        assert(lit_false(lits[j], m));
        let x = lit_var(lits[j]);
        assert(m.contains_key(x));
        let p = choose|p: int| 0 <= p < t.len() && t[p].0 == x;
        assert(t2[p] == t[p] && t2[t.len() as int] == (w, b));
    }
}

/// Reasons of the remaining variables stay reasons when the last trail entry
/// is removed together with its reason.
proof fn lemma_justified_pop(cs: Seq<Clause>, t: Seq<(i64, bool)>, m: Map<i64, bool>, ants: Map<i64, usize>)
    requires
        justified_by(cs, t, m, ants),
        t.len() > 0,
        trail_distinct(t),
    ensures
        justified_by(cs, t.drop_last(), m.remove(t.last().0), ants.remove(t.last().0)),
{
    let w = t.last().0;
    let t2 = t.drop_last();
    let m2 = m.remove(w);
    let a2 = ants.remove(w);
    assert forall|v: i64| #[trigger] a2.contains_key(v) implies a2[v] < cs.len() && m2.contains_key(v) && reason_holds(
        t2,
        m2,
        cs[a2[v] as int].lits@,
        v,
    ) by {
        assert(ants.contains_key(v) && v != w);
        let lits = cs[ants[v] as int].lits@;
        assert forall|j: int| 0 <= j < lits.len() && lit_var(lits[j]) != v implies lit_false(#[trigger] lits[j], m2)
            && before_on_trail(t2, lit_var(lits[j]), v) by {
            assert(lit_false(lits[j], m) && before_on_trail(t, lit_var(lits[j]), v));
            let (p, q) = choose|p: int, q: int| 0 <= p < q < t.len() && t[p].0 == lit_var(lits[j]) && t[q].0 == v;
            if q == t.len() - 1 {
                assert(t[q].0 == w);
            }
            assert(t[p].0 != t[t.len() - 1].0);
            assert(t2[p] == t[p] && t2[q] == t[q]);
        }
    }
}

/// Reasons stay reasons when a clause is added.
proof fn lemma_justified_more_clauses(cs: Seq<Clause>, c: Clause, t: Seq<(i64, bool)>, m: Map<i64, bool>, ants: Map<i64, usize>)
    requires
        justified_by(cs, t, m, ants),
    ensures
        justified_by(cs.push(c), t, m, ants),
{
    assert forall|v: i64| #[trigger] ants.contains_key(v) implies ants[v] < cs.push(c).len() && m.contains_key(v) && reason_holds(
        t,
        m,
        cs.push(c)[ants[v] as int].lits@,
        v,
    ) by {
        assert(cs.push(c)[ants[v] as int] == cs[ants[v] as int]);
    }
}

/// The clause of a unit literal is ready to be its reason.
proof fn lemma_unit_reason(lits: Seq<Lit>, m: Map<i64, bool>)
    requires
        unit_literal(lits, m) is Some,
    ensures
        reason_ready(m, lits, lit_var(unit_literal(lits, m)->0), lit_sign(unit_literal(lits, m)->0)),
{
    let u = unit_literal(lits, m)->0;
    let pred = |l: Lit| !m.contains_key(lit_var(l));
    let f = lits.filter(pred);
    assert(f.len() == 1 && f[0] == u);
    lits.lemma_filter_pred(pred, 0);
    assert(!m.contains_key(lit_var(u)));
    assert forall|j: int| 0 <= j < lits.len() implies if lit_var(#[trigger] lits[j]) != lit_var(u) {
        lit_false(lits[j], m)
    } else {
        lit_sign(lits[j]) == lit_sign(u)
    } by {
        if !m.contains_key(lit_var(lits[j])) {
            lits.lemma_filter_contains(pred, j);
            let i = choose|i: int| 0 <= i < f.len() && f[i] == lits[j];
            assert(f[i] == u);
        } else {
            assert(!lit_true(lits[j], m));
        }
    }
}

/// The keys of a trail's assignment are exactly its variables.
proof fn lemma_trail_map_dom(t: Seq<(i64, bool)>)
    ensures
        forall|v: i64| #[trigger] trail_map(t).contains_key(v) <==> exists|i: int| 0 <= i < t.len() && t[i].0 == v,
        forall|i: int| 0 <= i < t.len() ==> trail_map(t).contains_key(#[trigger] t[i].0),
    decreases t.len(),
{
    if t.len() > 0 {
        lemma_trail_map_dom(t.drop_last());
        assert forall|v: i64| #[trigger] trail_map(t).contains_key(v) <==> exists|i: int|
            0 <= i < t.len() && t[i].0 == v by {
            if trail_map(t).contains_key(v) && v != t.last().0 {
                assert(trail_map(t.drop_last()).contains_key(v));
                let i = choose|i: int| 0 <= i < t.drop_last().len() && t.drop_last()[i].0 == v;
                assert(t[i].0 == v);
            }
            if v == t.last().0 {
                assert(t[t.len() - 1].0 == v);
            }
            if exists|i: int| 0 <= i < t.len() && t[i].0 == v {
                let i = choose|i: int| 0 <= i < t.len() && t[i].0 == v;
                if i < t.len() - 1 {
                    assert(t.drop_last()[i].0 == v);
                }
            }
        }
        assert forall|i: int| 0 <= i < t.len() implies trail_map(t).contains_key(#[trigger] t[i].0) by {
            if i < t.len() - 1 {
                assert(t.drop_last()[i] == t[i]);
                assert(trail_map(t.drop_last()).contains_key(t.drop_last()[i].0));
            }
        }
    }
}

/// On a trail without repeated variables, the assignment gives each trail
/// variable the value of its entry.
proof fn lemma_trail_map_value(t: Seq<(i64, bool)>)
    requires
        trail_distinct(t),
    ensures
        forall|p: int| 0 <= p < t.len() ==> trail_map(t)[#[trigger] t[p].0] == t[p].1,
    decreases t.len(),
{
    if t.len() > 0 {
        let u = t.drop_last();
        assert(trail_distinct(u)) by {
            assert forall|i: int, j: int| 0 <= i < j < u.len() implies (#[trigger] u[i]).0 != (#[trigger] u[j]).0 by {
                assert(u[i] == t[i] && u[j] == t[j]);
            }
        }
        lemma_trail_map_value(u);
        assert forall|p: int| 0 <= p < t.len() implies trail_map(t)[#[trigger] t[p].0] == t[p].1 by {
            if p < t.len() - 1 {
                assert(u[p] == t[p]);
                assert(t[p].0 != t[t.len() - 1].0);
            }
        }
    }
}

/// Taking a prefix of a trail without repeated variables restricts its
/// assignment to the variables of the prefix.
proof fn lemma_trail_map_prefix(t: Seq<(i64, bool)>, n: int)
    requires
        trail_distinct(t),
        0 <= n <= t.len(),
    ensures
        trail_map(t.take(n)) == trail_map(t).restrict(trail_map(t.take(n)).dom()),
{
    let u = t.take(n);
    assert(trail_distinct(u)) by {
        assert forall|i: int, j: int| 0 <= i < j < u.len() implies (#[trigger] u[i]).0 != (#[trigger] u[j]).0 by {
            assert(u[i] == t[i] && u[j] == t[j]);
        }
    }
    lemma_trail_map_dom(u);
    lemma_trail_map_dom(t);
    lemma_trail_map_value(u);
    lemma_trail_map_value(t);
    assert forall|v: i64| #[trigger] trail_map(u).contains_key(v) implies trail_map(t).contains_key(v)
        && trail_map(u)[v] == trail_map(t)[v] by {
        let p = choose|p: int| 0 <= p < u.len() && u[p].0 == v;
        assert(u[p] == t[p]);
        assert(trail_map(u)[u[p].0] == u[p].1);
        assert(trail_map(t)[t[p].0] == t[p].1);
    }
    assert(trail_map(u) =~= trail_map(t).restrict(trail_map(u).dom()));
}

/// A copy of a literal list.
fn copy_lits(lits: &Vec<Lit>) -> (r: Vec<Lit>)
    ensures
        r@ == lits@,
{
    let mut r: Vec<Lit> = Vec::new();
    let mut i: usize = 0;
    while i < lits.len()
        invariant
            i <= lits@.len(),
            r@ == lits@.take(i as int),
        decreases lits@.len() - i,
    {
        r.push(lits[i]);
        assert(r@ =~= lits@.take(i + 1));
        i = i + 1;
    }
    assert(lits@.take(i as int) =~= lits@);
    r
}

/// A copy of a clause list.
fn copy_clauses(cs: &Vec<Clause>) -> (r: Vec<Clause>)
    ensures
        cviews(r@) == cviews(cs@),
{
    let mut r: Vec<Clause> = Vec::new();
    let mut i: usize = 0;
    while i < cs.len()
        invariant
            i <= cs@.len(),
            cviews(r@) == cviews(cs@).take(i as int),
        decreases cs@.len() - i,
    {
        let c = Clause { lits: copy_lits(&cs[i].lits), learnt: cs[i].learnt };
        let ghost prev = r@;
        r.push(c);
        assert(r@ == prev.push(c));
        assert(cviews(prev).len() == i);
        assert(r@[i as int].lits@ == cs@[i as int].lits@);
        assert(cviews(r@) =~= cviews(cs@).take(i + 1)) by {
            assert forall|j: int| 0 <= j < i implies cviews(r@)[j] == cviews(cs@)[j] by {
                assert(cviews(prev)[j] == cviews(cs@).take(i as int)[j]);
            }
        }
        i = i + 1;
    }
    assert(cviews(cs@).take(i as int) =~= cviews(cs@));
    r
}


/// When every trail position below `n` records an antecedent, an assignment
/// satisfying the clauses agrees with the trail on those positions.
proof fn lemma_prefix_agrees(
    cs: Seq<Clause>,
    t: Seq<(i64, bool)>,
    m: Map<i64, bool>,
    ants: Map<i64, usize>,
    a: spec_fn(i64) -> bool,
    n: int,
)
    requires
        justified_by(cs, t, m, ants),
        m == trail_map(t),
        trail_distinct(t),
        satisfies_all(cs, a),
        0 <= n <= t.len(),
        forall|p: int| 0 <= p < n ==> ants.contains_key(#[trigger] t[p].0),
    ensures
        forall|p: int| 0 <= p < n ==> a(#[trigger] t[p].0) == t[p].1,
    decreases n,
{
    if n > 0 {
        lemma_prefix_agrees(cs, t, m, ants, a, n - 1);
        let q = n - 1;
        let v = t[q].0;
        lemma_trail_map_value(t);
        assert(ants.contains_key(t[q].0));
        let r = cs[ants[v] as int].lits@;
        assert(reason_holds(t, m, r, v));
        assert(clause_holds(r, a));
        let i = choose|i: int| 0 <= i < r.len() && #[trigger] lit_holds(r[i], a);
        if lit_var(r[i]) != v {
            assert(lit_false(r[i], m) && before_on_trail(t, lit_var(r[i]), v));
            let (p, q2) = choose|p: int, q2: int| 0 <= p < q2 < t.len() && t[p].0 == lit_var(r[i]) && t[q2].0 == v;
            if q2 != q {
                if q2 < q {
                    assert(t[q2].0 != t[q].0);
                } else {
                    assert(t[q].0 != t[q2].0);
                }
            }
            assert(a(t[p].0) == t[p].1);
            assert(m[t[p].0] == t[p].1);
        } else {
            assert(lit_true(r[i], m));
            assert(m[t[q].0] == t[q].1);
        }
    }
}

/// A conflict under a trail whose every entry records an antecedent leaves the
/// clauses unsatisfiable.
proof fn lemma_implied_conflict(
    cs: Seq<Clause>,
    t: Seq<(i64, bool)>,
    m: Map<i64, bool>,
    ants: Map<i64, usize>,
    k: int,
)
    requires
        justified_by(cs, t, m, ants),
        m == trail_map(t),
        trail_distinct(t),
        forall|p: int| 0 <= p < t.len() ==> ants.contains_key(#[trigger] t[p].0),
        0 <= k < cs.len(),
        clause_conflict(cs[k].lits@, m),
    ensures
        !satisfiable(cs),
{
    assert forall|a: spec_fn(i64) -> bool| !(#[trigger] satisfies_all(cs, a)) by {
        if satisfies_all(cs, a) {
            lemma_prefix_agrees(cs, t, m, ants, a, t.len() as int);
            lemma_trail_map_dom(t);
            lemma_trail_map_value(t);
            let lits = cs[k].lits@;
            assert(clause_holds(lits, a));
            let i = choose|i: int| 0 <= i < lits.len() && #[trigger] lit_holds(lits[i], a);
            assert(lit_false(lits[i], m));
            let p = choose|p: int| 0 <= p < t.len() && t[p].0 == lit_var(lits[i]);
            assert(a(t[p].0) == t[p].1);
            assert(m[t[p].0] == t[p].1);
        }
    }
}


/// On a trail without repeated variables, the first position of a trail
/// variable is its only one.
proof fn lemma_first_pos(t: Seq<(i64, bool)>, v: i64, q: int, i: nat)
    requires
        trail_distinct(t),
        i <= q < t.len(),
        t[q].0 == v,
    ensures
        first_pos_from(t, v, i) == Some(q),
    decreases q - i,
{
    if i < q {
        assert(t[i as int].0 != t[q].0);
        lemma_first_pos(t, v, q, i + 1);
    }
}

/// Levels against decision marks: a position's level is at most the number
/// of marks searched, reaches `j + 1` at or after mark `j`, and stays at most
/// `j` before it.
proof fn lemma_level_from(lim: Seq<usize>, p: int, i: nat)
    requires
        i <= lim.len(),
        forall|x: int, y: int| 0 <= x < y < lim.len() ==> lim[x] < lim[y],
    ensures
        level_from(lim, p, i) <= i,
        forall|j: int| 0 <= j < i && p >= lim[j] ==> level_from(lim, p, i) >= j + 1,
        forall|j: int| 0 <= j < i && p < #[trigger] lim[j] ==> level_from(lim, p, i) <= j,
    decreases i,
{
    if i > 0 {
        lemma_level_from(lim, p, (i - 1) as nat);
        assert forall|j: int| 0 <= j < i && p < #[trigger] lim[j] implies level_from(lim, p, i) <= j by {
            if j < i - 1 {
                assert(lim[j] < lim[i - 1]);
            }
        }
        assert forall|j: int| 0 <= j < i && p >= lim[j] implies level_from(lim, p, i) >= j + 1 by {
            if j < i - 1 && p < lim[i - 1] {
                assert(level_from(lim, p, i) == level_from(lim, p, (i - 1) as nat));
            }
        }
    }
}

/// The level of the variable at trail position `q`.
proof fn lemma_var_level(t: Seq<(i64, bool)>, lim: Seq<usize>, q: int)
    requires
        trail_distinct(t),
        0 <= q < t.len(),
        forall|x: int, y: int| 0 <= x < y < lim.len() ==> lim[x] < lim[y],
    ensures
        level_of_var_spec(t, lim, t[q].0) == level_of_pos(lim, q),
        level_of_pos(lim, q) <= lim.len(),
        forall|j: int| 0 <= j < lim.len() && q >= lim[j] ==> level_of_pos(lim, q) >= j + 1,
        forall|j: int| 0 <= j < lim.len() && q < #[trigger] lim[j] ==> level_of_pos(lim, q) <= j,
{
    lemma_first_pos(t, t[q].0, q, 0);
    lemma_level_from(lim, q, lim.len());
}

/// The literal `l` is in the clause being learnt: a collected lower-level
/// literal with its variable and sign, or the negation of a pending trail
/// entry (at a position of `start..=idx` whose variable has been seen).
pub open spec fn covered(l: Lit, learnt: Seq<Lit>, seen: Set<i64>, t: Seq<(i64, bool)>, start: int, idx: int) -> bool {
    ||| exists|i: int| 0 <= i < learnt.len() && lit_var(#[trigger] learnt[i]) == lit_var(l) && lit_sign(learnt[i]) == lit_sign(l)
    ||| exists|q: int| start <= q <= idx && seen.contains(#[trigger] t[q].0) && t[q].0 == lit_var(l) && t[q].1 != lit_sign(l)
}

/// The clause made of the collected literals and the negations of the
/// pending entries is entailed: no assignment satisfies the clauses, makes
/// every collected literal false and agrees with every pending entry.
pub open spec fn res_ok(cs: Seq<Clause>, t: Seq<(i64, bool)>, learnt: Seq<Lit>, seen: Set<i64>, start: int, idx: int) -> bool {
    forall|a: spec_fn(i64) -> bool|
        #[trigger] satisfies_all(cs, a) && (forall|i: int| 0 <= i < learnt.len() ==> !lit_holds(#[trigger] learnt[i], a))
            && (forall|q: int| start <= q <= idx && seen.contains(#[trigger] t[q].0) ==> a(t[q].0) == t[q].1) ==> false
}

/// Collecting a clause of the set entails the collected clause.
proof fn lemma_res_start(cs: Seq<Clause>, t: Seq<(i64, bool)>, learnt: Seq<Lit>, seen: Set<i64>, start: int, idx: int, k: int)
    requires
        0 <= k < cs.len(),
        forall|j: int| 0 <= j < cs[k].lits@.len() ==> covered(#[trigger] cs[k].lits@[j], learnt, seen, t, start, idx),
    ensures
        res_ok(cs, t, learnt, seen, start, idx),
{
    assert forall|a: spec_fn(i64) -> bool|
        #[trigger] satisfies_all(cs, a) && (forall|i: int| 0 <= i < learnt.len() ==> !lit_holds(#[trigger] learnt[i], a))
            && (forall|q: int| start <= q <= idx && seen.contains(#[trigger] t[q].0) ==> a(t[q].0) == t[q].1) implies false by {
        let lits = cs[k].lits@;
        assert(clause_holds(lits, a));
        let j = choose|j: int| 0 <= j < lits.len() && #[trigger] lit_holds(lits[j], a);
        assert(covered(lits[j], learnt, seen, t, start, idx));
        if exists|i: int| 0 <= i < learnt.len() && lit_var(#[trigger] learnt[i]) == lit_var(lits[j]) && lit_sign(learnt[i])
            == lit_sign(lits[j]) {
            let i = choose|i: int| 0 <= i < learnt.len() && lit_var(#[trigger] learnt[i]) == lit_var(lits[j]) && lit_sign(
                learnt[i],
            ) == lit_sign(lits[j]);
            assert(!lit_holds(learnt[i], a));
        } else {
            let q = choose|q: int| start <= q <= idx && seen.contains(#[trigger] t[q].0) && t[q].0 == lit_var(lits[j])
                && t[q].1 != lit_sign(lits[j]);
            assert(a(t[q].0) == t[q].1);
        }
    }
}

/// Resolving the pending entry at position `idx + 1` with its reason clause
/// `cs[k]` keeps the collected clause entailed.
proof fn lemma_res_step(
    cs: Seq<Clause>,
    t: Seq<(i64, bool)>,
    learnt0: Seq<Lit>,
    seen0: Set<i64>,
    learnt1: Seq<Lit>,
    seen1: Set<i64>,
    start: int,
    idx: int,
    k: int,
)
    requires
        res_ok(cs, t, learnt0, seen0, start, idx + 1),
        start <= idx + 1 < t.len(),
        0 <= k < cs.len(),
        forall|j: int|
            0 <= j < cs[k].lits@.len() ==> if lit_var(#[trigger] cs[k].lits@[j]) == t[idx + 1].0 {
                lit_sign(cs[k].lits@[j]) == t[idx + 1].1
            } else {
                covered(cs[k].lits@[j], learnt1, seen1, t, start, idx)
            },
        learnt0.len() <= learnt1.len(),
        forall|i: int| 0 <= i < learnt0.len() ==> learnt1[i] == learnt0[i],
        forall|v: i64| seen0.contains(v) ==> seen1.contains(v),
    ensures
        res_ok(cs, t, learnt1, seen1, start, idx),
{
    assert forall|a: spec_fn(i64) -> bool|
        #[trigger] satisfies_all(cs, a) && (forall|i: int| 0 <= i < learnt1.len() ==> !lit_holds(#[trigger] learnt1[i], a))
            && (forall|q: int| start <= q <= idx && seen1.contains(#[trigger] t[q].0) ==> a(t[q].0) == t[q].1) implies false by {
        let lits = cs[k].lits@;
        assert(clause_holds(lits, a));
        let j = choose|j: int| 0 <= j < lits.len() && #[trigger] lit_holds(lits[j], a);
        if lit_var(lits[j]) != t[idx + 1].0 {
            assert(covered(lits[j], learnt1, seen1, t, start, idx));
            if exists|i: int| 0 <= i < learnt1.len() && lit_var(#[trigger] learnt1[i]) == lit_var(lits[j]) && lit_sign(
                learnt1[i],
            ) == lit_sign(lits[j]) {
                let i = choose|i: int| 0 <= i < learnt1.len() && lit_var(#[trigger] learnt1[i]) == lit_var(lits[j]) && lit_sign(
                    learnt1[i],
                ) == lit_sign(lits[j]);
                assert(!lit_holds(learnt1[i], a));
            } else {
                let q = choose|q: int| start <= q <= idx && seen1.contains(#[trigger] t[q].0) && t[q].0 == lit_var(lits[j])
                    && t[q].1 != lit_sign(lits[j]);
                assert(a(t[q].0) == t[q].1);
            }
        } else {
            assert(a(t[idx + 1].0) == t[idx + 1].1);
            assert forall|i: int| 0 <= i < learnt0.len() implies !lit_holds(#[trigger] learnt0[i], a) by {
                assert(learnt1[i] == learnt0[i]);
            }
            assert forall|q: int| start <= q <= idx + 1 && seen0.contains(#[trigger] t[q].0) implies a(t[q].0) == t[q].1 by {
                if q <= idx {
                    assert(seen1.contains(t[q].0));
                }
            }
        }
    }
}


/// Some clause has a literal on `v`.
pub open spec fn clause_var(cs: Seq<Clause>, v: i64) -> bool {
    exists|k: int, j: int| 0 <= k < cs.len() && 0 <= j < cs[k].lits@.len() && lit_var(#[trigger] cs[k].lits@[j]) == v
}

/// An unmarked trail entry can leave the range of pending entries.
proof fn lemma_res_lower(cs: Seq<Clause>, t: Seq<(i64, bool)>, learnt: Seq<Lit>, seen: Set<i64>, start: int, idx: int)
    requires
        res_ok(cs, t, learnt, seen, start, idx),
        0 <= idx < t.len(),
        !seen.contains(t[idx].0),
    ensures
        res_ok(cs, t, learnt, seen, start, idx - 1),
{
    assert forall|a: spec_fn(i64) -> bool|
        #[trigger] satisfies_all(cs, a) && (forall|i: int| 0 <= i < learnt.len() ==> !lit_holds(#[trigger] learnt[i], a))
            && (forall|q: int| start <= q <= idx - 1 && seen.contains(#[trigger] t[q].0) ==> a(t[q].0) == t[q].1) implies false by {
        assert forall|q: int| start <= q <= idx && seen.contains(#[trigger] t[q].0) implies a(t[q].0) == t[q].1 by {
            if q == idx {
                assert(!seen.contains(t[idx].0));
            }
        }
    }
}


/// Entries kept by backtracking to level `l` keep their levels.
proof fn lemma_prefix_level(t: Seq<(i64, bool)>, lim: Seq<usize>, l: int, p: int)
    requires
        trail_distinct(t),
        forall|x: int, y: int| 0 <= x < y < lim.len() ==> lim[x] < lim[y],
        forall|x: int| 0 <= x < lim.len() ==> #[trigger] lim[x] < t.len(),
        0 <= l < lim.len(),
        0 <= p < lim[l],
    ensures
        level_of_var_spec(t.take(lim[l] as int), lim.take(l), t[p].0) == level_of_var_spec(t, lim, t[p].0),
        level_of_var_spec(t, lim, t[p].0) <= l,
{
    let t2 = t.take(lim[l] as int);
    let lim2 = lim.take(l);
    assert(trail_distinct(t2)) by {
        assert forall|i: int, j: int| 0 <= i < j < t2.len() implies (#[trigger] t2[i]).0 != (#[trigger] t2[j]).0 by {
            assert(t2[i] == t[i] && t2[j] == t[j]);
        }
    }
    assert(t2[p] == t[p]);
    lemma_var_level(t, lim, p);
    lemma_var_level(t2, lim2, p);
    let x = level_of_pos(lim, p);
    let y = level_of_pos(lim2, p);
    assert(x <= l);
    assert(y <= x) by {
        if x < l {
            assert(p < lim[x as int]) by {
                if p >= lim[x as int] {
                    assert(level_of_pos(lim, p) >= x + 1);
                }
            }
            assert(lim2[x as int] == lim[x as int]);
        }
    }
    assert(y >= x) by {
        if x > 0 {
            assert(p >= lim[x - 1]) by {
                if p < lim[x - 1] {
                    assert(level_of_pos(lim, p) <= x - 1);
                }
            }
            assert(lim2[x - 1] == lim[x - 1]);
        }
    }
}

/// The backtrack level bounds every level below `cur` among the literals.
proof fn lemma_max_low_level_ge(lits: Seq<Lit>, t: Seq<(i64, bool)>, lim: Seq<usize>, cur: nat, i: int)
    requires
        0 <= i < lits.len(),
        level_of_var_spec(t, lim, lit_var(lits[i])) < cur,
    ensures
        level_of_var_spec(t, lim, lit_var(lits[i])) <= max_low_level(lits, t, lim, cur),
    decreases lits.len(),
{
    if i < lits.len() - 1 {
        lemma_max_low_level_ge(lits.drop_last(), t, lim, cur, i);
        assert(lits.drop_last()[i] == lits[i]);
    }
}

/// A clause whose literals are all false but the last, whose variable is
/// unassigned, is unit on its last literal.
proof fn lemma_asserting(lits: Seq<Lit>, m: Map<i64, bool>)
    requires
        lits.len() >= 1,
        forall|i: int| 0 <= i < lits.len() - 1 ==> lit_false(#[trigger] lits[i], m),
        !m.contains_key(lit_var(lits.last())),
    ensures
        unit_literal(lits, m) == Some(lits.last()),
{
    let pred = |l: Lit| !m.contains_key(lit_var(l));
    let body = lits.drop_last();
    assert(lits == body.push(lits.last()));
    lemma_filter_none(body, pred);
    reveal_with_fuel(Seq::filter, 1);
    assert(lits.filter(pred) =~= body.filter(pred).push(lits.last()));
    assert(!clause_satisfied(lits, m)) by {
        if clause_satisfied(lits, m) {
            let i = choose|i: int| 0 <= i < lits.len() && #[trigger] lit_true(lits[i], m);
            if i < lits.len() - 1 {
                assert(lit_false(lits[i], m));
            }
        }
    }
}

/// Filtering by a predicate no element passes leaves nothing.
proof fn lemma_filter_none(s: Seq<Lit>, pred: spec_fn(Lit) -> bool)
    requires
        forall|i: int| 0 <= i < s.len() ==> !pred(#[trigger] s[i]),
    ensures
        s.filter(pred) =~= Seq::<Lit>::empty(),
    decreases s.len(),
{
    reveal_with_fuel(Seq::filter, 1);
    if s.len() > 0 {
        let u = s.drop_last();
        assert forall|i: int| 0 <= i < u.len() implies !pred(#[trigger] u[i]) by {
            assert(u[i] == s[i]);
        }
        lemma_filter_none(u, pred);
        assert(!pred(s[s.len() - 1]));
    }
}

/// A settled clause whose variables are all assigned is satisfied.
proof fn lemma_settled_full(lits: Seq<Lit>, m: Map<i64, bool>)
    requires
        settled(lits, m),
        forall|i: int| 0 <= i < lits.len() ==> m.contains_key(lit_var(#[trigger] lits[i])),
    ensures
        clause_satisfied(lits, m),
{
    if !clause_satisfied(lits, m) {
        assert forall|i: int| 0 <= i < lits.len() implies #[trigger] lit_false(lits[i], m) by {
            if !lit_false(lits[i], m) {
                assert(lit_true(lits[i], m));
            }
        }
    }
}


/// A conflict with no decision on the trail: every entry is implied, so no
/// assignment satisfies the clauses, nor the clauses they follow from.
proof fn lemma_level_zero_unsat(s: CDCL, orig: Seq<Clause>, k: int)
    requires
        s.inv(),
        s.justified(),
        s.structured(),
        s@.trail_lim.len() == 0,
        0 <= k < s@.clauses.len(),
        clause_conflict(s@.clauses[k].lits@, s@.assignment),
        nonzero_lits(orig) ==> forall|kk: int| 0 <= kk < s@.clauses.len() ==> entails(orig, #[trigger] s@.clauses[kk].lits@),
    ensures
        nonzero_lits(orig) ==> !satisfiable(orig),
{
    reveal(CDCL::inv);
    reveal(CDCL::justified);
    reveal(CDCL::structured);
    assert forall|p: int| 0 <= p < s.trail@.len() implies s.antecedents@.contains_key(#[trigger] s.trail@[p].0) by {
        assert(!s.trail_lim@.contains(p as usize));
    }
    lemma_implied_conflict(s.clauses@, s.trail@, s.assignment@, s.antecedents@, k);
    if nonzero_lits(orig) {
        assert forall|a: spec_fn(i64) -> bool| !(#[trigger] satisfies_all(orig, a)) by {
            if satisfies_all(orig, a) {
                assert forall|kk: int| 0 <= kk < s@.clauses.len() implies #[trigger] clause_holds(s@.clauses[kk].lits@, a) by {
                    assert(entails(orig, s@.clauses[kk].lits@));
                }
                assert(satisfies_all(s.clauses@, a));
            }
        }
    }
}

/// Backtracking to a level at or above every level of a conflict clause
/// keeps the conflict and the levels of its variables.
proof fn lemma_conflict_kept(t: Seq<(i64, bool)>, lim: Seq<usize>, lits: Seq<Lit>, top: int)
    requires
        trail_distinct(t),
        forall|x: int, y: int| 0 <= x < y < lim.len() ==> lim[x] < lim[y],
        forall|x: int| 0 <= x < lim.len() ==> #[trigger] lim[x] < t.len(),
        0 <= top < lim.len(),
        clause_conflict(lits, trail_map(t)),
        forall|j: int| 0 <= j < lits.len() ==> level_of_var_spec(t, lim, lit_var(#[trigger] lits[j])) <= top,
    ensures
        clause_conflict(lits, trail_map(t.take(lim[top] as int))),
        forall|j: int|
            0 <= j < lits.len() ==> level_of_var_spec(t.take(lim[top] as int), lim.take(top), lit_var(#[trigger] lits[j]))
                == level_of_var_spec(t, lim, lit_var(lits[j])),
{
    let n = lim[top] as int;
    let u = t.take(n);
    lemma_trail_map_dom(t);
    lemma_trail_map_dom(u);
    lemma_trail_map_prefix(t, n);
    assert forall|j: int| 0 <= j < lits.len() implies lit_false(#[trigger] lits[j], trail_map(u)) && level_of_var_spec(
        u,
        lim.take(top),
        lit_var(lits[j]),
    ) == level_of_var_spec(t, lim, lit_var(lits[j])) by {
        assert(lit_false(lits[j], trail_map(t)));
        let p = choose|p: int| 0 <= p < t.len() && t[p].0 == lit_var(lits[j]);
        lemma_var_level(t, lim, p);
        assert(p < n) by {
            if p >= n {
                assert(level_of_pos(lim, p) >= top + 1);
            }
        }
        lemma_prefix_level(t, lim, top, p);
        assert(u[p] == t[p]);
        assert(trail_map(u).contains_key(u[p].0));
    }
}

/// First positions found are positions of the variable.
proof fn lemma_first_pos_some(t: Seq<(i64, bool)>, v: i64, i: nat)
    ensures
        first_pos_from(t, v, i) matches Some(p) ==> i <= p < t.len() && t[p].0 == v,
    decreases t.len() - i,
{
    if i < t.len() && t[i as int].0 != v {
        lemma_first_pos_some(t, v, i + 1);
    }
}

/// The learnt clause is unit after backtracking to its backtrack level: its
/// literals below the current level stay false, and the variable of its last
/// literal, assigned on the current level, becomes unassigned.
proof fn lemma_learnt_asserting(q: CdclView, k: CdclView, lits: Seq<Lit>, bt: int)
    requires
        trail_distinct(q.trail),
        forall|x: int, y: int| 0 <= x < y < q.trail_lim.len() ==> q.trail_lim[x] < q.trail_lim[y],
        forall|x: int| 0 <= x < q.trail_lim.len() ==> #[trigger] q.trail_lim[x] < q.trail.len(),
        q.assignment == trail_map(q.trail),
        0 <= bt < q.trail_lim.len(),
        k.trail == q.trail.take(q.trail_lim[bt] as int),
        k.assignment == trail_map(k.trail),
        lits.len() >= 1,
        forall|i: int|
            0 <= i < lits.len() - 1 ==> level_of_var_spec(q.trail, q.trail_lim, lit_var(#[trigger] lits[i]))
                < q.trail_lim.len() && lit_false(lits[i], q.assignment),
        level_of_var_spec(q.trail, q.trail_lim, lit_var(lits.last())) == q.trail_lim.len(),
        bt == max_low_level(lits, q.trail, q.trail_lim, q.trail_lim.len()),
    ensures
        unit_literal(lits, k.assignment) == Some(lits.last()),
{
    let t = q.trail;
    let lim = q.trail_lim;
    let n = lim[bt] as int;
    lemma_trail_map_dom(t);
    lemma_trail_map_dom(k.trail);
    lemma_trail_map_prefix(t, n);
    assert forall|i: int| 0 <= i < lits.len() - 1 implies lit_false(#[trigger] lits[i], k.assignment) by {
        assert(lit_false(lits[i], q.assignment));
        let p = choose|p: int| 0 <= p < t.len() && t[p].0 == lit_var(lits[i]);
        lemma_var_level(t, lim, p);
        lemma_max_low_level_ge(lits, t, lim, lim.len(), i);
        assert(p < n) by {
            if p >= n {
                assert(level_of_pos(lim, p) >= bt + 1);
            }
        }
        assert(k.trail[p] == t[p]);
        assert(k.assignment.contains_key(k.trail[p].0));
    }
    let v = lit_var(lits.last());
    lemma_first_pos_some(t, v, 0);
    let u = first_pos_from(t, v, 0)->0;
    assert(first_pos_from(t, v, 0) is Some);
    lemma_var_level(t, lim, u);
    assert(u >= lim[lim.len() - 1]) by {
        if u < lim[lim.len() - 1] {
            assert(level_of_pos(lim, u) <= lim.len() - 1);
        }
    }
    assert(lim[bt] <= lim[lim.len() - 1]) by {
        if bt < lim.len() - 1 {
            assert(lim[bt] < lim[lim.len() - 1]);
        }
    }
    assert(!k.assignment.contains_key(v)) by {
        if k.assignment.contains_key(v) {
            let p = choose|p: int| 0 <= p < k.trail.len() && k.trail[p].0 == v;
            assert(k.trail[p] == t[p]);
            assert(t[p].0 != t[u].0);
        }
    }
    lemma_asserting(lits, k.assignment);
}

} // verus!
