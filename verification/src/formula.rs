//! Value types of the solver (literals, clauses, partial assignments) and the
//! specification-level semantics they are verified against.

use vstd::prelude::*;

verus! {

/// A propositional variable (p, q, ...) with some id which may be negated.
/// Example: p, !q.
#[derive(Copy, Clone, PartialEq, Eq, Structural, Debug)]
pub struct Literal {
    pub id: usize,
    pub negated: bool,
}

/// Magnitude of a signed variable reference.
pub open spec fn var_magnitude(var: int) -> int {
    if var < 0 {
        -var
    } else {
        var
    }
}

/// The literal denoted by a non-zero 1-based signed variable reference:
/// `k` is variable `k` held positively, `-k` is variable `k` negated, and
/// variable `k` has the dense id `k - 1`.
pub open spec fn lit_of_var(var: int) -> Literal {
    Literal { id: (var_magnitude(var) - 1) as usize, negated: var < 0 }
}

impl Literal {
    /// The complementary literal: same variable, opposite polarity.
    pub open spec fn complement(self) -> Literal {
        Literal { id: self.id, negated: !self.negated }
    }

    /// Creates a literal from a variable reference. A reference is e.g. 3 or
    /// -42, which denote the variables with ids 2 and 41 respectively.
    pub fn from_var(var: i64) -> (l: Literal)
        requires
            var != 0,
            i64::MIN < var,
            var_magnitude(var as int) <= usize::MAX,
        ensures
            l == lit_of_var(var as int),
    {
        let negated = var < 0;
        let magnitude: i64 = if negated {
            -var
        } else {
            var
        };
        Literal { id: (magnitude as usize) - 1, negated }
    }

    /// Flips the polarity of the literal.
    pub fn not(self) -> (l: Literal)
        ensures
            l == self.complement(),
    {
        Literal { id: self.id, negated: !self.negated }
    }
}

/// A literal is true under a partial assignment when its variable is assigned
/// with the literal's own polarity.
pub open spec fn lit_true(a: Seq<Option<bool>>, l: Literal) -> bool {
    l.id < a.len() && a[l.id as int] == Some(l.negated)
}

/// A literal is falsified when its variable is assigned with the opposite
/// polarity.
pub open spec fn lit_false(a: Seq<Option<bool>>, l: Literal) -> bool {
    l.id < a.len() && a[l.id as int] == Some(!l.negated)
}

/// A literal is live when it is not falsified: either true or still
/// unassigned.
pub open spec fn lit_live(a: Seq<Option<bool>>, l: Literal) -> bool {
    !lit_false(a, l)
}

/// A clause is satisfied when at least one of its literals is true.
pub open spec fn clause_sat(a: Seq<Option<bool>>, c: Seq<Literal>) -> bool {
    exists|i: int| 0 <= i < c.len() && lit_true(a, #[trigger] c[i])
}

/// A clause is violated when every one of its literals is falsified.
pub open spec fn clause_violated(a: Seq<Option<bool>>, c: Seq<Literal>) -> bool {
    forall|i: int| 0 <= i < c.len() ==> lit_false(a, #[trigger] c[i])
}

/// The live literal count of a clause: how many of its literals are not
/// falsified under the assignment. Occurrences count, not distinct literals.
pub open spec fn live_count(a: Seq<Option<bool>>, c: Seq<Literal>) -> nat
    decreases c.len(),
{
    if c.len() == 0 {
        0
    } else {
        live_count(a, c.drop_last()) + if lit_live(a, c.last()) {
            1nat
        } else {
            0nat
        }
    }
}

/// Every literal of the clause names a variable below `n`.
pub open spec fn clause_in_bounds(c: Seq<Literal>, n: int) -> bool {
    forall|i: int| 0 <= i < c.len() ==> (#[trigger] c[i]).id < n
}

/// A clause contains two complementary literals, so it holds under every
/// total assignment and carries no constraint.
pub open spec fn clause_tautological(c: Seq<Literal>) -> bool {
    exists|i: int, j: int|
        0 <= i < c.len() && 0 <= j < c.len() && #[trigger] c[j] == (#[trigger] c[i]).complement()
}

/// How many slots of a partial assignment are still unassigned.
pub open spec fn count_unassigned(a: Seq<Option<bool>>) -> nat
    decreases a.len(),
{
    if a.len() == 0 {
        0
    } else {
        count_unassigned(a.drop_last()) + if a.last() is None {
            1nat
        } else {
            0nat
        }
    }
}

/// How many entries of a flag sequence are false.
pub open spec fn count_false(s: Seq<bool>) -> nat
    decreases s.len(),
{
    if s.len() == 0 {
        0
    } else {
        count_false(s.drop_last()) + if s.last() {
            0nat
        } else {
            1nat
        }
    }
}

pub proof fn lemma_count_false_bound(s: Seq<bool>)
    ensures
        count_false(s) <= s.len(),
    decreases s.len(),
{
    if s.len() > 0 {
        lemma_count_false_bound(s.drop_last());
    }
}

/// Flipping one flag changes the count of false flags by exactly the
/// difference the two values make.
pub proof fn lemma_count_false_update(s: Seq<bool>, j: int, b: bool)
    requires
        0 <= j < s.len(),
    ensures
        count_false(s.update(j, b)) == count_false(s) + (if s[j] {
            0int
        } else {
            -1int
        }) + (if b {
            0int
        } else {
            1int
        }),
    decreases s.len(),
{
    let t = s.update(j, b);
    if j == s.len() - 1 {
        assert(t.drop_last() =~= s.drop_last());
    } else {
        assert(t.drop_last() =~= s.drop_last().update(j, b));
        lemma_count_false_update(s.drop_last(), j, b);
    }
}

pub proof fn lemma_count_false_pos(s: Seq<bool>, j: int)
    requires
        0 <= j < s.len(),
        !s[j],
    ensures
        count_false(s) >= 1,
    decreases s.len(),
{
    if j < s.len() - 1 {
        lemma_count_false_pos(s.drop_last(), j);
    }
}

pub proof fn lemma_count_false_zero(s: Seq<bool>)
    ensures
        (count_false(s) == 0) <==> (forall|j: int| 0 <= j < s.len() ==> s[j]),
    decreases s.len(),
{
    if s.len() > 0 {
        lemma_count_false_zero(s.drop_last());
        if forall|j: int| 0 <= j < s.len() - 1 ==> s.drop_last()[j] {
            assert(forall|j: int| 0 <= j < s.len() - 1 ==> s[j] == s.drop_last()[j]);
        }
    }
}

pub proof fn lemma_count_unassigned_update_some(a: Seq<Option<bool>>, j: int, v: Option<bool>)
    requires
        0 <= j < a.len(),
        a[j] is None,
        v is Some,
    ensures
        count_unassigned(a.update(j, v)) == count_unassigned(a) - 1,
    decreases a.len(),
{
    let t = a.update(j, v);
    if j == a.len() - 1 {
        assert(t.drop_last() =~= a.drop_last());
    } else {
        assert(t.drop_last() =~= a.drop_last().update(j, v));
        lemma_count_unassigned_update_some(a.drop_last(), j, v);
    }
}

/// A pointwise-more-assigned table has at most as many unassigned slots.
pub proof fn lemma_count_unassigned_dominated(a: Seq<Option<bool>>, b: Seq<Option<bool>>)
    requires
        a.len() == b.len(),
        forall|i: int| 0 <= i < a.len() && a[i] is Some ==> b[i] is Some,
    ensures
        count_unassigned(b) <= count_unassigned(a),
    decreases a.len(),
{
    if a.len() > 0 {
        assert(forall|i: int|
            0 <= i < a.len() - 1 && a.drop_last()[i] is Some ==> b.drop_last()[i] is Some);
        lemma_count_unassigned_dominated(a.drop_last(), b.drop_last());
    }
}

/// Strictly so, when at least one slot went from unassigned to assigned.
pub proof fn lemma_count_unassigned_strict(a: Seq<Option<bool>>, b: Seq<Option<bool>>, w: int)
    requires
        a.len() == b.len(),
        forall|i: int| 0 <= i < a.len() && a[i] is Some ==> b[i] is Some,
        0 <= w < a.len(),
        a[w] is None,
        b[w] is Some,
    ensures
        count_unassigned(b) < count_unassigned(a),
    decreases a.len(),
{
    assert(forall|i: int|
        0 <= i < a.len() - 1 && a.drop_last()[i] is Some ==> b.drop_last()[i] is Some);
    if w == a.len() - 1 {
        lemma_count_unassigned_dominated(a.drop_last(), b.drop_last());
    } else {
        lemma_count_unassigned_strict(a.drop_last(), b.drop_last(), w);
    }
}

pub proof fn lemma_live_count_zero(a: Seq<Option<bool>>, c: Seq<Literal>)
    ensures
        (live_count(a, c) == 0) <==> clause_violated(a, c),
    decreases c.len(),
{
    if c.len() > 0 {
        lemma_live_count_zero(a, c.drop_last());
        if live_count(a, c) == 0 {
            assert(forall|i: int| 0 <= i < c.len() - 1 ==> c[i] == c.drop_last()[i]);
        }
        if clause_violated(a, c) {
            assert(forall|i: int| 0 <= i < c.len() - 1 ==> c.drop_last()[i] == c[i]);
        }
    }
}

pub proof fn lemma_live_count_pos(a: Seq<Option<bool>>, c: Seq<Literal>, m: int)
    requires
        0 <= m < c.len(),
        lit_live(a, c[m]),
    ensures
        live_count(a, c) >= 1,
    decreases c.len(),
{
    if m < c.len() - 1 {
        lemma_live_count_pos(a, c.drop_last(), m);
    }
}

/// A clause whose live literal count is one is falsified everywhere but at
/// its single live position: that literal is forced.
pub proof fn lemma_live_count_one(a: Seq<Option<bool>>, c: Seq<Literal>, m: int)
    requires
        live_count(a, c) == 1,
        0 <= m < c.len(),
        lit_live(a, c[m]),
    ensures
        forall|j: int| 0 <= j < c.len() && j != m ==> lit_false(a, #[trigger] c[j]),
    decreases c.len(),
{
    if m == c.len() - 1 {
        assert(live_count(a, c.drop_last()) == 0);
        lemma_live_count_zero(a, c.drop_last());
        assert(forall|j: int| 0 <= j < c.len() - 1 ==> c[j] == c.drop_last()[j]);
    } else {
        lemma_live_count_pos(a, c.drop_last(), m);
        assert(!lit_live(a, c.last()));
        lemma_live_count_one(a, c.drop_last(), m);
        assert(forall|j: int| 0 <= j < c.len() - 1 ==> c[j] == c.drop_last()[j]);
    }
}

/// A tautological clause is satisfied by every total assignment over its
/// variables: whichever way the shared variable is assigned, one of the two
/// complementary literals is true.
pub proof fn lemma_tautology_satisfied(a: Seq<Option<bool>>, c: Seq<Literal>)
    requires
        clause_tautological(c),
        clause_in_bounds(c, a.len() as int),
        forall|i: int| 0 <= i < a.len() ==> (#[trigger] a[i]) is Some,
    ensures
        clause_sat(a, c),
{
    let (i, j) = choose|i: int, j: int|
        0 <= i < c.len() && 0 <= j < c.len() && #[trigger] c[j] == (#[trigger] c[i]).complement();
    let l = c[i];
    match a[l.id as int] {
        Some(x) => {
            if x == l.negated {
                assert(lit_true(a, c[i]));
            } else {
                assert(c[j].negated == !l.negated);
                assert(a[c[j].id as int] == Some(c[j].negated));
                assert(lit_true(a, c[j]));
            }
        },
        None => {
            assert(false);
        },
    }
}

/// A dense table mapping every variable id to true-assigned, false-assigned
/// or unassigned. Each slot holds `Some(negated)` when a literal over the
/// variable with polarity `negated` has been assigned, `None` otherwise.
#[derive(Debug)]
pub struct Assignment {
    pub values: Vec<Option<bool>>,
}

impl View for Assignment {
    type V = Seq<Option<bool>>;

    open spec fn view(&self) -> Seq<Option<bool>> {
        self.values@
    }
}

impl Assignment {
    /// A table of `num_vars` variables, all unassigned.
    pub fn new(num_vars: usize) -> (a: Assignment)
        ensures
            a@.len() == num_vars,
            forall|i: int| 0 <= i < num_vars ==> a@[i] is None,
    {
        let mut values: Vec<Option<bool>> = Vec::new();
        let mut k: usize = 0;
        while k < num_vars
            invariant
                k <= num_vars,
                values@.len() == k,
                forall|i: int| 0 <= i < k ==> values@[i] is None,
            decreases num_vars - k,
        {
            values.push(None);
            k += 1;
        }
        Assignment { values }
    }

    /// Sets the literal's variable to the literal's polarity. Must only be
    /// called on an unassigned variable.
    pub fn assign(&mut self, lit: Literal)
        requires
            lit.id < old(self)@.len(),
            old(self)@[lit.id as int] is None,
        ensures
            final(self)@ == old(self)@.update(lit.id as int, Some(lit.negated)),
    {
        self.values[lit.id] = Some(lit.negated);
    }

    /// Clears the literal's variable back to unassigned.
    pub fn un_assign(&mut self, lit: Literal)
        requires
            lit.id < old(self)@.len(),
        ensures
            final(self)@ == old(self)@.update(lit.id as int, None),
    {
        self.values[lit.id] = None;
    }

    /// Whether the literal is true under this assignment: its variable is
    /// assigned to the polarity the literal represents.
    pub fn assigned(&self, lit: Literal) -> (r: bool)
        requires
            lit.id < self@.len(),
        ensures
            r == lit_true(self@, lit),
    {
        match self.values[lit.id] {
            Some(negated) => negated == lit.negated,
            None => false,
        }
    }

    /// Whether the literal is falsified: its variable is assigned to the
    /// opposite polarity.
    pub fn falsified(&self, lit: Literal) -> (r: bool)
        requires
            lit.id < self@.len(),
        ensures
            r == lit_false(self@, lit),
    {
        match self.values[lit.id] {
            Some(negated) => negated == !lit.negated,
            None => false,
        }
    }

    /// Whether the variable is assigned at all, with either polarity.
    pub fn id_assigned(&self, id: usize) -> (r: bool)
        requires
            id < self@.len(),
        ensures
            r == (self@[id as int] is Some),
    {
        self.values[id].is_some()
    }
}

/// A disjunction of some literals.
#[derive(Debug)]
pub struct Clause {
    pub lits: Vec<Literal>,
}

impl View for Clause {
    type V = Seq<Literal>;

    open spec fn view(&self) -> Seq<Literal> {
        self.lits@
    }
}

impl Clause {
    /// The empty disjunction.
    pub fn new() -> (c: Clause)
        ensures
            c@ =~= Seq::<Literal>::empty(),
    {
        Clause { lits: Vec::new() }
    }

    /// Appends a literal to the disjunction.
    pub fn add(&mut self, lit: Literal)
        ensures
            final(self)@ == old(self)@.push(lit),
    {
        self.lits.push(lit);
    }

    /// Whether the clause holds the complement of `lit`.
    pub fn contains_complement(&self, lit: Literal) -> (r: bool)
        ensures
            r == exists|i: int| 0 <= i < self@.len() && #[trigger] self@[i] == lit.complement(),
    {
        let target = lit.not();
        let mut k: usize = 0;
        while k < self.lits.len()
            invariant
                k <= self.lits.len(),
                target == lit.complement(),
                forall|i: int| 0 <= i < k ==> #[trigger] self@[i] != lit.complement(),
            decreases self.lits.len() - k,
        {
            if self.lits[k] == target {
                proof {
                    assert(self@[k as int] == lit.complement());
                }
                return true;
            }
            k += 1;
        }
        false
    }

    /// Whether at least one literal of the clause is true under the
    /// assignment.
    pub fn solved(&self, assignment: &Assignment) -> (r: bool)
        requires
            clause_in_bounds(self@, assignment@.len() as int),
        ensures
            r == clause_sat(assignment@, self@),
    {
        let mut k: usize = 0;
        while k < self.lits.len()
            invariant
                k <= self.lits.len(),
                clause_in_bounds(self@, assignment@.len() as int),
                forall|i: int| 0 <= i < k ==> !lit_true(assignment@, #[trigger] self@[i]),
            decreases self.lits.len() - k,
        {
            if assignment.assigned(self.lits[k]) {
                return true;
            }
            k += 1;
        }
        false
    }

    /// Whether every literal of the clause is falsified under the
    /// assignment.
    pub fn unsolvable(&self, assignment: &Assignment) -> (r: bool)
        requires
            clause_in_bounds(self@, assignment@.len() as int),
        ensures
            r == clause_violated(assignment@, self@),
    {
        let mut k: usize = 0;
        while k < self.lits.len()
            invariant
                k <= self.lits.len(),
                clause_in_bounds(self@, assignment@.len() as int),
                forall|i: int| 0 <= i < k ==> lit_false(assignment@, #[trigger] self@[i]),
            decreases self.lits.len() - k,
        {
            if !assignment.falsified(self.lits[k]) {
                return false;
            }
            k += 1;
        }
        true
    }

    /// The clause's live literal count under the assignment.
    pub fn num_literals(&self, assignment: &Assignment) -> (n: usize)
        requires
            clause_in_bounds(self@, assignment@.len() as int),
        ensures
            n == live_count(assignment@, self@),
    {
        let mut n: usize = 0;
        let mut k: usize = 0;
        while k < self.lits.len()
            invariant
                k <= self.lits.len(),
                n <= k,
                clause_in_bounds(self@, assignment@.len() as int),
                n == live_count(assignment@, self@.take(k as int)),
            decreases self.lits.len() - k,
        {
            proof {
                assert(self@.take(k + 1).drop_last() =~= self@.take(k as int));
                assert(self@.take(k + 1).last() == self@[k as int]);
            }
            if !assignment.falsified(self.lits[k]) {
                n += 1;
            }
            k += 1;
        }
        proof {
            assert(self@.take(self@.len() as int) =~= self@);
        }
        n
    }

    /// The first live literal of the clause: every earlier literal is
    /// falsified. With a live count of one this is the single literal the
    /// clause forces.
    pub fn first_live(&self, assignment: &Assignment) -> (l: Literal)
        requires
            clause_in_bounds(self@, assignment@.len() as int),
            live_count(assignment@, self@) >= 1,
        ensures
            exists|m: int|
                0 <= m < self@.len() && #[trigger] self@[m] == l && lit_live(assignment@, l) && (
                forall|k: int| 0 <= k < m ==> lit_false(assignment@, #[trigger] self@[k])),
    {
        let mut k: usize = 0;
        while k < self.lits.len()
            invariant
                k <= self.lits.len(),
                clause_in_bounds(self@, assignment@.len() as int),
                forall|i: int| 0 <= i < k ==> lit_false(assignment@, #[trigger] self@[i]),
            decreases self.lits.len() - k,
        {
            if !assignment.falsified(self.lits[k]) {
                return self.lits[k];
            }
            k += 1;
        }
        proof {
            lemma_live_count_zero(assignment@, self@);
            assert(false);
        }
        self.lits[0]
    }
}

} // verus!

verus! {

/// The clause sequence holds literal `l` somewhere.
pub open spec fn clause_has_lit(c: Seq<Literal>, l: Literal) -> bool {
    exists|m: int| 0 <= m < c.len() && #[trigger] c[m] == l
}

/// The reverse-index entry list holds the pair `(j, neg)`.
pub open spec fn has_entry(entries: Seq<(usize, bool)>, j: int, neg: bool) -> bool {
    exists|k: int| 0 <= k < entries.len() && (#[trigger] entries[k]).0 == j && entries[k].1 == neg
}

/// Some literal of the group names variable `i`.
pub open spec fn group_has_id(g: Seq<Literal>, i: int) -> bool {
    exists|k: int| 0 <= k < g.len() && (#[trigger] g[k]).id == i
}

/// No two literals of the group name the same variable.
pub open spec fn lits_distinct(g: Seq<Literal>) -> bool {
    forall|k1: int, k2: int|
        0 <= k1 < k2 < g.len() ==> (#[trigger] g[k1]).id != (#[trigger] g[k2]).id
}

/// The assignment after applying the first `k` literals of a group, in
/// order, to `a`.
pub open spec fn apply_lits(a: Seq<Option<bool>>, g: Seq<Literal>, k: int) -> Seq<Option<bool>>
    decreases k,
{
    if k <= 0 {
        a
    } else {
        apply_lits(a, g, k - 1).update(g[k - 1].id as int, Some(g[k - 1].negated))
    }
}

pub proof fn lemma_apply_lits_len(a: Seq<Option<bool>>, g: Seq<Literal>, k: int)
    requires
        0 <= k <= g.len(),
        forall|x: int| 0 <= x < g.len() ==> (#[trigger] g[x]).id < a.len(),
    ensures
        apply_lits(a, g, k).len() == a.len(),
    decreases k,
{
    if k > 0 {
        lemma_apply_lits_len(a, g, k - 1);
    }
}

pub proof fn lemma_apply_lits_untouched(a: Seq<Option<bool>>, g: Seq<Literal>, k: int, i: int)
    requires
        0 <= k <= g.len(),
        0 <= i < a.len(),
        forall|x: int| 0 <= x < g.len() ==> (#[trigger] g[x]).id < a.len(),
        forall|x: int| 0 <= x < k ==> (#[trigger] g[x]).id != i,
    ensures
        apply_lits(a, g, k)[i] == a[i],
    decreases k,
{
    if k > 0 {
        lemma_apply_lits_len(a, g, k - 1);
        lemma_apply_lits_untouched(a, g, k - 1, i);
    }
}

pub proof fn lemma_apply_lits_hit(a: Seq<Option<bool>>, g: Seq<Literal>, k: int, x: int)
    requires
        0 <= x < k <= g.len(),
        lits_distinct(g),
        forall|y: int| 0 <= y < g.len() ==> (#[trigger] g[y]).id < a.len(),
    ensures
        apply_lits(a, g, k)[g[x].id as int] == Some(g[x].negated),
    decreases k,
{
    lemma_apply_lits_len(a, g, k - 1);
    if x == k - 1 {
    } else {
        lemma_apply_lits_hit(a, g, k - 1, x);
    }
}

pub proof fn lemma_apply_lits_push(a: Seq<Option<bool>>, g: Seq<Literal>, l: Literal, k: int)
    requires
        0 <= k <= g.len(),
    ensures
        apply_lits(a, g.push(l), k) == apply_lits(a, g, k),
    decreases k,
{
    if k > 0 {
        lemma_apply_lits_push(a, g, l, k - 1);
        assert(g.push(l)[k - 1] == g[k - 1]);
    }
}

/// Some clause forces literal `l` under assignment `a`: `l` stands in the
/// clause and every other literal of that clause is falsified.
pub open spec fn lit_forced(clauses: Seq<Clause>, a: Seq<Option<bool>>, l: Literal) -> bool {
    exists|j: int, m: int|
        0 <= j < clauses.len() && 0 <= m < clauses[j]@.len() && #[trigger] clauses[j]@[m] == l
            && (forall|m2: int|
            0 <= m2 < clauses[j]@.len() && m2 != m ==> lit_false(a, #[trigger] clauses[j]@[m2]))
}

/// Some live literal of the clause is waiting in the worklist.
pub open spec fn unit_covered(queue: Seq<Literal>, c: Seq<Literal>, a: Seq<Option<bool>>) -> bool {
    exists|q: int, m: int|
        0 <= q < queue.len() && 0 <= m < c.len() && #[trigger] queue[q] == #[trigger] c[m]
            && lit_live(a, c[m])
}

/// A clause whose variables all kept their slots keeps its live literal
/// count.
pub proof fn lemma_live_count_same(a: Seq<Option<bool>>, b: Seq<Option<bool>>, c: Seq<Literal>)
    requires
        a.len() == b.len(),
        forall|m: int| 0 <= m < c.len() ==> a[(#[trigger] c[m]).id as int] == b[c[m].id as int],
        clause_in_bounds(c, a.len() as int),
    ensures
        live_count(a, c) == live_count(b, c),
    decreases c.len(),
{
    if c.len() > 0 {
        assert(forall|m: int| 0 <= m < c.len() - 1 ==> c.drop_last()[m] == c[m]);
        lemma_live_count_same(a, b, c.drop_last());
    }
}

/// Satisfaction of a clause survives further assignments.
pub proof fn lemma_sat_monotone(a: Seq<Option<bool>>, b: Seq<Option<bool>>, c: Seq<Literal>)
    requires
        a.len() == b.len(),
        forall|i: int| 0 <= i < a.len() && (#[trigger] a[i]) is Some ==> b[i] == a[i],
        clause_sat(a, c),
    ensures
        clause_sat(b, c),
{
    let i = choose|i: int| 0 <= i < c.len() && lit_true(a, #[trigger] c[i]);
    assert(lit_true(b, c[i]));
}

/// Violation of a clause survives further assignments.
pub proof fn lemma_violated_monotone(a: Seq<Option<bool>>, b: Seq<Option<bool>>, c: Seq<Literal>)
    requires
        a.len() == b.len(),
        forall|i: int| 0 <= i < a.len() && (#[trigger] a[i]) is Some ==> b[i] == a[i],
        clause_violated(a, c),
    ensures
        clause_violated(b, c),
{
    assert forall|i: int| 0 <= i < c.len() implies lit_false(b, #[trigger] c[i]) by {
        assert(lit_false(a, c[i]));
    }
}

/// Being forced survives further assignments.
pub proof fn lemma_lit_forced_monotone(
    clauses: Seq<Clause>,
    a: Seq<Option<bool>>,
    b: Seq<Option<bool>>,
    l: Literal,
)
    requires
        lit_forced(clauses, a, l),
        a.len() == b.len(),
        forall|i: int| 0 <= i < a.len() && (#[trigger] a[i]) is Some ==> b[i] == a[i],
    ensures
        lit_forced(clauses, b, l),
{
    let (j, m) = choose|j: int, m: int|
        0 <= j < clauses.len() && 0 <= m < clauses[j]@.len() && #[trigger] clauses[j]@[m] == l
            && (forall|m2: int|
            0 <= m2 < clauses[j]@.len() && m2 != m ==> lit_false(a, #[trigger] clauses[j]@[m2]));
    assert forall|m2: int|
        0 <= m2 < clauses[j]@.len() && m2 != m implies lit_false(b, #[trigger] clauses[j]@[m2]) by {
        assert(lit_false(a, clauses[j]@[m2]));
    }
    assert(0 <= j < clauses.len() && 0 <= m < clauses[j]@.len() && clauses[j]@[m] == l && (
    forall|m2: int|
        0 <= m2 < clauses[j]@.len() && m2 != m ==> lit_false(b, #[trigger] clauses[j]@[m2])));
}

/// A propositional formula in CNF, together with the live solver state: the
/// partial assignment, the per-clause satisfied flags, the reverse index from
/// variables to the clauses that mention them, and the undo log.
#[derive(Debug)]
pub struct Formula {
    /// The retained (non-tautological) clauses, in input order.
    pub clauses: Vec<Clause>,
    /// For each clause, whether it is currently satisfied.
    pub satisfied: Vec<bool>,
    /// The single live assignment.
    pub assignment: Assignment,
    /// For each variable id, the `(clause index, polarity)` pairs of the
    /// clauses whose literals mention it.
    pub clause_indices: Vec<Vec<(usize, bool)>>,
    /// The undo log: one group of literals per top-level assignment, each
    /// group in assignment order.
    pub assign_history: Vec<Vec<Literal>>,
    /// Number of clauses not currently marked satisfied.
    pub remaining_clauses: usize,
    /// Set when some clause has no live literal under the current
    /// assignment.
    pub unsolvable: bool,
    /// The search cursor: every variable id strictly below it is assigned.
    pub next_literal_id: usize,
}

/// One reverse-index entry points at a real clause that holds the literal
/// the entry describes.
pub open spec fn entry_ok_for(
    clauses: Seq<Clause>,
    indices: Seq<Vec<(usize, bool)>>,
    v: int,
    k: int,
) -> bool {
    let e = indices[v]@[k];
    &&& (e.0 as int) < clauses.len()
    &&& clause_has_lit(clauses[e.0 as int]@, Literal { id: v as usize, negated: e.1 })
}

pub open spec fn index_sound_for(
    clauses: Seq<Clause>,
    indices: Seq<Vec<(usize, bool)>>,
    n: int,
) -> bool {
    forall|v: int, k: int|
        0 <= v < n && 0 <= k < indices[v]@.len() ==> #[trigger] entry_ok_for(clauses, indices, v, k)
}

/// Every literal occurrence of every clause has its reverse-index entry.
pub open spec fn index_complete_for(clauses: Seq<Clause>, indices: Seq<Vec<(usize, bool)>>) -> bool {
    forall|j: int, m: int|
        0 <= j < clauses.len() && 0 <= m < clauses[j]@.len() ==> has_entry(
            indices[(#[trigger] clauses[j]@[m]).id as int]@,
            j,
            clauses[j]@[m].negated,
        )
}

impl Formula {
    pub open spec fn num_vars(self) -> int {
        self.assignment@.len() as int
    }

    pub open spec fn index_sound(self) -> bool {
        index_sound_for(self.clauses@, self.clause_indices@, self.num_vars())
    }

    pub open spec fn index_complete(self) -> bool {
        index_complete_for(self.clauses@, self.clause_indices@)
    }

    /// The bookkeeping invariant: flags mirror real satisfaction, the
    /// remaining count mirrors the flags, the contradiction flag has a
    /// witness, and the reverse index is exact.
    pub open spec fn core_ok(self) -> bool {
        &&& self.clause_indices@.len() == self.num_vars()
        &&& self.satisfied@.len() == self.clauses@.len()
        &&& (forall|j: int|
            0 <= j < self.clauses@.len() ==> clause_in_bounds(
                (#[trigger] self.clauses@[j])@,
                self.num_vars(),
            ))
        &&& (forall|j: int|
            0 <= j < self.clauses@.len() ==> ((#[trigger] self.satisfied@[j]) <==> clause_sat(
                self.assignment@,
                self.clauses@[j]@,
            )))
        &&& self.remaining_clauses == count_false(self.satisfied@)
        &&& (self.unsolvable ==> exists|j: int|
            0 <= j < self.clauses@.len() && clause_violated(
                self.assignment@,
                (#[trigger] self.clauses@[j])@,
            ))
        &&& self.index_sound()
        &&& self.index_complete()
    }

    /// Full well-formedness: bookkeeping plus the search-cursor invariant
    /// (every id strictly below the cursor is assigned).
    pub open spec fn wf(self) -> bool {
        &&& self.core_ok()
        &&& self.next_literal_id <= self.num_vars()
        &&& (forall|i: int|
            0 <= i < self.next_literal_id ==> (#[trigger] self.assignment@[i]) is Some)
    }

    /// No clause is violated under the current assignment.
    pub open spec fn no_violated(self) -> bool {
        forall|j: int|
            0 <= j < self.clauses@.len() ==> !clause_violated(
                self.assignment@,
                (#[trigger] self.clauses@[j])@,
            )
    }

    /// A queued unit literal: in bounds and forced by some clause under the
    /// current assignment.
    pub open spec fn queued_ok(self, l: Literal) -> bool {
        &&& (l.id as int) < self.num_vars()
        &&& lit_forced(self.clauses@, self.assignment@, l)
    }

    /// How `assign` relates the pre- and post-states: one new undo group
    /// whose head is the decision literal, whose members were unassigned
    /// before and are applied in order, and whose non-head members were each
    /// forced by some clause at the moment they were applied.
    pub open spec fn assign_step(pre: Formula, post: Formula, lit: Literal) -> bool {
        let g = post.assign_history@.last()@;
        &&& pre.unsolvable == false
        &&& post.clauses == pre.clauses
        &&& post.clause_indices == pre.clause_indices
        &&& post.assign_history@.len() == pre.assign_history@.len() + 1
        &&& post.assign_history@.drop_last() == pre.assign_history@
        &&& g.len() >= 1
        &&& g[0] == lit
        &&& lits_distinct(g)
        &&& (forall|k: int|
            0 <= k < g.len() ==> (#[trigger] g[k]).id < pre.num_vars()
                && pre.assignment@[g[k].id as int] is None)
        &&& (forall|k: int|
            1 <= k < g.len() ==> lit_forced(
                pre.clauses@,
                apply_lits(pre.assignment@, g, k),
                #[trigger] g[k],
            ))
        &&& post.assignment@ == apply_lits(pre.assignment@, g, g.len() as int)
        &&& post.next_literal_id == lit.id + 1
    }

    /// How `un_assign` relates the pre- and post-states: the most recent
    /// undo group is popped and exactly its variables are cleared, the
    /// contradiction flag is reset and the cursor moves back to the decision
    /// id.
    pub open spec fn unassign_step(pre: Formula, post: Formula, lit: Literal) -> bool {
        let g = pre.assign_history@.last()@;
        &&& post.clauses == pre.clauses
        &&& post.clause_indices == pre.clause_indices
        &&& post.assign_history@ == pre.assign_history@.drop_last()
        &&& post.assignment@.len() == pre.assignment@.len()
        &&& (forall|i: int|
            0 <= i < pre.assignment@.len() ==> #[trigger] post.assignment@[i] == (
            if group_has_id(g, i) {
                None::<bool>
            } else {
                pre.assignment@[i]
            }))
        &&& post.unsolvable == false
        &&& post.next_literal_id == lit.id
    }
}

} // verus!

verus! {

impl Formula {
    /// Applies one literal to the assignment and walks its reverse-index
    /// entries. Clauses whose literal over this variable became true are
    /// marked satisfied; clauses whose literal became false are re-counted,
    /// setting the contradiction flag when no live literal remains and
    /// queueing the single live literal when exactly one does. A clause
    /// already marked satisfied forces nothing.
    ///
    /// `base` is the assignment the enclosing top-level `assign` started
    /// from: a clause that is unit here without its live literal waiting in
    /// the worklist was already unit back then.
    fn apply_and_scan(&mut self, l: Literal, queue: &mut Vec<Literal>, base: Ghost<
        Seq<Option<bool>>,
    >)
        requires
            old(self).core_ok(),
            !old(self).unsolvable,
            old(self).no_violated(),
            (l.id as int) < old(self).num_vars(),
            old(self).assignment@[l.id as int] is None,
            forall|q: int|
                0 <= q < old(queue)@.len() ==> old(self).queued_ok(#[trigger] old(queue)@[q]),
            forall|j: int|
                0 <= j < old(self).clauses@.len() && !old(self).satisfied@[j] && live_count(
                    old(self).assignment@,
                    (#[trigger] old(self).clauses@[j])@,
                ) == 1 ==> unit_covered(
                    old(queue)@.push(l),
                    old(self).clauses@[j]@,
                    old(self).assignment@,
                ) || live_count(base@, old(self).clauses@[j]@) == 1,
        ensures
            final(self).core_ok(),
            final(self).clauses == old(self).clauses,
            final(self).clause_indices == old(self).clause_indices,
            final(self).assign_history == old(self).assign_history,
            final(self).next_literal_id == old(self).next_literal_id,
            final(self).assignment@ == old(self).assignment@.update(
                l.id as int,
                Some(l.negated),
            ),
            !final(self).unsolvable ==> final(self).no_violated(),
            forall|q: int|
                0 <= q < final(queue)@.len() ==> final(self).queued_ok(
                    #[trigger] final(queue)@[q],
                ),
            forall|j: int|
                0 <= j < old(self).clauses@.len() && old(self).satisfied@[j]
                    ==> final(self).satisfied@[j],
            !final(self).unsolvable ==> forall|j: int|
                0 <= j < old(self).clauses@.len() && !final(self).satisfied@[j] && live_count(
                    final(self).assignment@,
                    (#[trigger] old(self).clauses@[j])@,
                ) == 1 ==> unit_covered(
                    final(queue)@,
                    old(self).clauses@[j]@,
                    final(self).assignment@,
                ) || live_count(base@, old(self).clauses@[j]@) == 1,
    {
        self.assignment.assign(l);
        let ghost a0 = old(self).assignment@;
        let ghost a1 = self.assignment@;
        let ghost cs = self.clauses@;
        let ghost entries = self.clause_indices@[l.id as int]@;
        let ghost n = self.num_vars();
        proof {
            assert forall|q: int| 0 <= q < queue@.len() implies self.queued_ok(
                #[trigger] queue@[q],
            ) by {
                lemma_lit_forced_monotone(cs, a0, a1, queue@[q]);
            }
            assert forall|j: int|
                0 <= j < cs.len() && (#[trigger] self.satisfied@[j]) implies clause_sat(
                a1,
                cs[j]@,
            ) by {
                lemma_sat_monotone(a0, a1, cs[j]@);
            }
            assert forall|j: int|
                0 <= j < cs.len() && clause_sat(a1, (#[trigger] cs[j])@) && !self.satisfied@[j]
                implies exists|k2: int|
                0 <= k2 < entries.len() && (#[trigger] entries[k2]).0 == j && entries[k2].1
                    == l.negated by {
                let m = choose|m: int| 0 <= m < cs[j]@.len() && lit_true(a1, #[trigger] cs[j]@[m]);
                assert(!lit_true(a0, cs[j]@[m]));
                assert(cs[j]@[m].id == l.id);
                assert(cs[j]@[m] == l);
                assert(has_entry(self.clause_indices@[l.id as int]@, j, l.negated));
            }
            assert forall|j: int|
                0 <= j < cs.len() && clause_violated(a1, (#[trigger] cs[j])@) implies exists|
                k2: int,
            |
                0 <= k2 < entries.len() && (#[trigger] entries[k2]).0 == j && entries[k2].1
                    == !l.negated by {
                assert(!clause_violated(a0, cs[j]@));
                let m = choose|m: int| 0 <= m < cs[j]@.len() && !lit_false(a0, #[trigger] cs[j]@[m]);
                assert(lit_false(a1, cs[j]@[m]));
                assert(cs[j]@[m].id == l.id);
                assert(cs[j]@[m] == l.complement());
                assert(has_entry(self.clause_indices@[l.id as int]@, j, !l.negated));
            }
            // every unsatisfied unit clause is accounted for: a pending
            // index entry if it mentions this variable, else it was unit
            // already and its cover (if any) survives in the worklist
            assert forall|j: int|
                0 <= j < cs.len() && !self.satisfied@[j] && live_count(
                    a1,
                    (#[trigger] cs[j])@,
                ) == 1 implies unit_covered(queue@, cs[j]@, a1) || live_count(base@, cs[j]@) == 1
                || (exists|k2: int|
                0 <= k2 < entries.len() && (#[trigger] entries[k2]).0 == j) by {
                if exists|m: int| 0 <= m < cs[j]@.len() && (#[trigger] cs[j]@[m]).id == l.id {
                    let m = choose|m: int| 0 <= m < cs[j]@.len() && (#[trigger] cs[j]@[m]).id == l.id;
                    assert(has_entry(
                        self.clause_indices@[cs[j]@[m].id as int]@,
                        j,
                        cs[j]@[m].negated,
                    ));
                } else {
                    assert forall|m: int|
                        0 <= m < cs[j]@.len() implies a0[(#[trigger] cs[j]@[m]).id as int] == a1[cs[j]@[m].id as int] by {
                        assert(cs[j]@[m].id != l.id);
                    }
                    lemma_live_count_same(a0, a1, cs[j]@);
                    if live_count(base@, cs[j]@) != 1 {
                        let (q, m) = choose|q: int, m: int|
                            0 <= q < queue@.push(l).len() && 0 <= m < cs[j]@.len()
                                && #[trigger] queue@.push(l)[q] == #[trigger] cs[j]@[m] && lit_live(
                                a0,
                                cs[j]@[m],
                            );
                        assert(cs[j]@[m].id != l.id);
                        if q == queue@.len() {
                            assert(cs[j]@[m] == l);
                            assert(false);
                        }
                        assert(queue@[q] == cs[j]@[m]);
                        assert(lit_live(a1, cs[j]@[m]));
                        assert(unit_covered(queue@, cs[j]@, a1));
                    }
                }
            }
        }
        let num_entries = self.clause_indices[l.id].len();
        let mut k: usize = 0;
        while k < num_entries
            invariant
                k <= num_entries,
                num_entries == entries.len(),
                (l.id as int) < n,
                a1.len() == n,
                a1[l.id as int] == Some(l.negated),
                self.assignment@ == a1,
                self.clauses == old(self).clauses,
                self.clause_indices == old(self).clause_indices,
                self.assign_history == old(self).assign_history,
                self.next_literal_id == old(self).next_literal_id,
                cs == self.clauses@,
                entries == self.clause_indices@[l.id as int]@,
                n == self.num_vars(),
                self.satisfied@.len() == cs.len(),
                self.index_sound(),
                self.index_complete(),
                self.clause_indices@.len() == n,
                forall|j: int| 0 <= j < cs.len() ==> clause_in_bounds((#[trigger] cs[j])@, n),
                forall|j: int|
                    0 <= j < cs.len() ==> ((#[trigger] self.satisfied@[j]) ==> clause_sat(
                        a1,
                        cs[j]@,
                    )),
                forall|j: int|
                    0 <= j < cs.len() && clause_sat(a1, (#[trigger] cs[j])@) && !self.satisfied@[j]
                        ==> exists|k2: int|
                        k <= k2 < entries.len() && (#[trigger] entries[k2]).0 == j
                            && entries[k2].1 == l.negated,
                self.remaining_clauses == count_false(self.satisfied@),
                self.unsolvable ==> exists|j: int|
                    0 <= j < cs.len() && clause_violated(a1, (#[trigger] cs[j])@),
                !self.unsolvable ==> forall|j: int|
                    0 <= j < cs.len() && clause_violated(a1, (#[trigger] cs[j])@) ==> exists|
                        k2: int,
                    |
                        k <= k2 < entries.len() && (#[trigger] entries[k2]).0 == j
                            && entries[k2].1 == !l.negated,
                forall|q: int| 0 <= q < queue@.len() ==> self.queued_ok(#[trigger] queue@[q]),
                forall|j: int|
                    0 <= j < cs.len() && old(self).satisfied@[j] ==> self.satisfied@[j],
                !self.unsolvable ==> forall|j: int|
                    0 <= j < cs.len() && !self.satisfied@[j] && live_count(
                        a1,
                        (#[trigger] cs[j])@,
                    ) == 1 ==> unit_covered(queue@, cs[j]@, a1) || live_count(base@, cs[j]@) == 1
                        || (exists|k2: int|
                    k <= k2 < entries.len() && (#[trigger] entries[k2]).0 == j),
            decreases num_entries - k,
        {
            let entry = self.clause_indices[l.id][k];
            let clause_idx = entry.0;
            let negated = entry.1;
            proof {
                assert(entry_ok_for(cs, self.clause_indices@, l.id as int, k as int));
            }
            if negated == l.negated {
                // the clause's literal over this variable is now true
                if !self.satisfied[clause_idx] {
                    proof {
                        lemma_count_false_pos(self.satisfied@, clause_idx as int);
                        lemma_count_false_update(self.satisfied@, clause_idx as int, true);
                        let cl = Literal { id: l.id, negated };
                        assert(cl == l);
                        let m = choose|m: int|
                            0 <= m < cs[clause_idx as int]@.len() && #[trigger] cs[clause_idx as int]@[m]
                                == cl;
                        assert(lit_true(a1, cs[clause_idx as int]@[m]));
                        assert(clause_sat(a1, cs[clause_idx as int]@));
                    }
                    self.satisfied[clause_idx] = true;
                    self.remaining_clauses -= 1;
                }
            } else {
                // the clause's literal over this variable is now false
                if !self.unsolvable && !self.satisfied[clause_idx] {
                    let n_live = self.clauses[clause_idx].num_literals(&self.assignment);
                    proof {
                        lemma_live_count_zero(a1, cs[clause_idx as int]@);
                    }
                    if n_live == 0 {
                        self.unsolvable = true;
                    } else if n_live == 1 {
                        let unit = self.clauses[clause_idx].first_live(&self.assignment);
                        proof {
                            let m = choose|m: int|
                                0 <= m < cs[clause_idx as int]@.len() && #[trigger] cs[clause_idx as int]@[m]
                                    == unit && lit_live(a1, unit);
                            lemma_live_count_one(a1, cs[clause_idx as int]@, m);
                            assert(0 <= clause_idx < cs.len() && 0 <= m < cs[clause_idx as int]@.len()
                                && cs[clause_idx as int]@[m] == unit && (forall|m2: int|
                                0 <= m2 < cs[clause_idx as int]@.len() && m2 != m ==> lit_false(
                                    a1,
                                    #[trigger] cs[clause_idx as int]@[m2],
                                )));
                            assert(lit_forced(cs, a1, unit));
                            assert(unit.id < n);
                        }
                        let ghost q_before = queue@;
                        queue.push(unit);
                        proof {
                            assert forall|j2: int|
                                0 <= j2 < cs.len() && unit_covered(
                                    q_before,
                                    (#[trigger] cs[j2])@,
                                    a1,
                                ) implies unit_covered(queue@, cs[j2]@, a1) by {
                                let (q, m) = choose|q: int, m: int|
                                    0 <= q < q_before.len() && 0 <= m < cs[j2]@.len()
                                        && #[trigger] q_before[q] == #[trigger] cs[j2]@[m]
                                        && lit_live(a1, cs[j2]@[m]);
                                assert(queue@[q] == cs[j2]@[m]);
                            }
                            let m = choose|m: int|
                                0 <= m < cs[clause_idx as int]@.len()
                                    && #[trigger] cs[clause_idx as int]@[m] == unit && lit_live(
                                    a1,
                                    unit,
                                );
                            assert(queue@[queue@.len() - 1] == cs[clause_idx as int]@[m]);
                            assert(unit_covered(queue@, cs[clause_idx as int]@, a1));
                        }
                    }
                } else {
                    proof {
                        if !self.unsolvable && self.satisfied@[clause_idx as int] {
                            // the clause is marked satisfied, hence not violated
                            assert(clause_sat(a1, cs[clause_idx as int]@));
                            let m = choose|m: int|
                                0 <= m < cs[clause_idx as int]@.len() && lit_true(
                                    a1,
                                    #[trigger] cs[clause_idx as int]@[m],
                                );
                            assert(!lit_false(a1, cs[clause_idx as int]@[m]));
                            assert(!clause_violated(a1, cs[clause_idx as int]@));
                        }
                    }
                }
            }
            k += 1;
        }
    }
}

} // verus!

verus! {

impl Formula {
    /// Assigns a decision literal and performs unit propagation: every
    /// forced consequence is applied through an explicit worklist within the
    /// same undo group. The search cursor advances past the decision id.
    /// Once a violated clause has been found, no further unit is applied
    /// (the rest of the branch is moot), though the scan of an applied
    /// literal still finishes its bookkeeping.
    pub fn assign(&mut self, lit: Literal)
        requires
            old(self).wf(),
            !old(self).unsolvable,
            old(self).no_violated(),
            (lit.id as int) < old(self).num_vars(),
            old(self).assignment@[lit.id as int] is None,
            forall|i: int| 0 <= i < lit.id ==> (#[trigger] old(self).assignment@[i]) is Some,
        ensures
            final(self).wf(),
            Formula::assign_step(*old(self), *final(self), lit),
            !final(self).unsolvable ==> final(self).no_violated(),
            forall|j: int|
                0 <= j < old(self).clauses@.len() && old(self).satisfied@[j]
                    ==> final(self).satisfied@[j],
            // propagation reaches a fixpoint: with the contradiction flag
            // clear, any clause left unsatisfied with exactly one live
            // literal was already such a unit before the call
            !final(self).unsolvable ==> forall|j: int|
                0 <= j < old(self).clauses@.len() && !final(self).satisfied@[j] && live_count(
                    final(self).assignment@,
                    (#[trigger] old(self).clauses@[j])@,
                ) == 1 ==> live_count(old(self).assignment@, old(self).clauses@[j]@) == 1,
    {
        let num_vars = self.assignment.values.len();
        self.next_literal_id = lit.id + 1;
        let mut queue: Vec<Literal> = Vec::new();
        let mut group: Vec<Literal> = Vec::new();
        let ghost a_start = self.assignment@;
        let ghost cs = self.clauses@;
        let ghost n = self.num_vars();
        self.apply_and_scan(lit, &mut queue, Ghost(a_start));
        group.push(lit);
        proof {
            assert(apply_lits(a_start, group@, 0) == a_start);
            assert(apply_lits(a_start, group@, 1) == a_start.update(
                lit.id as int,
                Some(lit.negated),
            ));
        }
        while queue.len() > 0 && !self.unsolvable
            invariant
                self.core_ok(),
                self.clauses == old(self).clauses,
                self.clause_indices == old(self).clause_indices,
                self.assign_history == old(self).assign_history,
                self.next_literal_id == lit.id + 1,
                cs == self.clauses@,
                n == self.num_vars(),
                n == old(self).num_vars(),
                a_start == old(self).assignment@,
                a_start.len() == n,
                (lit.id as int) < n,
                !self.unsolvable ==> self.no_violated(),
                group@.len() >= 1,
                group@[0] == lit,
                lits_distinct(group@),
                forall|k: int|
                    0 <= k < group@.len() ==> (#[trigger] group@[k]).id < n
                        && a_start[group@[k].id as int] is None,
                forall|k: int|
                    1 <= k < group@.len() ==> lit_forced(
                        cs,
                        apply_lits(a_start, group@, k),
                        #[trigger] group@[k],
                    ),
                self.assignment@ == apply_lits(a_start, group@, group@.len() as int),
                self.assignment@.len() == n,
                forall|k: int|
                    0 <= k < group@.len() ==> self.assignment@[(#[trigger] group@[k]).id as int]
                        == Some(group@[k].negated),
                forall|i: int|
                    0 <= i < n && (#[trigger] a_start[i]) is Some ==> self.assignment@[i]
                        == a_start[i],
                forall|q: int| 0 <= q < queue@.len() ==> self.queued_ok(#[trigger] queue@[q]),
                forall|j: int|
                    0 <= j < cs.len() && old(self).satisfied@[j] ==> self.satisfied@[j],
                !self.unsolvable ==> forall|j: int|
                    0 <= j < cs.len() && !self.satisfied@[j] && live_count(
                        self.assignment@,
                        (#[trigger] cs[j])@,
                    ) == 1 ==> unit_covered(queue@, cs[j]@, self.assignment@) || live_count(
                        a_start,
                        cs[j]@,
                    ) == 1,
            decreases count_unassigned(self.assignment@), queue@.len(),
        {
            let ghost q_pre_pop = queue@;
            let next = queue.pop().unwrap();
            proof {
                assert(queue@.push(next) =~= q_pre_pop);
            }
            if !self.assignment.id_assigned(next.id) {
                let ghost a_before = self.assignment@;
                let ghost g_before = group@;
                self.apply_and_scan(next, &mut queue, Ghost(a_start));
                group.push(next);
                proof {
                    lemma_apply_lits_push(a_start, g_before, next, g_before.len() as int);
                    assert(apply_lits(a_start, group@, group@.len() as int) == apply_lits(
                        a_start,
                        group@,
                        group@.len() - 1,
                    ).update(next.id as int, Some(next.negated)));
                    assert(group@.drop_last() =~= g_before);
                    assert(apply_lits(a_start, group@, group@.len() - 1) == apply_lits(
                        a_start,
                        g_before,
                        g_before.len() as int,
                    ));
                    assert(self.assignment@ == a_before.update(next.id as int, Some(next.negated)));
                    lemma_count_unassigned_update_some(
                        a_before,
                        next.id as int,
                        Some(next.negated),
                    );
                    assert forall|k: int|
                        1 <= k < group@.len() implies lit_forced(
                        cs,
                        apply_lits(a_start, group@, k),
                        #[trigger] group@[k],
                    ) by {
                        lemma_apply_lits_push(a_start, g_before, next, k);
                        if k < group@.len() - 1 {
                            assert(group@[k] == g_before[k]);
                        } else {
                            assert(group@[k] == next);
                            assert(apply_lits(a_start, group@, k) == a_before);
                        }
                    }
                }
            } else {
                proof {
                    // the popped literal is already assigned: a clause it
                    // was covering is either satisfied (same polarity,
                    // contradicting its clear flag) or lost that literal as
                    // a cover (opposite polarity), so the remaining
                    // worklist still covers every pending unit
                    assert forall|j: int|
                        0 <= j < cs.len() && !self.satisfied@[j] && live_count(
                            self.assignment@,
                            (#[trigger] cs[j])@,
                        ) == 1 && live_count(a_start, cs[j]@) != 1 implies unit_covered(
                        queue@,
                        cs[j]@,
                        self.assignment@,
                    ) by {
                        let (q, m) = choose|q: int, m: int|
                            0 <= q < q_pre_pop.len() && 0 <= m < cs[j]@.len()
                                && #[trigger] q_pre_pop[q] == #[trigger] cs[j]@[m] && lit_live(
                                self.assignment@,
                                cs[j]@[m],
                            );
                        if q == q_pre_pop.len() - 1 {
                            assert(cs[j]@[m] == next);
                            assert(self.assignment@[next.id as int] is Some);
                            match self.assignment@[next.id as int] {
                                Some(x) => {
                                    if x == next.negated {
                                        assert(lit_true(self.assignment@, cs[j]@[m]));
                                        assert(clause_sat(self.assignment@, cs[j]@));
                                    } else {
                                        assert(self.assignment@[next.id as int] == Some(
                                            !next.negated,
                                        ));
                                        assert(lit_false(self.assignment@, cs[j]@[m]));
                                    }
                                },
                                None => {},
                            }
                            assert(false);
                        } else {
                            assert(queue@[q] == cs[j]@[m]);
                        }
                    }
                }
            }
        }
        let ghost g_final = group@;
        self.assign_history.push(group);
        proof {
            assert(self.assign_history@.drop_last() =~= old(self).assign_history@);
            assert(self.assign_history@.last()@ == g_final);
            assert(g_final[0] == lit);
            assert(self.assignment@[(g_final[0]).id as int] == Some(g_final[0].negated));
            assert forall|i: int|
                0 <= i < self.next_literal_id implies (#[trigger] self.assignment@[i]) is Some by {
                if i < lit.id {
                    assert(a_start[i] is Some);
                } else {
                    assert(i == lit.id);
                    assert(self.assignment@[i] == Some(lit.negated));
                }
            }
        }
    }

    /// Reverses exactly one top-level assignment and everything it cascaded
    /// into: pops the most recent undo group, clears its literals in
    /// reverse assignment order, and for every clause that was satisfied
    /// through a cleared literal re-checks whether some other literal still
    /// satisfies it, unmarking it otherwise. The contradiction flag is
    /// cleared and the search cursor moves back to the decision id, so the
    /// opposite-polarity decision rescans starting exactly there.
    pub fn un_assign(&mut self, lit: Literal)
        requires
            old(self).wf(),
            old(self).assign_history@.len() > 0,
            (lit.id as int) < old(self).num_vars(),
            forall|i: int| 0 <= i < lit.id ==> (#[trigger] old(self).assignment@[i]) is Some,
            lits_distinct(old(self).assign_history@.last()@),
            forall|k: int|
                0 <= k < old(self).assign_history@.last()@.len() ==> {
                    let l = #[trigger] old(self).assign_history@.last()@[k];
                    &&& (l.id as int) < old(self).num_vars()
                    &&& lit.id <= l.id
                    &&& old(self).assignment@[l.id as int] == Some(l.negated)
                },
        ensures
            final(self).wf(),
            Formula::unassign_step(*old(self), *final(self), lit),
    {
        self.next_literal_id = lit.id;
        self.unsolvable = false;
        let group = match self.assign_history.pop() {
            Some(group) => group,
            None => {
                proof {
                    assert(false);
                }
                Vec::new()
            },
        };
        let ghost g = group@;
        let ghost cs = self.clauses@;
        let ghost n = self.num_vars();
        let ghost a_pre = old(self).assignment@;
        let mut t: usize = group.len();
        while t > 0
            invariant
                t <= g.len(),
                g == group@,
                cs == self.clauses@,
                n == self.num_vars(),
                n == old(self).num_vars(),
                a_pre == old(self).assignment@,
                a_pre.len() == n,
                self.clauses == old(self).clauses,
                self.clause_indices == old(self).clause_indices,
                self.assign_history@ == old(self).assign_history@.drop_last(),
                self.next_literal_id == lit.id,
                self.unsolvable == false,
                self.core_ok(),
                lits_distinct(g),
                forall|k: int|
                    0 <= k < g.len() ==> (#[trigger] g[k]).id < n && lit.id <= g[k].id
                        && a_pre[g[k].id as int] == Some(g[k].negated),
                self.assignment@.len() == n,
                forall|i: int|
                    0 <= i < n ==> #[trigger] self.assignment@[i] == (if exists|k: int|
                        t <= k < g.len() && (#[trigger] g[k]).id == i {
                        None::<bool>
                    } else {
                        a_pre[i]
                    }),
            decreases t,
        {
            t -= 1;
            let l = group[t];
            let ghost a_before = self.assignment@;
            proof {
                assert forall|k: int| t + 1 <= k < g.len() implies (#[trigger] g[k]).id != l.id by {
                    assert(g[t as int].id != g[k].id);
                }
                assert(a_before[l.id as int] == a_pre[l.id as int]);
            }
            self.assignment.un_assign(l);
            let ghost a_new = self.assignment@;
            let ghost entries = self.clause_indices@[l.id as int]@;
            proof {
                assert forall|j: int|
                    0 <= j < cs.len() && !self.satisfied@[j] implies !clause_sat(
                    a_new,
                    (#[trigger] cs[j])@,
                ) by {
                    if clause_sat(a_new, cs[j]@) {
                        lemma_sat_monotone(a_new, a_before, cs[j]@);
                    }
                }
                assert forall|j: int|
                    0 <= j < cs.len() && self.satisfied@[j] && !clause_sat(
                        a_new,
                        (#[trigger] cs[j])@,
                    ) implies exists|k3: int|
                    0 <= k3 < entries.len() && (#[trigger] entries[k3]).0 == j && entries[k3].1
                        == l.negated by {
                    assert(clause_sat(a_before, cs[j]@));
                    let m = choose|m: int|
                        0 <= m < cs[j]@.len() && lit_true(a_before, #[trigger] cs[j]@[m]);
                    assert(!lit_true(a_new, cs[j]@[m]));
                    assert(cs[j]@[m].id == l.id);
                    assert(cs[j]@[m] == l);
                    assert(has_entry(self.clause_indices@[l.id as int]@, j, l.negated));
                }
            }
            let num_entries = self.clause_indices[l.id].len();
            let mut k2: usize = 0;
            while k2 < num_entries
                invariant
                    k2 <= num_entries,
                    num_entries == entries.len(),
                    entries == self.clause_indices@[l.id as int]@,
                    (l.id as int) < n,
                    cs == self.clauses@,
                    n == self.num_vars(),
                    self.assignment@ == a_new,
                    a_new.len() == n,
                    self.clauses == old(self).clauses,
                    self.clause_indices == old(self).clause_indices,
                    self.assign_history@ == old(self).assign_history@.drop_last(),
                    self.next_literal_id == lit.id,
                    self.unsolvable == false,
                    self.satisfied@.len() == cs.len(),
                    self.index_sound(),
                    self.index_complete(),
                    self.clause_indices@.len() == n,
                    forall|j: int| 0 <= j < cs.len() ==> clause_in_bounds((#[trigger] cs[j])@, n),
                    forall|j: int|
                        0 <= j < cs.len() && !self.satisfied@[j] ==> !clause_sat(
                            a_new,
                            (#[trigger] cs[j])@,
                        ),
                    forall|j: int|
                        0 <= j < cs.len() && self.satisfied@[j] && !clause_sat(
                            a_new,
                            (#[trigger] cs[j])@,
                        ) ==> exists|k3: int|
                            k2 <= k3 < entries.len() && (#[trigger] entries[k3]).0 == j
                                && entries[k3].1 == l.negated,
                    self.remaining_clauses == count_false(self.satisfied@),
                decreases num_entries - k2,
            {
                let entry = self.clause_indices[l.id][k2];
                let clause_idx = entry.0;
                let negated = entry.1;
                proof {
                    assert(entry_ok_for(cs, self.clause_indices@, l.id as int, k2 as int));
                }
                if negated == l.negated {
                    if self.satisfied[clause_idx] {
                        if !self.clauses[clause_idx].solved(&self.assignment) {
                            let num_clauses = self.satisfied.len();
                            proof {
                                lemma_count_false_update(self.satisfied@, clause_idx as int, false);
                                lemma_count_false_bound(
                                    self.satisfied@.update(clause_idx as int, false),
                                );
                            }
                            self.satisfied[clause_idx] = false;
                            self.remaining_clauses += 1;
                        }
                    }
                }
                k2 += 1;
            }
            proof {
                assert forall|i: int|
                    0 <= i < n implies #[trigger] self.assignment@[i] == (if exists|k: int|
                    t <= k < g.len() && (#[trigger] g[k]).id == i {
                    None::<bool>
                } else {
                    a_pre[i]
                }) by {
                    if i == l.id as int {
                        assert(t <= t < g.len() && g[t as int].id == i);
                    } else {
                        if exists|k: int| t <= k < g.len() && (#[trigger] g[k]).id == i {
                            let k = choose|k: int| t <= k < g.len() && (#[trigger] g[k]).id == i;
                            assert(k != t);
                            assert(t + 1 <= k < g.len() && g[k].id == i);
                        }
                    }
                }
            }
        }
        proof {
            assert forall|i: int|
                0 <= i < a_pre.len() implies #[trigger] self.assignment@[i] == (if group_has_id(
                g,
                i,
            ) {
                None::<bool>
            } else {
                a_pre[i]
            }) by {}
            assert forall|i: int| 0 <= i < lit.id implies (#[trigger] self.assignment@[i]) is Some by {
                if group_has_id(g, i) {
                    let k = choose|k: int| 0 <= k < g.len() && (#[trigger] g[k]).id == i;
                }
            }
        }
    }
}

} // verus!

verus! {

/// Every clause of the sequence is satisfied under `a`.
pub open spec fn formula_sat(a: Seq<Option<bool>>, clauses: Seq<Clause>) -> bool {
    forall|j: int| 0 <= j < clauses.len() ==> clause_sat(a, (#[trigger] clauses[j])@)
}

/// Every variable is assigned.
pub open spec fn total_assignment(b: Seq<Option<bool>>) -> bool {
    forall|i: int| 0 <= i < b.len() ==> (#[trigger] b[i]) is Some
}

/// `b` agrees with `a` wherever `a` is assigned.
pub open spec fn extends(b: Seq<Option<bool>>, a: Seq<Option<bool>>) -> bool {
    &&& b.len() == a.len()
    &&& forall|i: int| 0 <= i < a.len() && (#[trigger] a[i]) is Some ==> b[i] == a[i]
}

/// Idempotent restore: assigning a decision literal and then un-assigning it
/// restores the assignment, the satisfied flags, the remaining-clause count,
/// the contradiction flag and the undo log to their exact pre-call values.
pub proof fn lemma_assign_then_un_assign_restores(
    pre: Formula,
    mid: Formula,
    post: Formula,
    lit: Literal,
)
    requires
        pre.core_ok(),
        mid.core_ok(),
        post.core_ok(),
        Formula::assign_step(pre, mid, lit),
        Formula::unassign_step(mid, post, lit),
    ensures
        post.assignment@ == pre.assignment@,
        post.satisfied@ == pre.satisfied@,
        post.remaining_clauses == pre.remaining_clauses,
        post.unsolvable == pre.unsolvable,
        post.assign_history@ == pre.assign_history@,
        post.clauses == pre.clauses,
        post.clause_indices == pre.clause_indices,
{
    let g = mid.assign_history@.last()@;
    let a0 = pre.assignment@;
    let n = a0.len() as int;
    lemma_apply_lits_len(a0, g, g.len() as int);
    assert forall|i: int| 0 <= i < n implies post.assignment@[i] == a0[i] by {
        if group_has_id(g, i) {
            let k = choose|k: int| 0 <= k < g.len() && (#[trigger] g[k]).id == i;
            assert(a0[i] is None);
            assert(post.assignment@[i] is None);
        } else {
            assert(forall|x: int| 0 <= x < g.len() ==> (#[trigger] g[x]).id != i);
            lemma_apply_lits_untouched(a0, g, g.len() as int, i);
        }
    }
    assert(post.assignment@ =~= pre.assignment@);
    assert forall|j: int|
        0 <= j < post.satisfied@.len() implies post.satisfied@[j] == pre.satisfied@[j] by {
        assert(post.satisfied@[j] <==> clause_sat(post.assignment@, post.clauses@[j]@));
        assert(pre.satisfied@[j] <==> clause_sat(pre.assignment@, pre.clauses@[j]@));
    }
    assert(post.satisfied@ =~= pre.satisfied@);
}

/// Unit propagation preserves models: a total satisfying assignment that
/// agrees with a partial assignment and with the decision literal also
/// agrees with every literal the decision forced, so it agrees with the
/// whole undo group that `assign` produced.
pub proof fn lemma_model_extends_group(pre: Formula, mid: Formula, lit: Literal, b: Seq<
    Option<bool>,
>)
    requires
        Formula::assign_step(pre, mid, lit),
        extends(b, pre.assignment@),
        (lit.id as int) < pre.assignment@.len(),
        b[lit.id as int] == Some(lit.negated),
        formula_sat(b, pre.clauses@),
    ensures
        extends(b, mid.assignment@),
{
    let g = mid.assign_history@.last()@;
    lemma_model_extends_prefix(pre.clauses@, pre.assignment@, g, b, g.len() as int, lit);
}

proof fn lemma_model_extends_prefix(
    clauses: Seq<Clause>,
    a0: Seq<Option<bool>>,
    g: Seq<Literal>,
    b: Seq<Option<bool>>,
    k: int,
    lit: Literal,
)
    requires
        0 <= k <= g.len(),
        g.len() >= 1,
        g[0] == lit,
        forall|x: int|
            0 <= x < g.len() ==> (#[trigger] g[x]).id < a0.len() && a0[g[x].id as int] is None,
        forall|x: int|
            1 <= x < g.len() ==> lit_forced(clauses, apply_lits(a0, g, x), #[trigger] g[x]),
        extends(b, a0),
        b[lit.id as int] == Some(lit.negated),
        formula_sat(b, clauses),
    ensures
        extends(b, apply_lits(a0, g, k)),
    decreases k,
{
    if k > 0 {
        lemma_model_extends_prefix(clauses, a0, g, b, k - 1, lit);
        let ak1 = apply_lits(a0, g, k - 1);
        let ak = apply_lits(a0, g, k);
        lemma_apply_lits_len(a0, g, k - 1);
        lemma_apply_lits_len(a0, g, k);
        if k - 1 == 0 {
            assert(b[g[0].id as int] == Some(g[0].negated));
        } else {
            let (j, m) = choose|j: int, m: int|
                0 <= j < clauses.len() && 0 <= m < clauses[j]@.len() && #[trigger] clauses[j]@[m]
                    == g[k - 1] && (forall|m2: int|
                    0 <= m2 < clauses[j]@.len() && m2 != m ==> lit_false(
                        ak1,
                        #[trigger] clauses[j]@[m2],
                    ));
            assert(clause_sat(b, clauses[j]@));
            let mw = choose|mw: int|
                0 <= mw < clauses[j]@.len() && lit_true(b, #[trigger] clauses[j]@[mw]);
            if mw != m {
                assert(lit_false(ak1, clauses[j]@[mw]));
                assert(b[clauses[j]@[mw].id as int] == ak1[clauses[j]@[mw].id as int]);
                assert(lit_false(b, clauses[j]@[mw]));
                assert(false);
            }
            assert(lit_true(b, clauses[j]@[m]));
            assert(b[g[k - 1].id as int] == Some(g[k - 1].negated));
        }
        assert forall|i: int| 0 <= i < ak.len() && (#[trigger] ak[i]) is Some implies b[i]
            == ak[i] by {
            if i != g[k - 1].id as int {
                assert(ak[i] == ak1[i]);
            }
        }
    }
}

} // verus!

verus! {

pub proof fn lemma_count_false_all(s: Seq<bool>)
    requires
        forall|j: int| 0 <= j < s.len() ==> !(#[trigger] s[j]),
    ensures
        count_false(s) == s.len(),
    decreases s.len(),
{
    if s.len() > 0 {
        assert(forall|j: int| 0 <= j < s.len() - 1 ==> s.drop_last()[j] == s[j]);
        lemma_count_false_all(s.drop_last());
    }
}

impl Formula {
    /// The state a formula is in while the builder is appending clauses:
    /// nothing assigned yet, every flag clear, the remaining count equal to
    /// the number of clauses, the contradiction flag set exactly when an
    /// empty clause was appended, and the reverse index exact.
    pub open spec fn building(self) -> bool {
        &&& self.clause_indices@.len() == self.num_vars()
        &&& self.satisfied@.len() == self.clauses@.len()
        &&& (forall|j: int|
            0 <= j < self.clauses@.len() ==> clause_in_bounds(
                (#[trigger] self.clauses@[j])@,
                self.num_vars(),
            ))
        &&& (forall|j: int| 0 <= j < self.satisfied@.len() ==> !(#[trigger] self.satisfied@[j]))
        &&& self.remaining_clauses == self.clauses@.len()
        &&& (forall|i: int| 0 <= i < self.num_vars() ==> (#[trigger] self.assignment@[i]) is None)
        &&& (self.unsolvable <==> exists|j: int|
            0 <= j < self.clauses@.len() && (#[trigger] self.clauses@[j])@.len() == 0)
        &&& self.index_sound()
        &&& self.index_complete()
        &&& self.assign_history@.len() == 0
        &&& self.next_literal_id == 0
    }
}

/// A freshly built formula is well-formed and, while its contradiction flag
/// is clear, free of violated clauses: under the empty assignment only an
/// empty clause is violated.
pub proof fn lemma_building_wf(f: Formula)
    requires
        f.building(),
    ensures
        f.wf(),
        !f.unsolvable ==> f.no_violated(),
{
    assert forall|j: int| 0 <= j < f.clauses@.len() implies !clause_sat(
        f.assignment@,
        (#[trigger] f.clauses@[j])@,
    ) by {
        if clause_sat(f.assignment@, f.clauses@[j]@) {
            let m = choose|m: int|
                0 <= m < f.clauses@[j]@.len() && lit_true(f.assignment@, #[trigger] f.clauses@[j]@[m]);
            assert(f.assignment@[f.clauses@[j]@[m].id as int] is None);
        }
    }
    lemma_count_false_all(f.satisfied@);
    if f.unsolvable {
        let j = choose|j: int|
            0 <= j < f.clauses@.len() && (#[trigger] f.clauses@[j])@.len() == 0;
        assert(clause_violated(f.assignment@, f.clauses@[j]@));
    }
    if !f.unsolvable {
        assert forall|j: int| 0 <= j < f.clauses@.len() implies !clause_violated(
            f.assignment@,
            (#[trigger] f.clauses@[j])@,
        ) by {
            assert(f.clauses@[j]@.len() != 0);
            if clause_violated(f.assignment@, f.clauses@[j]@) {
                assert(lit_false(f.assignment@, f.clauses@[j]@[0]));
                assert(f.assignment@[f.clauses@[j]@[0].id as int] is None);
            }
        }
    }
}

} // verus!

verus! {

/// A partial assignment that satisfies every clause extends to a total one
/// that still does: each remaining variable can be set arbitrarily, here to
/// false. So a solver that returns a partial satisfying assignment has
/// shown the formula satisfiable.
pub proof fn lemma_model_completion(a: Seq<Option<bool>>, clauses: Seq<Clause>)
    requires
        formula_sat(a, clauses),
    ensures
        ({
            let b = Seq::new(a.len(), |i: int| if a[i] is Some {
                a[i]
            } else {
                Some(false)
            });
            &&& total_assignment(b)
            &&& extends(b, a)
            &&& formula_sat(b, clauses)
        }),
{
    let b = Seq::new(a.len(), |i: int| if a[i] is Some {
        a[i]
    } else {
        Some(false)
    });
    assert forall|j: int| 0 <= j < clauses.len() implies clause_sat(
        b,
        (#[trigger] clauses[j])@,
    ) by {
        lemma_sat_monotone(a, b, clauses[j]@);
    }
}

} // verus!

verus! {

/// Walks the retained clauses of a formula that are not currently marked
/// satisfied.
pub struct FormulaIter<'a> {
    pub formula: &'a Formula,
    pub pos: usize,
}

impl<'a> FormulaIter<'a> {
    /// The next clause not marked satisfied at or past the cursor, if any.
    pub fn next(&mut self) -> (r: Option<&'a Clause>)
        requires
            old(self).formula.satisfied@.len() == old(self).formula.clauses@.len(),
        ensures
            final(self).formula == old(self).formula,
            match r {
                Some(c) => {
                    &&& old(self).pos < old(self).formula.clauses@.len()
                    &&& exists|j: int|
                        old(self).pos <= j < old(self).formula.clauses@.len()
                            && *c == (#[trigger] old(self).formula.clauses@[j])
                            && !old(self).formula.satisfied@[j] && final(self).pos == j + 1
                            && (forall|k: int|
                            old(self).pos <= k < j ==> (#[trigger] old(
                                self,
                            ).formula.satisfied@[k]))
                },
                None => forall|k: int|
                    old(self).pos <= k < old(self).formula.clauses@.len() ==> (#[trigger] old(
                        self,
                    ).formula.satisfied@[k]),
            },
    {
        while self.pos < self.formula.clauses.len()
            invariant
                self.formula == old(self).formula,
                self.formula.satisfied@.len() == self.formula.clauses@.len(),
                old(self).pos <= self.pos,
                forall|k: int|
                    old(self).pos <= k < self.pos ==> (#[trigger] self.formula.satisfied@[k]),
            decreases self.formula.clauses@.len() - self.pos,
        {
            let j = self.pos;
            self.pos += 1;
            if !self.formula.satisfied[j] {
                return Some(&self.formula.clauses[j]);
            }
        }
        None
    }
}

/// Walks the live (not falsified) literals of one clause under an
/// assignment.
pub struct ClauseIter<'a> {
    pub clause: &'a Clause,
    pub assignment: &'a Assignment,
    pub pos: usize,
}

impl<'a> ClauseIter<'a> {
    /// The next live literal at or past the cursor, if any.
    pub fn next(&mut self) -> (r: Option<Literal>)
        requires
            clause_in_bounds(old(self).clause@, old(self).assignment@.len() as int),
        ensures
            final(self).clause == old(self).clause,
            final(self).assignment == old(self).assignment,
            match r {
                Some(l) => exists|j: int|
                    old(self).pos <= j < old(self).clause@.len() && l == (#[trigger] old(
                        self,
                    ).clause@[j]) && lit_live(old(self).assignment@, l) && final(self).pos == j + 1
                        && (forall|k: int|
                        old(self).pos <= k < j ==> lit_false(
                            old(self).assignment@,
                            #[trigger] old(self).clause@[k],
                        )),
                None => forall|k: int|
                    old(self).pos <= k < old(self).clause@.len() ==> lit_false(
                        old(self).assignment@,
                        #[trigger] old(self).clause@[k],
                    ),
            },
    {
        while self.pos < self.clause.lits.len()
            invariant
                self.clause == old(self).clause,
                self.assignment == old(self).assignment,
                clause_in_bounds(self.clause@, self.assignment@.len() as int),
                old(self).pos <= self.pos,
                forall|k: int|
                    old(self).pos <= k < self.pos ==> lit_false(
                        self.assignment@,
                        #[trigger] self.clause@[k],
                    ),
            decreases self.clause@.len() - self.pos,
        {
            let j = self.pos;
            self.pos += 1;
            let l = self.clause.lits[j];
            if !self.assignment.falsified(l) {
                return Some(l);
            }
        }
        None
    }
}

impl Formula {
    /// Iterates over the clauses not currently marked satisfied.
    pub fn iter(&self) -> (r: FormulaIter<'_>)
        ensures
            r.formula == self,
            r.pos == 0,
    {
        FormulaIter { formula: self, pos: 0 }
    }
}

impl Clause {
    /// Iterates over the literals of this clause still live under the
    /// assignment.
    pub fn iter<'a>(&'a self, assignment: &'a Assignment) -> (r: ClauseIter<'a>)
        ensures
            r.clause == self,
            r.assignment == assignment,
            r.pos == 0,
    {
        ClauseIter { clause: self, assignment, pos: 0 }
    }
}

} // verus!

verus! {

/// The completion of a partial assignment: every unassigned variable gets
/// the positive polarity.
pub open spec fn complete_pos(a: Seq<Option<bool>>) -> Seq<Option<bool>> {
    Seq::new(a.len(), |i: int| if a[i] is Some {
        a[i]
    } else {
        Some(false)
    })
}

/// The search order of §4.5 as an order on total assignments: `a` comes no
/// later than `b` when they are equal, or when at the lowest variable where
/// they differ `a` holds the variable true (`Some(false)`) and `b` holds it
/// false.
pub open spec fn lex_le(a: Seq<Option<bool>>, b: Seq<Option<bool>>) -> bool {
    a == b || exists|i: int|
        0 <= i < a.len() && a[i] == Some(false) && b[i] == Some(true) && (forall|j: int|
            0 <= j < i ==> a[j] == b[j])
}

/// Two unequal tables of equal length have a lowest position where they
/// differ.
proof fn lemma_first_diff(x: Seq<Option<bool>>, y: Seq<Option<bool>>, d: int)
    requires
        x.len() == y.len(),
        0 <= d < x.len(),
        x[d] != y[d],
    ensures
        exists|i: int|
            0 <= i < x.len() && #[trigger] x[i] != y[i] && (forall|j: int|
                0 <= j < i ==> x[j] == y[j]),
    decreases d,
{
    if exists|j: int| 0 <= j < d && #[trigger] x[j] != y[j] {
        let j = choose|j: int| 0 <= j < d && #[trigger] x[j] != y[j];
        lemma_first_diff(x, y, j);
    } else {
        assert(0 <= d < x.len() && x[d] != y[d] && (forall|j: int| 0 <= j < d ==> x[j] == y[j]));
    }
}

/// Among the total assignments extending a partial one, its positive
/// completion comes first in the search order.
pub proof fn lemma_lex_completion(a: Seq<Option<bool>>, b: Seq<Option<bool>>)
    requires
        b.len() == a.len(),
        total_assignment(b),
        extends(b, a),
    ensures
        lex_le(complete_pos(a), b),
{
    let c = complete_pos(a);
    if c != b {
        if forall|i: int| 0 <= i < c.len() ==> #[trigger] c[i] == b[i] {
            assert(c =~= b);
        }
        let d = choose|i: int| 0 <= i < c.len() && #[trigger] c[i] != b[i];
        lemma_first_diff(c, b, d);
        let i = choose|i: int|
            0 <= i < c.len() && #[trigger] c[i] != b[i] && (forall|j: int|
                0 <= j < i ==> c[j] == b[j]);
        assert(a[i] is None);
        assert(c[i] == Some(false));
        match b[i] {
            Some(x) => {
                assert(b[i] == Some(true));
            },
            None => {
                assert(false);
            },
        }
    }
}

} // verus!
