//! The DPLL search driver: depth-first backtracking over variable
//! assignments, with unit propagation performed by `Formula::assign`.

use vstd::prelude::*;

use crate::formula::{
    clause_sat, clause_violated, count_unassigned, extends, formula_sat, lemma_apply_lits_hit,
    lemma_apply_lits_len, lemma_apply_lits_untouched, lemma_assign_then_un_assign_restores,
    complete_pos, lemma_count_false_zero, lemma_count_unassigned_strict, lemma_lex_completion,
    lemma_model_completion, lemma_model_extends_group, lemma_violated_monotone, lex_le, lit_false,
    lit_true, total_assignment, Assignment, Formula, Literal,
};

verus! {

impl Formula {
    /// Whether every clause is currently marked satisfied: the search
    /// succeeds exactly when the remaining count reaches zero.
    pub fn solved(&self) -> (r: bool)
        requires
            self.core_ok(),
        ensures
            r == (self.remaining_clauses == 0),
            r ==> formula_sat(self.assignment@, self.clauses@),
    {
        proof {
            lemma_count_false_zero(self.satisfied@);
            if self.remaining_clauses == 0 {
                assert forall|j: int| 0 <= j < self.clauses@.len() implies clause_sat(
                    self.assignment@,
                    (#[trigger] self.clauses@[j])@,
                ) by {
                    assert(self.satisfied@[j]);
                }
            }
        }
        self.remaining_clauses == 0
    }

    /// Whether the contradiction flag is set: some clause ran out of live
    /// literals under the current assignment.
    pub fn unsolvable(&self) -> (r: bool)
        requires
            self.core_ok(),
        ensures
            r == self.unsolvable,
            r ==> exists|j: int|
                0 <= j < self.clauses@.len() && clause_violated(
                    self.assignment@,
                    (#[trigger] self.clauses@[j])@,
                ),
    {
        self.unsolvable
    }

    /// The lowest unassigned variable id at or past the search cursor,
    /// held positively. Exists whenever the node is still undecided.
    fn next_un_assigned(&self) -> (l: Literal)
        requires
            self.wf(),
            exists|i: int|
                self.next_literal_id <= i < self.num_vars() && (#[trigger] self.assignment@[i])
                    is None,
        ensures
            l.negated == false,
            (l.id as int) < self.num_vars(),
            self.assignment@[l.id as int] is None,
            self.next_literal_id <= l.id,
            forall|i: int| 0 <= i < l.id ==> (#[trigger] self.assignment@[i]) is Some,
    {
        let ghost iw = choose|i: int|
            self.next_literal_id <= i < self.num_vars() && (#[trigger] self.assignment@[i])
                is None;
        let num_vars = self.assignment.values.len();
        let mut id = self.next_literal_id;
        while self.assignment.id_assigned(id)
            invariant
                self.wf(),
                num_vars == self.num_vars(),
                self.next_literal_id <= id <= iw,
                iw < self.num_vars(),
                self.assignment@[iw] is None,
                forall|i: int| 0 <= i < id ==> (#[trigger] self.assignment@[i]) is Some,
            decreases iw - id,
        {
            proof {
                assert(id < iw);
            }
            id += 1;
        }
        Literal { id, negated: false }
    }

    /// The DPLL search over the current node. Returns true exactly when the
    /// node can be completed to a satisfying assignment; on success the
    /// formula is left with every clause satisfied, and on failure the node
    /// state (assignment, flags, counts, undo log) is restored exactly.
    fn dpll(&mut self) -> (r: bool)
        requires
            old(self).wf(),
            !old(self).unsolvable ==> old(self).no_violated(),
        ensures
            final(self).wf(),
            final(self).clauses == old(self).clauses,
            final(self).clause_indices == old(self).clause_indices,
            final(self).num_vars() == old(self).num_vars(),
            r ==> final(self).remaining_clauses == 0 && formula_sat(
                final(self).assignment@,
                final(self).clauses@,
            ) && extends(final(self).assignment@, old(self).assignment@),
            // the node is completed in the fixed order of the search:
            // lowest id first, positive polarity first
            r ==> (forall|b: Seq<Option<bool>>|
                #[trigger] total_assignment(b) && extends(b, old(self).assignment@)
                    && formula_sat(b, old(self).clauses@) ==> lex_le(
                    complete_pos(final(self).assignment@),
                    b,
                )),
            !r ==> final(self).assignment@ == old(self).assignment@ && final(self).satisfied@
                == old(self).satisfied@ && final(self).remaining_clauses
                == old(self).remaining_clauses && final(self).unsolvable == old(self).unsolvable
                && final(self).assign_history@ == old(self).assign_history@,
            !r ==> (forall|b: Seq<Option<bool>>|
                #[trigger] total_assignment(b) && extends(b, old(self).assignment@)
                    ==> !formula_sat(b, old(self).clauses@)),
        decreases count_unassigned(old(self).assignment@),
    {
        if self.solved() {
            proof {
                assert forall|b: Seq<Option<bool>>|
                    #[trigger] total_assignment(b) && extends(b, self.assignment@) && formula_sat(
                        b,
                        self.clauses@,
                    ) implies lex_le(complete_pos(self.assignment@), b) by {
                    lemma_lex_completion(self.assignment@, b);
                }
            }
            return true;
        }
        if self.unsolvable() {
            proof {
                assert forall|b: Seq<Option<bool>>|
                    #[trigger] total_assignment(b) && extends(b, old(self).assignment@) implies
                    !formula_sat(b, old(self).clauses@) by {
                    let j = choose|j: int|
                        0 <= j < self.clauses@.len() && clause_violated(
                            self.assignment@,
                            (#[trigger] self.clauses@[j])@,
                        );
                    lemma_violated_monotone(self.assignment@, b, self.clauses@[j]@);
                    if clause_sat(b, self.clauses@[j]@) {
                        let m = choose|m: int|
                            0 <= m < self.clauses@[j]@.len() && lit_true(
                                b,
                                #[trigger] self.clauses@[j]@[m],
                            );
                        assert(lit_false(b, self.clauses@[j]@[m]));
                    }
                }
            }
            return false;
        }
        proof {
            // an unsatisfied clause exists and is not violated, so it has a
            // live literal, which can only be unassigned and past the cursor
            lemma_count_false_zero(self.satisfied@);
            let j = choose|j: int| 0 <= j < self.satisfied@.len() && !(#[trigger] self.satisfied@[j]);
            assert(!clause_sat(self.assignment@, self.clauses@[j]@));
            assert(!clause_violated(self.assignment@, self.clauses@[j]@));
            let m = choose|m: int|
                0 <= m < self.clauses@[j]@.len() && !lit_false(
                    self.assignment@,
                    #[trigger] self.clauses@[j]@[m],
                );
            let lm = self.clauses@[j]@[m];
            assert(!lit_true(self.assignment@, self.clauses@[j]@[m]));
            match self.assignment@[lm.id as int] {
                Some(x) => {
                    assert(false);
                },
                None => {},
            }
            if lm.id < self.next_literal_id {
                assert(self.assignment@[lm.id as int] is Some);
            }
            assert(self.next_literal_id <= lm.id && (lm.id as int) < self.num_vars()
                && self.assignment@[lm.id as int] is None);
        }
        let next = self.next_un_assigned();
        // try the positive polarity first
        self.assign(next);
        let ghost st1 = *self;
        proof {
            // at least the decision variable was newly assigned, so the
            // recursion terminates
            let g = st1.assign_history@.last()@;
            assert forall|i: int|
                0 <= i < old(self).assignment@.len() && (#[trigger] old(self).assignment@[i])
                    is Some implies st1.assignment@[i] is Some by {
                assert(forall|x: int| 0 <= x < g.len() ==> (#[trigger] g[x]).id != i);
                lemma_apply_lits_untouched(old(self).assignment@, g, g.len() as int, i);
            }
            lemma_apply_lits_hit(old(self).assignment@, g, g.len() as int, 0);
            lemma_apply_lits_len(old(self).assignment@, g, g.len() as int);
            lemma_count_unassigned_strict(old(self).assignment@, st1.assignment@, next.id as int);
        }
        if self.dpll() {
            proof {
                let g = st1.assign_history@.last()@;
                assert forall|i: int|
                    0 <= i < old(self).assignment@.len() && (#[trigger] old(self).assignment@[i])
                        is Some implies self.assignment@[i] == old(self).assignment@[i] by {
                    assert(forall|x: int| 0 <= x < g.len() ==> (#[trigger] g[x]).id != i);
                    lemma_apply_lits_untouched(old(self).assignment@, g, g.len() as int, i);
                    assert(st1.assignment@[i] == old(self).assignment@[i]);
                }
                assert forall|b: Seq<Option<bool>>|
                    #[trigger] total_assignment(b) && extends(b, old(self).assignment@)
                        && formula_sat(b, old(self).clauses@) implies lex_le(
                    complete_pos(self.assignment@),
                    b,
                ) by {
                    assert(b[next.id as int] is Some);
                    if b[next.id as int] == Some(next.negated) {
                        lemma_model_extends_group(*old(self), st1, next, b);
                        assert(extends(b, st1.assignment@));
                    } else {
                        // b decides the variable negatively; the result
                        // already holds it positively, and everything below
                        // was fixed before the decision
                        assert(b[next.id as int] == Some(true));
                        assert(st1.assignment@[next.id as int] == Some(false));
                        assert(self.assignment@[next.id as int] == Some(false));
                        assert(complete_pos(self.assignment@)[next.id as int] == Some(false));
                        assert forall|j: int|
                            0 <= j < next.id implies complete_pos(self.assignment@)[j] == b[j] by {
                            assert(old(self).assignment@[j] is Some);
                            assert(self.assignment@[j] == old(self).assignment@[j]);
                        }
                        assert(0 <= next.id < complete_pos(self.assignment@).len()
                            && complete_pos(self.assignment@)[next.id as int] == Some(false)
                            && b[next.id as int] == Some(true) && (forall|j: int|
                            0 <= j < next.id ==> complete_pos(self.assignment@)[j] == b[j]));
                    }
                }
            }
            return true;
        }
        proof {
            let g = st1.assign_history@.last()@;
            assert(self.assign_history@.last()@ == g);
            assert forall|i: int| 0 <= i < next.id implies (#[trigger] self.assignment@[i])
                is Some by {
                assert(old(self).assignment@[i] is Some);
                assert(forall|x: int| 0 <= x < g.len() ==> (#[trigger] g[x]).id != i);
                lemma_apply_lits_untouched(old(self).assignment@, g, g.len() as int, i);
            }
            assert forall|k: int| 0 <= k < g.len() implies {
                let l = #[trigger] g[k];
                &&& (l.id as int) < self.num_vars()
                &&& next.id <= l.id
                &&& self.assignment@[l.id as int] == Some(l.negated)
            } by {
                lemma_apply_lits_hit(old(self).assignment@, g, g.len() as int, k);
                if g[k].id < next.id {
                    assert(old(self).assignment@[g[k].id as int] is Some);
                }
            }
        }
        // the positive branch failed: undo it and try the negative one
        self.un_assign(next);
        let ghost st3 = *self;
        proof {
            assert(Formula::unassign_step(st1, st3, next));
            lemma_assign_then_un_assign_restores(*old(self), st1, st3, next);
            assert(st3.assignment@ == old(self).assignment@);
            assert(st3.no_violated()) by {
                assert(old(self).no_violated());
            }
        }
        let neg = next.not();
        self.assign(neg);
        let ghost st4 = *self;
        proof {
            let g2 = st4.assign_history@.last()@;
            assert forall|i: int|
                0 <= i < st3.assignment@.len() && (#[trigger] st3.assignment@[i])
                    is Some implies st4.assignment@[i] is Some by {
                assert(forall|x: int| 0 <= x < g2.len() ==> (#[trigger] g2[x]).id != i);
                lemma_apply_lits_untouched(st3.assignment@, g2, g2.len() as int, i);
            }
            lemma_apply_lits_hit(st3.assignment@, g2, g2.len() as int, 0);
            lemma_apply_lits_len(st3.assignment@, g2, g2.len() as int);
            lemma_count_unassigned_strict(st3.assignment@, st4.assignment@, neg.id as int);
        }
        let result = self.dpll();
        if !result {
            proof {
                let g2 = st4.assign_history@.last()@;
                assert(self.assign_history@.last()@ == g2);
                assert forall|i: int| 0 <= i < neg.id implies (#[trigger] self.assignment@[i])
                    is Some by {
                    assert(st3.assignment@[i] is Some);
                    assert(forall|x: int| 0 <= x < g2.len() ==> (#[trigger] g2[x]).id != i);
                    lemma_apply_lits_untouched(st3.assignment@, g2, g2.len() as int, i);
                }
                assert forall|k: int| 0 <= k < g2.len() implies {
                    let l = #[trigger] g2[k];
                    &&& (l.id as int) < self.num_vars()
                    &&& neg.id <= l.id
                    &&& self.assignment@[l.id as int] == Some(l.negated)
                } by {
                    lemma_apply_lits_hit(st3.assignment@, g2, g2.len() as int, k);
                    if g2[k].id < neg.id {
                        assert(st3.assignment@[g2[k].id as int] is Some);
                    }
                }
            }
            self.un_assign(neg);
            proof {
                assert(Formula::unassign_step(st4, *self, neg));
                lemma_assign_then_un_assign_restores(st3, st4, *self, neg);
                assert(self.assignment@ == old(self).assignment@);
                assert(self.satisfied@ == old(self).satisfied@);
                assert(self.assign_history@ == old(self).assign_history@);
                // completeness: a total model would have to take one of the
                // two polarities of the decision variable, and each leads to
                // a refuted branch
                assert forall|b: Seq<Option<bool>>|
                    #[trigger] total_assignment(b) && extends(b, old(self).assignment@) implies
                    !formula_sat(b, old(self).clauses@) by {
                    if formula_sat(b, old(self).clauses@) {
                        assert(b[next.id as int] is Some);
                        if b[next.id as int] == Some(next.negated) {
                            lemma_model_extends_group(*old(self), st1, next, b);
                            assert(extends(b, st1.assignment@));
                            assert(!formula_sat(b, st1.clauses@));
                        } else {
                            assert(b[next.id as int] == Some(neg.negated));
                            assert(extends(b, st3.assignment@));
                            assert(formula_sat(b, st3.clauses@));
                            lemma_model_extends_group(st3, st4, neg, b);
                            assert(extends(b, st4.assignment@));
                            assert(!formula_sat(b, st4.clauses@));
                        }
                        assert(false);
                    }
                }
            }
        } else {
            proof {
                let g2 = st4.assign_history@.last()@;
                assert forall|i: int|
                    0 <= i < old(self).assignment@.len() && (#[trigger] old(self).assignment@[i])
                        is Some implies self.assignment@[i] == old(self).assignment@[i] by {
                    assert(st3.assignment@[i] == old(self).assignment@[i]);
                    assert(st3.assignment@[i] is Some);
                    assert(forall|x: int| 0 <= x < g2.len() ==> (#[trigger] g2[x]).id != i);
                    lemma_apply_lits_untouched(st3.assignment@, g2, g2.len() as int, i);
                    assert(st4.assignment@[i] == st3.assignment@[i]);
                }
                assert forall|b: Seq<Option<bool>>|
                    #[trigger] total_assignment(b) && extends(b, old(self).assignment@)
                        && formula_sat(b, old(self).clauses@) implies lex_le(
                    complete_pos(self.assignment@),
                    b,
                ) by {
                    assert(b[next.id as int] is Some);
                    if b[next.id as int] == Some(next.negated) {
                        // the positive subtree was exhausted: no model
                        // holds this variable true
                        lemma_model_extends_group(*old(self), st1, next, b);
                        assert(extends(b, st1.assignment@));
                        assert(!formula_sat(b, st1.clauses@));
                        assert(false);
                    } else {
                        assert(b[next.id as int] == Some(neg.negated));
                        assert(extends(b, st3.assignment@));
                        assert(formula_sat(b, st3.clauses@));
                        lemma_model_extends_group(st3, st4, neg, b);
                        assert(extends(b, st4.assignment@));
                        assert(lex_le(complete_pos(self.assignment@), b));
                    }
                }
            }
        }
        result
    }

    /// Solves the formula: a complete satisfying assignment (one polarity
    /// per variable) on success, or None when no total assignment extending
    /// the current one satisfies every clause. Variables the search never
    /// had to touch come back with an arbitrary polarity.
    pub fn solve(self) -> (r: Option<Assignment>)
        requires
            self.wf(),
            !self.unsolvable ==> self.no_violated(),
        ensures
            match r {
                Some(assignment) => {
                    &&& assignment@.len() == self.num_vars()
                    &&& total_assignment(assignment@)
                    &&& extends(assignment@, self.assignment@)
                    &&& formula_sat(assignment@, self.clauses@)
                    // §4.5's fixed tie-break policy, as a contract: of all
                    // satisfying total assignments, the one first in the
                    // lowest-id, positive-first order comes back
                    &&& forall|b: Seq<Option<bool>>|
                        #[trigger] total_assignment(b) && extends(b, self.assignment@)
                            && formula_sat(b, self.clauses@) ==> lex_le(assignment@, b)
                },
                None => forall|b: Seq<Option<bool>>|
                    #[trigger] total_assignment(b) && extends(b, self.assignment@)
                        ==> !formula_sat(b, self.clauses@),
            },
    {
        let mut this = self;
        if this.dpll() {
            // one polarity per variable is owed: give each variable the
            // search never touched an arbitrary polarity, which keeps every
            // clause satisfied
            let ghost partial = this.assignment@;
            let ghost cs = this.clauses@;
            let num_vars = this.assignment.values.len();
            let mut id: usize = 0;
            while id < num_vars
                invariant
                    id <= num_vars,
                    num_vars == this.assignment@.len(),
                    num_vars == partial.len(),
                    this.clauses@ == cs,
                    forall|i: int|
                        0 <= i < id ==> #[trigger] this.assignment@[i] == (if partial[i] is Some {
                            partial[i]
                        } else {
                            Some(false)
                        }),
                    forall|i: int| id <= i < num_vars ==> this.assignment@[i] == partial[i],
                decreases num_vars - id,
            {
                if this.assignment.values[id].is_none() {
                    this.assignment.assign(Literal { id, negated: false });
                }
                id += 1;
            }
            proof {
                lemma_model_completion(partial, cs);
                let b = Seq::new(partial.len(), |i: int| if partial[i] is Some {
                    partial[i]
                } else {
                    Some(false)
                });
                assert(this.assignment@ =~= b);
                assert(this.assignment@ =~= complete_pos(partial));
                assert forall|i: int|
                    0 <= i < self.assignment@.len() && (#[trigger] self.assignment@[i])
                        is Some implies this.assignment@[i] == self.assignment@[i] by {
                    assert(partial[i] == self.assignment@[i]);
                }
            }
            Some(this.assignment)
        } else {
            None
        }
    }
}

} // verus!
