//! Conflict analysis as a function of the state: which clause is learned
//! from a falsified clause, literal by literal.

use crate::db::swapped;
use crate::explain::antecedent_lits;
use crate::lit::Lit;
use crate::state::State;
use vstd::prelude::*;

verus! {

/// The analyzer's scratch space during an analysis: the mark of each
/// variable, the number of marked variables of the present level that are
/// still to be resolved, and the literals learned so far.
pub struct Marks {
    pub seen: Seq<bool>,
    pub count: int,
    pub learnt: Seq<Lit>,
}

impl State {
    /// The marks after the literals of `clause` from position `from` on have
    /// been taken in, one after the other: a literal of an unmarked variable
    /// that was assigned above level 0 is marked; it is counted where it
    /// belongs to the present level and joins the learned literals where it
    /// does not.
    pub open spec fn absorb(self, marks: Marks, clause: Seq<Lit>, from: int) -> Marks
        decreases clause.len() - from,
    {
        if from < 0 || from >= clause.len() {
            marks
        } else {
            let v = clause[from].var();
            let next = if marks.seen[v] || self.graph[v].level == 0 {
                marks
            } else if self.graph[v].level == self.starts.len() {
                Marks { seen: marks.seen.update(v, true), count: marks.count + 1, ..marks }
            } else {
                Marks {
                    seen: marks.seen.update(v, true),
                    learnt: marks.learnt.push(clause[from]),
                    ..marks
                }
            };
            self.absorb(next, clause, from + 1)
        }
    }

    /// The clause that the way back along the trail from position `bound`
    /// ends with. An unmarked literal is passed over. A marked one loses its
    /// mark: where it is the last one counted, its negation takes the first
    /// place of the learned literals, and the literal that stood there the
    /// last place; else the other literals of its reason are taken in.
    pub open spec fn resolve_back(self, marks: Marks, bound: int) -> Seq<Lit>
        decreases bound,
    {
        if bound <= 0 {
            marks.learnt
        } else {
            let lit = self.trail[bound - 1];
            if !marks.seen[lit.var()] {
                self.resolve_back(marks, bound - 1)
            } else if marks.count == 1 {
                swapped(marks.learnt.push(lit.neg()), 0, marks.learnt.len() as int)
            } else {
                self.resolve_back(
                    self.absorb(
                        Marks {
                            seen: marks.seen.update(lit.var(), false),
                            count: marks.count - 1,
                            ..marks
                        },
                        antecedent_lits(self, self.graph[lit.var()].reason),
                        0,
                    ),
                    bound - 1,
                )
            }
        }
    }

    /// `learnt` with a literal of the highest level among those from the
    /// second on in the second place: from position `k` on, each literal of a
    /// higher level than the second changes places with it.
    pub open spec fn raised(self, learnt: Seq<Lit>, k: int) -> Seq<Lit>
        decreases learnt.len() - k,
    {
        if k < 2 || k >= learnt.len() {
            learnt
        } else if self.lv(learnt[k]) > self.lv(learnt[1]) {
            self.raised(swapped(learnt, 1, k), k + 1)
        } else {
            self.raised(learnt, k + 1)
        }
    }

    /// The clause learned from the falsified clause `lits`: the literals of
    /// `lits` are taken in, the trail is resolved back from its end to the
    /// first literal of the present level that alone is left marked, and the
    /// second place is given to a literal of the highest level among the
    /// rest.
    pub open spec fn learned(self, lits: Seq<Lit>) -> Seq<Lit> {
        self.raised(
            self.resolve_back(
                self.absorb(
                    Marks { seen: self.seen, count: 0, learnt: Seq::empty() },
                    lits,
                    0,
                ),
                self.trail.len() as int,
            ),
            2,
        )
    }

    /// The level to go back to with the learned clause `learnt`: that of its
    /// second literal, and 0 where it has one literal or none.
    pub open spec fn back_level(self, learnt: Seq<Lit>) -> int {
        if learnt.len() >= 2 {
            self.lv(learnt[1])
        } else {
            0
        }
    }
}

} // verus!
