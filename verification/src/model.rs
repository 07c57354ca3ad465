//! What the stored clauses mean: the total assignments that make all of
//! them true, and what follows from them.

use crate::db::swapped;
use crate::graph::PropReason;
use crate::lit::Lit;
use crate::state::{is_false, is_true, State};
use vstd::prelude::*;

verus! {

/// `lit` is true under the total assignment `m`.
pub open spec fn holds(m: Seq<bool>, lit: Lit) -> bool {
    m[lit.var()] == lit.positive()
}

/// Some literal of `clause` is true under the total assignment `m`.
pub open spec fn clause_holds(m: Seq<bool>, clause: Seq<Lit>) -> bool {
    exists|j: int| 0 <= j < clause.len() && holds(m, #[trigger] clause[j])
}

impl State {
    /// `m` gives a value to every variable and makes every stored clause
    /// true.
    pub open spec fn models(self, m: Seq<bool>) -> bool {
        &&& m.len() == self.vars()
        &&& forall|i: int| 0 <= i < self.units.len() ==> holds(m, #[trigger] self.units[i])
        &&& forall|i: int|
            0 <= i < self.bins.len() ==> holds(m, (#[trigger] self.bins[i]).0) || holds(
                m,
                self.bins[i].1,
            )
        &&& forall|i: int| 0 <= i < self.longs.len() ==> clause_holds(m, #[trigger] self.longs[i])
    }

    /// No total assignment makes every stored clause true.
    pub open spec fn unsatisfiable(self) -> bool {
        forall|m: Seq<bool>| !self.models(m)
    }

    /// Every literal of the trail that was assigned at level 0 is true in
    /// every model of the clauses.
    pub open spec fn facts_follow(self) -> bool {
        forall|m: Seq<bool>, k: int|
            #![trigger self.models(m), self.trail[k]]
            self.models(m) && 0 <= k < self.trail.len() && self.lv(self.trail[k]) == 0 ==> holds(
                m,
                self.trail[k],
            )
    }

    /// Every binary reason on the trail is a consequence of the clauses: a
    /// model makes the literal or the other literal of its reason true.
    pub open spec fn reasons_follow(self) -> bool {
        forall|m: Seq<bool>, k: int|
            #![trigger self.models(m), self.trail[k]]
            self.models(m) && 0 <= k < self.trail.len() && self.graph[self.trail[k].var()].reason
                is Binary ==> holds(m, self.trail[k]) || holds(
                m,
                self.graph[self.trail[k].var()].reason->Binary_0,
            )
    }

    /// What the trail claims follows from the clauses.
    pub open spec fn sound(self) -> bool {
        self.facts_follow() && self.reasons_follow()
    }

    /// Every model of `old` is a model of `self`.
    pub open spec fn follows_from(self, old: State) -> bool {
        forall|m: Seq<bool>| old.models(m) ==> #[trigger] self.models(m)
    }

    /// A state with the trail and the graph of a sound state, and no model
    /// that the sound state lacks, is sound.
    pub proof fn sound_transfer(self, old: State)
        requires
            old.sound(),
            old.follows_from(self),
            self.trail == old.trail,
            self.graph == old.graph,
        ensures
            self.sound(),
    {
        assert forall|m: Seq<bool>, k: int|
            #![trigger self.models(m), self.trail[k]]
            self.models(m) && 0 <= k < self.trail.len() implies (self.lv(self.trail[k]) == 0
            ==> holds(m, self.trail[k])) && (self.graph[self.trail[k].var()].reason is Binary
            ==> holds(m, self.trail[k]) || holds(
            m,
            self.graph[self.trail[k].var()].reason->Binary_0,
        )) by {
            assert(old.models(m));
            assert(old.trail[k] == self.trail[k]);
        }
    }

    /// A state whose trail is a part of the trail of a sound state, with the
    /// same graph and no further model, is sound.
    pub proof fn sound_cut(self, old: State)
        requires
            old.sound(),
            old.follows_from(self),
            self.trail.len() <= old.trail.len(),
            forall|k: int| 0 <= k < self.trail.len() ==> #[trigger] self.trail[k] == old.trail[k],
            self.graph == old.graph,
        ensures
            self.sound(),
    {
        assert forall|m: Seq<bool>, k: int|
            #![trigger self.models(m), self.trail[k]]
            self.models(m) && 0 <= k < self.trail.len() implies (self.lv(self.trail[k]) == 0
            ==> holds(m, self.trail[k])) && (self.graph[self.trail[k].var()].reason is Binary
            ==> holds(m, self.trail[k]) || holds(
            m,
            self.graph[self.trail[k].var()].reason->Binary_0,
        )) by {
            assert(old.models(m));
            assert(old.trail[k] == self.trail[k]);
        }
    }

    /// Making a literal true keeps the state sound where the literal, if
    /// made true at level 0, is true in every model, and its binary reason,
    /// if it has one, follows from the clauses.
    pub proof fn sound_assigned(self, lit: Lit, reason: PropReason)
        requires
            self.sound(),
            self.core_open(),
            lit.var() < self.vars(),
            self.asg[lit.var()] is None,
            self.starts.len() == 0 ==> forall|m: Seq<bool>| #[trigger] self.models(m) ==> holds(m, lit),
            reason matches PropReason::Binary(other) ==> forall|m: Seq<bool>| #[trigger]
                self.models(m) ==> holds(m, lit) || holds(m, other),
        ensures
            self.assigned(lit, reason).sound(),
    {
        let next = self.assigned(lit, reason);
        assert forall|m: Seq<bool>, k: int|
            #![trigger next.models(m), next.trail[k]]
            next.models(m) && 0 <= k < next.trail.len() implies (next.lv(next.trail[k]) == 0
            ==> holds(m, next.trail[k])) && (next.graph[next.trail[k].var()].reason is Binary
            ==> holds(m, next.trail[k]) || holds(
            m,
            next.graph[next.trail[k].var()].reason->Binary_0,
        )) by {
            assert(self.models(m)) by {
                assert(next.units == self.units && next.bins == self.bins && next.longs
                    == self.longs);
                assert(next.vars() == self.vars());
                assert forall|i: int| 0 <= i < self.longs.len() implies clause_holds(
                    m,
                    #[trigger] self.longs[i],
                ) by {
                    assert(clause_holds(m, next.longs[i]));
                }
            }
            if k < self.trail.len() {
                assert(self.trail[k] == next.trail[k]);
                assert(is_true(self.asg, self.trail[k]));
                assert(self.trail[k].var() != lit.var());
            }
        }
    }

    /// Exchanging two literals of a long clause leaves the models as they
    /// are.
    pub proof fn swap_keeps_models(self, idx: int, a: int, b: int)
        requires
            0 <= idx < self.longs.len(),
            0 <= a < self.longs[idx].len(),
            0 <= b < self.longs[idx].len(),
        ensures
            self.with_swap(idx, a, b).follows_from(self),
            self.follows_from(self.with_swap(idx, a, b)),
    {
        let next = self.with_swap(idx, a, b);
        let old_c = self.longs[idx];
        let new_c = swapped(old_c, a, b);
        let back = |j: int|
            if j == a {
                b
            } else if j == b {
                a
            } else {
                j
            };
        assert forall|j: int| 0 <= j < old_c.len() implies #[trigger] new_c[back(j)] == old_c[j] by {}
        assert forall|j: int| 0 <= j < old_c.len() implies #[trigger] old_c[back(j)] == new_c[j] by {}
        assert forall|m: Seq<bool>| self.models(m) implies #[trigger] next.models(m) by {
            assert forall|i: int| 0 <= i < next.longs.len() implies clause_holds(
                m,
                #[trigger] next.longs[i],
            ) by {
                assert(clause_holds(m, self.longs[i]));
                if i == idx {
                    let j = choose|j: int| 0 <= j < old_c.len() && holds(m, #[trigger] old_c[j]);
                    assert(holds(m, new_c[back(j)]));
                } else {
                    assert(next.longs[i] == self.longs[i]);
                }
            }
        }
        assert forall|m: Seq<bool>| next.models(m) implies #[trigger] self.models(m) by {
            assert forall|i: int| 0 <= i < self.longs.len() implies clause_holds(
                m,
                #[trigger] self.longs[i],
            ) by {
                assert(clause_holds(m, next.longs[i]));
                if i == idx {
                    assert(next.longs[i] == new_c);
                    let j = choose|j: int| 0 <= j < new_c.len() && holds(m, #[trigger] new_c[j]);
                    assert(old_c[back(j)] == new_c[j]);
                    assert(holds(m, old_c[back(j)]));
                } else {
                    assert(next.longs[i] == self.longs[i]);
                }
            }
            assert forall|i: int| 0 <= i < self.units.len() implies holds(
                m,
                #[trigger] self.units[i],
            ) by {
                assert(holds(m, next.units[i]));
            }
            assert forall|i: int| 0 <= i < self.bins.len() implies holds(
                m,
                (#[trigger] self.bins[i]).0,
            ) || holds(m, self.bins[i].1) by {
                assert(holds(m, next.bins[i].0) || holds(m, next.bins[i].1));
            }
        }
    }

    /// A model of the clauses makes no literal true that is false by a
    /// literal of level 0.
    pub proof fn fact_excludes(self, m: Seq<bool>, lit: Lit)
        requires
            self.core_ok(),
            self.facts_follow(),
            self.models(m),
            lit.var() < self.vars(),
            is_false(self.asg, lit),
            self.lv(lit) == 0,
        ensures
            !holds(m, lit),
    {
        let k = self.place[lit.var()];
        assert(self.asg[lit.var()] is Some);
        assert(self.trail[k].var() == lit.var());
        assert(is_true(self.asg, self.trail[k]));
        assert(holds(m, self.trail[k]));
    }

    /// A total assignment read off a state in which every variable has a
    /// value.
    pub open spec fn reading(self) -> Seq<bool> {
        Seq::new(self.asg.len(), |v: int| self.asg[v] == Some(true))
    }

    /// Where every variable has a value and every clause of `old` has a true
    /// literal, the assignment is a model of `old`.
    pub proof fn reading_models(self, old: State)
        requires
            self.total(),
            self.satisfies(old),
            old.tables_wf(),
            self.vars() == old.vars(),
        ensures
            old.models(self.reading()),
    {
        let m = self.reading();
        assert forall|x: Lit| x.var() < self.vars() && is_true(self.asg, x) implies #[trigger] holds(
            m,
            x,
        ) by {}
        assert forall|i: int| 0 <= i < old.units.len() implies holds(m, #[trigger] old.units[i]) by {
            assert(is_true(self.asg, old.units[i]));
        }
        assert forall|i: int| 0 <= i < old.bins.len() implies holds(m, (#[trigger] old.bins[i]).0)
            || holds(m, old.bins[i].1) by {
            assert(is_true(self.asg, old.bins[i].0) || is_true(self.asg, old.bins[i].1));
        }
        assert forall|i: int| 0 <= i < old.longs.len() implies clause_holds(
            m,
            #[trigger] old.longs[i],
        ) by {
            let c = old.longs[i];
            assert(crate::solver::clause_true(self.asg, c));
            let j = choose|j: int| 0 <= j < c.len() && is_true(self.asg, #[trigger] c[j]);
            assert(c[j].var() < old.vars());
            assert(holds(m, c[j]));
        }
    }
}

} // verus!
