//! Each step of the search keeps what the trail claims a consequence of the
//! clauses.

use crate::explain::implied;
use crate::graph::PropReason;
use crate::learn::learnable;
use crate::lit::Lit;
use crate::model::{clause_holds, holds};
use crate::state::{is_false, same_lits, State};
use crate::watch::Watch;
use vstd::prelude::*;

verus! {

impl State {
    /// States with the same clauses and variables have the same models.
    pub proof fn same_clauses_follow(self, old: State)
        requires
            self.units == old.units,
            self.bins == old.bins,
            self.longs == old.longs,
            self.vars() == old.vars(),
        ensures
            self.follows_from(old),
            old.follows_from(self),
    {
        assert forall|m: Seq<bool>| old.models(m) implies #[trigger] self.models(m) by {
            assert forall|i: int| 0 <= i < self.longs.len() implies clause_holds(
                m,
                #[trigger] self.longs[i],
            ) by {
                assert(clause_holds(m, old.longs[i]));
            }
        }
        assert forall|m: Seq<bool>| self.models(m) implies #[trigger] old.models(m) by {
            assert forall|i: int| 0 <= i < old.longs.len() implies clause_holds(
                m,
                #[trigger] old.longs[i],
            ) by {
                assert(clause_holds(m, self.longs[i]));
            }
        }
    }

    /// A state with the clauses, the trail and the graph of a sound state is
    /// sound.
    pub proof fn same_clauses_sound(self, old: State)
        requires
            old.sound(),
            self.trail == old.trail,
            self.graph == old.graph,
            self.units == old.units,
            self.bins == old.bins,
            self.longs == old.longs,
            self.vars() == old.vars(),
        ensures
            self.sound(),
    {
        self.same_clauses_follow(old);
        self.sound_transfer(old);
    }

    /// `follows_from` composes.
    pub proof fn follows_trans(self, mid: State, old: State)
        requires
            self.follows_from(mid),
            mid.follows_from(old),
        ensures
            self.follows_from(old),
    {
        assert forall|m: Seq<bool>| old.models(m) implies #[trigger] self.models(m) by {
            assert(mid.models(m));
        }
    }

    /// A state that has grown by propagation has the models it had.
    pub proof fn grown_follows(self, old: State)
        requires
            self.grows_from(old),
        ensures
            self.follows_from(old),
            old.follows_from(self),
    {
        assert forall|m: Seq<bool>| old.models(m) implies #[trigger] self.models(m) by {
            assert forall|i: int| 0 <= i < self.longs.len() implies clause_holds(
                m,
                #[trigger] self.longs[i],
            ) by {
                let c = old.longs[i];
                assert(clause_holds(m, c));
                assert(same_lits(c, self.longs[i]));
                let j = choose|j: int| 0 <= j < c.len() && holds(m, #[trigger] c[j]);
                assert(c.contains(c[j]));
                assert(self.longs[i].contains(c[j]));
                let t = choose|t: int| 0 <= t < self.longs[i].len() && self.longs[i][t] == c[j];
                assert(holds(m, self.longs[i][t]));
            }
        }
        assert forall|m: Seq<bool>| self.models(m) implies #[trigger] old.models(m) by {
            assert forall|i: int| 0 <= i < old.longs.len() implies clause_holds(
                m,
                #[trigger] old.longs[i],
            ) by {
                let c = self.longs[i];
                assert(clause_holds(m, c));
                assert(same_lits(old.longs[i], c));
                let j = choose|j: int| 0 <= j < c.len() && holds(m, #[trigger] c[j]);
                assert(c.contains(c[j]));
                assert(old.longs[i].contains(c[j]));
                let t = choose|t: int| 0 <= t < old.longs[i].len() && old.longs[i][t] == c[j];
                assert(holds(m, old.longs[i][t]));
            }
        }
    }

    /// Exchanging two literals of a long clause keeps the state sound.
    pub proof fn swap_sound(self, idx: int, a: int, b: int)
        requires
            self.sound(),
            0 <= idx < self.longs.len(),
            0 <= a < self.longs[idx].len(),
            0 <= b < self.longs[idx].len(),
        ensures
            self.with_swap(idx, a, b).sound(),
    {
        self.swap_keeps_models(idx, a, b);
        self.with_swap(idx, a, b).sound_transfer(self);
    }

    /// Watching a long clause on another literal keeps the state sound.
    pub proof fn rewatched_sound(self, idx: int, k: int)
        requires
            self.sound(),
            0 <= idx < self.longs.len(),
            1 <= k < self.longs[idx].len(),
        ensures
            self.rewatched(idx, k).sound(),
    {
        self.swap_sound(idx, 1, k);
        self.rewatched(idx, k).same_clauses_sound(self.with_swap(idx, 1, k));
    }

    /// Forcing the first literal of a long clause whose other literals are
    /// false keeps the state sound.
    pub proof fn forced_sound(self, lit: Lit, local: Seq<Watch>, at: int, idx: int)
        requires
            self.sound(),
            self.scanning(lit, local, at),
            0 <= at < local.len(),
            local[at].cref is Long,
            local[at].cref->Long_0 == idx,
            self.longs[idx][1] == lit.neg(),
            forall|j: int|
                2 <= j < self.longs[idx].len() ==> is_false(self.asg, #[trigger] self.longs[idx][j]),
            self.asg[self.longs[idx][0].var()] is None,
        ensures
            self.assigned(self.longs[idx][0], PropReason::Long(local[at].cref)).sound(),
    {
        let clause = self.longs[idx];
        self.scan_facts(lit, local, at);
        if self.starts.len() == 0 {
            assert forall|m: Seq<bool>| #[trigger] self.models(m) implies holds(m, clause[0]) by {
                assert(clause_holds(m, clause));
                let j = choose|j: int| 0 <= j < clause.len() && holds(m, #[trigger] clause[j]);
                if j != 0 {
                    assert(is_false(self.asg, clause[j]));
                    assert(clause[j].var() < self.vars());
                    crate::cdcl::level_of_assigned(self, clause[j].var());
                    self.fact_excludes(m, clause[j]);
                }
            }
        }
        self.sound_assigned(clause[0], PropReason::Long(local[at].cref));
    }

    /// Forcing the other literal of a binary clause keeps the state sound.
    pub proof fn bin_forced_sound(self, lit: Lit, local: Seq<Watch>, at: int)
        requires
            self.sound(),
            self.scanning(lit, local, at),
            0 <= at < local.len(),
            local[at].cref is Binary,
            local[at].blocking.value_under(self.asg) is None,
        ensures
            self.assigned(local[at].blocking, PropReason::Binary(lit.neg())).sound(),
    {
        let other = local[at].blocking;
        let i = local[at].cref->Binary_0 as int;
        self.scan_facts(lit, local, at);
        assert forall|m: Seq<bool>| #[trigger] self.models(m) implies holds(m, other) || holds(
            m,
            lit.neg(),
        ) by {
            assert(holds(m, self.bins[i].0) || holds(m, self.bins[i].1));
        }
        if self.starts.len() == 0 {
            assert forall|m: Seq<bool>| #[trigger] self.models(m) implies holds(m, other) by {
                assert(self.trail[self.pos - 1] == lit);
                assert(holds(m, self.trail[self.pos - 1]));
            }
        }
        self.sound_assigned(other, PropReason::Binary(lit.neg()));
    }

    /// A decision keeps the state sound.
    pub proof fn decided_sound(self, lit: Lit)
        requires
            self.sound(),
            self.core_ok(),
            self.pos == self.trail.len(),
            self.starts.len() < usize::MAX,
            self.trail.len() <= usize::MAX,
            lit.var() < self.vars(),
            self.asg[lit.var()] is None,
        ensures
            self.opened().assigned(lit, PropReason::Unit).sound(),
    {
        self.opened_keeps_core(lit);
        self.opened().same_clauses_sound(self);
        self.opened().sound_assigned(lit, PropReason::Unit);
    }

    /// Asserting a unit clause at level 0 keeps the state sound.
    pub proof fn unit_sound(self, i: int)
        requires
            self.sound(),
            self.core_ok(),
            0 <= i < self.units.len(),
            self.asg[self.units[i].var()] is None,
        ensures
            self.assigned(self.units[i], PropReason::Unit).sound(),
    {
        assert(self.units[i].var() < self.vars());
        assert forall|m: Seq<bool>| #[trigger] self.models(m) implies holds(m, self.units[i]) by {}
        self.sound_assigned(self.units[i], PropReason::Unit);
    }

    /// Going back to an earlier level keeps the state sound.
    pub proof fn cut_sound(self, level: int)
        requires
            self.sound(),
            0 <= level <= self.level(),
            self.wf(),
        ensures
            self.cut(level).sound(),
    {
        let next = self.cut(level);
        if level < self.starts.len() {
            next.same_clauses_follow(self);
            next.sound_cut(self);
        }
    }

    /// Learning a clause that follows from the clauses, and asserting its
    /// first literal, keeps the state sound and adds no model and loses
    /// none.
    pub proof fn learnt_sound(self, clause: Seq<Lit>)
        requires
            self.inv(),
            self.sound(),
            learnable(self, clause),
            implied(self, clause),
            clause.len() == 2 ==> self.bins.len() < usize::MAX,
            clause.len() >= 3 ==> self.longs.len() < usize::MAX,
        ensures
            self.with_clause(clause).assigned(clause[0], self.learnt_reason(clause)).sound(),
            self.with_clause(clause).assigned(clause[0], self.learnt_reason(clause)).follows_from(
                self,
            ),
    {
        let mid = self.with_clause(clause);
        let reason = self.learnt_reason(clause);
        let next = mid.assigned(clause[0], reason);
        self.with_clause_keeps(clause);
        assert forall|m: Seq<bool>| self.models(m) implies #[trigger] mid.models(m) by {
            assert(clause_holds(m, clause));
            let j = choose|j: int| 0 <= j < clause.len() && holds(m, #[trigger] clause[j]);
            assert forall|i: int| 0 <= i < mid.units.len() implies holds(
                m,
                #[trigger] mid.units[i],
            ) by {
                if i < self.units.len() {
                    assert(mid.units[i] == self.units[i]);
                }
            }
            assert forall|i: int| 0 <= i < mid.bins.len() implies holds(
                m,
                (#[trigger] mid.bins[i]).0,
            ) || holds(m, mid.bins[i].1) by {
                if i < self.bins.len() {
                    assert(mid.bins[i] == self.bins[i]);
                }
            }
            assert forall|i: int| 0 <= i < mid.longs.len() implies clause_holds(
                m,
                #[trigger] mid.longs[i],
            ) by {
                if i < self.longs.len() {
                    assert(mid.longs[i] == self.longs[i]);
                    assert(clause_holds(m, self.longs[i]));
                }
            }
        }
        assert forall|m: Seq<bool>| mid.models(m) implies #[trigger] self.models(m) by {
            assert forall|i: int| 0 <= i < self.units.len() implies holds(
                m,
                #[trigger] self.units[i],
            ) by {
                assert(mid.units[i] == self.units[i]);
            }
            assert forall|i: int| 0 <= i < self.bins.len() implies holds(
                m,
                (#[trigger] self.bins[i]).0,
            ) || holds(m, self.bins[i].1) by {
                assert(mid.bins[i] == self.bins[i]);
            }
            assert forall|i: int| 0 <= i < self.longs.len() implies clause_holds(
                m,
                #[trigger] self.longs[i],
            ) by {
                assert(mid.longs[i] == self.longs[i]);
                assert(clause_holds(m, mid.longs[i]));
            }
        }
        mid.sound_transfer(self);
        if self.starts.len() == 0 {
            assert forall|m: Seq<bool>| #[trigger] mid.models(m) implies holds(m, clause[0]) by {
                assert(self.models(m));
                assert(clause_holds(m, clause));
                let j = choose|j: int| 0 <= j < clause.len() && holds(m, #[trigger] clause[j]);
                if j != 0 {
                    assert(is_false(self.asg, clause[j]));
                    assert(clause[j].var() < self.vars());
                    crate::cdcl::level_of_assigned(self, clause[j].var());
                    self.fact_excludes(m, clause[j]);
                }
            }
        }
        if clause.len() == 2 {
            assert forall|m: Seq<bool>| #[trigger] mid.models(m) implies holds(m, clause[0])
                || holds(m, clause[1]) by {
                assert(mid.bins[self.bins.len() as int] == (clause[0], clause[1]));
            }
        }
        mid.sound_assigned(clause[0], reason);
        next.same_clauses_follow(mid);
        next.follows_trans(mid, self);
    }
}

} // verus!
