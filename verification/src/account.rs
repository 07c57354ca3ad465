//! Where each value comes from: every literal of the trail is a unit clause,
//! a decision of the default polarity, or forced by a clause that the
//! solver holds.

use crate::graph::PropReason;
use crate::lit::Lit;
use crate::solver::ClauseRef;
use crate::state::{is_false, is_true, lits_below, reason_ok, trail_ok, State};
use vstd::prelude::*;

verus! {

impl State {
    /// The literal at position `k` of the trail is accounted for: without
    /// a reason it is a unit clause where it stands at level 0 and has the
    /// polarity `polarity` where it is a decision; with a reason it was
    /// forced by a stored clause.
    pub open spec fn accounted_at(self, k: int, polarity: bool) -> bool {
        match self.graph[self.trail[k].var()].reason {
            PropReason::Unit => if self.graph[self.trail[k].var()].level == 0 {
                self.units.contains(self.trail[k])
            } else {
                self.trail[k].positive() == polarity
            },
            _ => self.forced_at(k),
        }
    }

    /// Every literal of the trail is accounted for.
    pub open spec fn accounted(self, polarity: bool) -> bool {
        forall|k: int| 0 <= k < self.trail.len() ==> #[trigger] self.accounted_at(k, polarity)
    }

    /// Some binary or long clause holds `lit` and has every other literal
    /// false: the clause forces `lit`.
    pub open spec fn forces(self, lit: Lit) -> bool {
        ||| exists|i: int|
            0 <= i < self.bins.len() && (#[trigger] self.bins[i]).0 == lit && is_false(
                self.asg,
                self.bins[i].1,
            )
        ||| exists|i: int|
            0 <= i < self.bins.len() && (#[trigger] self.bins[i]).1 == lit && is_false(
                self.asg,
                self.bins[i].0,
            )
        ||| exists|c: int, t: int|
            0 <= c < self.longs.len() && 0 <= t < self.longs[c].len() && (
            #[trigger] self.longs[c][t]) == lit && forall|j: int|
                0 <= j < self.longs[c].len() && j != t ==> is_false(
                    self.asg,
                    #[trigger] self.longs[c][j],
                )
    }

    /// Some stored clause holds a literal of the variable `v`.
    pub open spec fn mentions(self, v: int) -> bool {
        ||| exists|i: int| 0 <= i < self.units.len() && (#[trigger] self.units[i]).var() == v
        ||| exists|i: int|
            0 <= i < self.bins.len() && ((#[trigger] self.bins[i]).0.var() == v
                || self.bins[i].1.var() == v)
        ||| exists|i: int, j: int|
            0 <= i < self.longs.len() && 0 <= j < self.longs[i].len() && (
            #[trigger] self.longs[i][j]).var() == v
    }

    /// A state with the same trail and graph, in which the clauses have
    /// kept their places, accounts for what the state before it did.
    pub proof fn accounted_kept(self, old: State, polarity: bool)
        requires
            old.accounted(polarity),
            self.trail == old.trail,
            self.graph == old.graph,
            forall|x: Lit| old.units.contains(x) ==> #[trigger] self.units.contains(x),
            old.bins.len() <= self.bins.len(),
            forall|i: int| 0 <= i < old.bins.len() ==> #[trigger] self.bins[i] == old.bins[i],
            old.longs.len() <= self.longs.len(),
            forall|i: int| 0 <= i < old.longs.len() ==> #[trigger] self.longs[i] == old.longs[i],
        ensures
            self.accounted(polarity),
    {
        assert forall|k: int| 0 <= k < self.trail.len() implies #[trigger] self.accounted_at(
            k,
            polarity,
        ) by {
            assert(old.accounted_at(k, polarity));
            match self.graph[self.trail[k].var()].reason {
                PropReason::Binary(other) => {
                    let i = choose|i: int|
                        0 <= i < old.bins.len() && (#[trigger] old.bins[i] == (old.trail[k], other)
                            || old.bins[i] == (other, old.trail[k]));
                    assert(self.bins[i] == old.bins[i]);
                },
                PropReason::Long(ClauseRef::Long(c)) => {
                    assert(self.longs[c as int] == old.longs[c as int]);
                },
                _ => {},
            }
        }
    }

    /// Propagation accounts for what it adds, and what stood on the trail
    /// before stays accounted for.
    pub proof fn accounted_grows(self, old: State, polarity: bool)
        requires
            old.accounted(polarity),
            old.core_ok(),
            self.core_ok(),
            self.grows_from(old),
            self.forced_from(old.trail.len() as int),
        ensures
            self.accounted(polarity),
    {
        assert forall|k: int| 0 <= k < self.trail.len() implies #[trigger] self.accounted_at(
            k,
            polarity,
        ) by {
            if k < old.trail.len() {
                assert(old.accounted_at(k, polarity));
                assert(self.trail[k] == old.trail[k]);
                assert(is_true(old.asg, old.trail[k]));
                assert(self.graph[self.trail[k].var()] == old.graph[old.trail[k].var()]);
                assert(reason_ok(
                    self.asg,
                    self.longs,
                    self.starts,
                    self.place,
                    self.trail[k],
                    k,
                    self.graph[self.trail[k].var()],
                ));
                match self.graph[self.trail[k].var()].reason {
                    PropReason::Binary(other) => {
                        let i = choose|i: int|
                            0 <= i < old.bins.len() && (#[trigger] old.bins[i] == (
                                old.trail[k],
                                other,
                            ) || old.bins[i] == (other, old.trail[k]));
                        assert(self.bins[i] == old.bins[i]);
                    },
                    _ => {},
                }
            } else {
                assert(self.forced_at(k));
            }
        }
    }

    /// A literal made true that is accounted for keeps the trail accounted
    /// for.
    pub proof fn accounted_assigned(self, lit: Lit, reason: PropReason, polarity: bool)
        requires
            self.accounted(polarity),
            trail_ok(self.asg, self.trail, self.place),
            self.graph.len() == self.vars(),
            lits_below(self.trail, self.vars()),
            lit.var() < self.vars(),
            self.asg[lit.var()] is None,
            match reason {
                PropReason::Unit => if self.starts.len() as usize == 0 {
                    self.units.contains(lit)
                } else {
                    lit.positive() == polarity
                },
                PropReason::Binary(other) => exists|i: int|
                    0 <= i < self.bins.len() && (#[trigger] self.bins[i] == (lit, other)
                        || self.bins[i] == (other, lit)),
                PropReason::Long(ClauseRef::Long(c)) => c < self.longs.len()
                    && self.longs[c as int][0] == lit,
                _ => false,
            },
        ensures
            self.assigned(lit, reason).accounted(polarity),
    {
        let next = self.assigned(lit, reason);
        assert forall|k: int| 0 <= k < next.trail.len() implies #[trigger] next.accounted_at(
            k,
            polarity,
        ) by {
            if k < self.trail.len() {
                assert(self.accounted_at(k, polarity));
                assert(next.trail[k] == self.trail[k]);
                assert(is_true(self.asg, self.trail[k]));
                assert(self.trail[k].var() != lit.var());
                assert(next.graph[next.trail[k].var()] == self.graph[self.trail[k].var()]);
                match self.graph[self.trail[k].var()].reason {
                    PropReason::Binary(other) => {
                        let i = choose|i: int|
                            0 <= i < self.bins.len() && (#[trigger] self.bins[i] == (
                                self.trail[k],
                                other,
                            ) || self.bins[i] == (other, self.trail[k]));
                        assert(next.bins[i] == self.bins[i]);
                    },
                    _ => {},
                }
            } else {
                assert(next.trail[k] == lit);
                assert(next.graph[lit.var()].reason == reason);
                assert(next.graph[lit.var()].level == self.starts.len() as usize);
                match reason {
                    PropReason::Binary(other) => {
                        let i = choose|i: int|
                            0 <= i < self.bins.len() && (#[trigger] self.bins[i] == (lit, other)
                                || self.bins[i] == (other, lit));
                        assert(next.bins[i] == self.bins[i]);
                    },
                    _ => {},
                }
            }
        }
    }

    /// Going back to an earlier level leaves the rest of the trail
    /// accounted for.
    pub proof fn accounted_cut(self, level: int, polarity: bool)
        requires
            self.accounted(polarity),
            self.core_ok(),
            0 <= level <= self.level(),
        ensures
            self.cut(level).accounted(polarity),
    {
        let next = self.cut(level);
        assert forall|k: int| 0 <= k < next.trail.len() implies #[trigger] next.accounted_at(
            k,
            polarity,
        ) by {
            assert(self.accounted_at(k, polarity));
            assert(next.trail[k] == self.trail[k]);
            match self.graph[self.trail[k].var()].reason {
                PropReason::Binary(other) => {
                    let i = choose|i: int|
                        0 <= i < self.bins.len() && (#[trigger] self.bins[i] == (
                            self.trail[k],
                            other,
                        ) || self.bins[i] == (other, self.trail[k]));
                    assert(next.bins[i] == self.bins[i]);
                },
                _ => {},
            }
        }
    }

    /// Going back to the level of a clause that can be learned there,
    /// learning it and asserting its first literal leaves the trail
    /// accounted for.
    pub proof fn accounted_learnt(self, clause: Seq<Lit>, back: int, polarity: bool)
        requires
            self.accounted(polarity),
            self.core_ok(),
            0 <= back <= self.level(),
            self.cut(back).core_ok(),
            crate::learn::learnable(self.cut(back), clause),
            clause.len() >= 3 ==> self.longs.len() < usize::MAX,
        ensures
            self.cut(back).with_clause(clause).assigned(
                clause[0],
                self.cut(back).learnt_reason(clause),
            ).accounted(polarity),
    {
        let cut = self.cut(back);
        let stored = cut.with_clause(clause);
        let reason = cut.learnt_reason(clause);
        self.accounted_cut(back, polarity);
        assert forall|x: Lit| cut.units.contains(x) implies #[trigger] stored.units.contains(x) by {
            let i = choose|i: int| 0 <= i < cut.units.len() && cut.units[i] == x;
            if clause.len() == 1 {
                assert(stored.units[i] == x);
            }
        }
        stored.accounted_kept(cut, polarity);
        if clause.len() == 1 {
            assert(stored.units[cut.units.len() as int] == clause[0]);
            assert(stored.units.contains(clause[0]));
        } else if clause.len() == 2 {
            assert(stored.bins[cut.bins.len() as int] == (clause[0], clause[1]));
        } else {
            assert(stored.longs[cut.longs.len() as int] == clause);
        }
        stored.accounted_assigned(clause[0], reason, polarity);
    }
}

} // verus!
