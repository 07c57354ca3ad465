//! Which variables the clauses mention: learning adds no variable to them,
//! so a variable that no clause of the formula mentions stays unmentioned.

use crate::db::swapped;
use crate::explain::antecedent_lits;
use crate::graph::PropReason;
use crate::lit::Lit;
use crate::solver::ClauseRef;
use crate::state::{reason_ok, unmarked, State};
use vstd::prelude::*;

verus! {

impl State {
    /// Every literal of `lits` belongs to a variable that a stored clause
    /// mentions.
    pub closed spec fn known(self, lits: Seq<Lit>) -> bool {
        forall|j: int| 0 <= j < lits.len() ==> self.mentions((#[trigger] lits[j]).var())
    }

    /// Every marked variable is one that a stored clause mentions.
    pub closed spec fn marks_known(self, seen: Seq<bool>) -> bool {
        forall|v: int| 0 <= v < seen.len() && #[trigger] seen[v] ==> self.mentions(v)
    }

    /// Every variable that a clause of `self` mentions, a clause of `old`
    /// mentions.
    pub open spec fn mentions_within(self, old: State) -> bool {
        forall|v: int| #[trigger] self.mentions(v) ==> old.mentions(v)
    }

    /// No literal, no unknown variable.
    pub proof fn known_empty(self)
        ensures
            self.known(Seq::empty()),
    {
    }

    /// No mark, no unknown variable.
    pub proof fn marks_known_none(self, seen: Seq<bool>)
        requires
            unmarked(seen),
        ensures
            self.marks_known(seen),
    {
    }

    /// A literal of known literals is known.
    pub proof fn known_at(self, lits: Seq<Lit>, j: int)
        requires
            self.known(lits),
            0 <= j < lits.len(),
        ensures
            self.mentions(lits[j].var()),
    {
    }

    /// A marked variable is known.
    pub proof fn marked_known(self, seen: Seq<bool>, v: int)
        requires
            self.marks_known(seen),
            0 <= v < seen.len(),
            seen[v],
        ensures
            self.mentions(v),
    {
    }

    /// Marking a known variable, or taking a mark off.
    pub proof fn mark_known(self, seen: Seq<bool>, v: int, mark: bool)
        requires
            self.marks_known(seen),
            0 <= v < seen.len(),
            mark ==> self.mentions(v),
        ensures
            self.marks_known(seen.update(v, mark)),
    {
        let after = seen.update(v, mark);
        assert forall|u: int| 0 <= u < after.len() && #[trigger] after[u] implies self.mentions(u) by {
            if u != v {
                assert(seen[u]);
            }
        }
    }

    /// A known literal more.
    pub proof fn push_known(self, lits: Seq<Lit>, lit: Lit)
        requires
            self.known(lits),
            self.mentions(lit.var()),
        ensures
            self.known(lits.push(lit)),
    {
        let more = lits.push(lit);
        assert forall|j: int| 0 <= j < more.len() implies self.mentions((#[trigger] more[j]).var()) by {
            if j < lits.len() {
                assert(more[j] == lits[j]);
            }
        }
    }

    /// Two known literals exchanged.
    pub proof fn swap_known(self, lits: Seq<Lit>, a: int, b: int)
        requires
            self.known(lits),
            0 <= a < lits.len(),
            0 <= b < lits.len(),
        ensures
            self.known(swapped(lits, a, b)),
    {
        let after = swapped(lits, a, b);
        assert forall|j: int| 0 <= j < after.len() implies self.mentions((#[trigger] after[j]).var()) by {
            if j == a {
                assert(after[j] == lits[b]);
            } else if j == b {
                assert(after[j] == lits[a]);
            } else {
                assert(after[j] == lits[j]);
            }
        }
    }

    /// The literals of a stored clause are known.
    pub proof fn stored_known(self, lits: Seq<Lit>)
        requires
            self.from_db(lits),
        ensures
            self.known(lits),
    {
        assert forall|j: int| 0 <= j < lits.len() implies self.mentions((#[trigger] lits[j]).var()) by {
            if exists|i: int| 0 <= i < self.longs.len() && #[trigger] self.longs[i] == lits {
                let i = choose|i: int| 0 <= i < self.longs.len() && #[trigger] self.longs[i] == lits;
                assert(self.longs[i][j].var() == lits[j].var());
            } else {
                let i = choose|i: int|
                    0 <= i < self.bins.len() && lits.len() == 2 && (((#[trigger] self.bins[i]).0
                        == lits[0] && self.bins[i].1 == lits[1]) || (self.bins[i].0 == lits[1]
                        && self.bins[i].1 == lits[0]));
                assert(self.bins[i].0.var() == lits[j].var() || self.bins[i].1.var()
                    == lits[j].var());
            }
        }
    }

    /// The other literals of the reason of a trail literal that is
    /// accounted for are known.
    pub proof fn reason_known(self, k: int, polarity: bool)
        requires
            self.accounted(polarity),
            self.core_ok(),
            0 <= k < self.trail.len(),
        ensures
            self.known(antecedent_lits(self, self.graph[self.trail[k].var()].reason)),
    {
        let reason = self.graph[self.trail[k].var()].reason;
        let lits = antecedent_lits(self, reason);
        assert(self.accounted_at(k, polarity));
        assert(reason_ok(
            self.asg,
            self.longs,
            self.starts,
            self.place,
            self.trail[k],
            k,
            self.graph[self.trail[k].var()],
        ));
        assert forall|j: int| 0 <= j < lits.len() implies self.mentions((#[trigger] lits[j]).var()) by {
            match reason {
                PropReason::Binary(other) => {
                    let i = choose|i: int|
                        0 <= i < self.bins.len() && (#[trigger] self.bins[i] == (
                            self.trail[k],
                            other,
                        ) || self.bins[i] == (other, self.trail[k]));
                    assert(self.bins[i].0.var() == other.var() || self.bins[i].1.var()
                        == other.var());
                },
                PropReason::Long(ClauseRef::Long(c)) => {
                    assert(lits[j] == self.longs[c as int][j + 1]);
                    assert(self.longs[c as int][j + 1].var() == lits[j].var());
                },
                _ => {},
            }
        }
    }

    /// Two states with the same clauses mention the same variables.
    pub proof fn same_clauses_mention(self, old: State)
        requires
            self.units == old.units,
            self.bins == old.bins,
            self.longs == old.longs,
        ensures
            self.mentions_within(old),
    {
    }

    /// Propagation leaves the variables mentioned as they are.
    pub proof fn grown_mentions(self, old: State)
        requires
            self.grows_from(old),
        ensures
            self.mentions_within(old),
    {
        assert forall|v: int| #[trigger] self.mentions(v) implies old.mentions(v) by {
            if exists|i: int, j: int|
                0 <= i < self.longs.len() && 0 <= j < self.longs[i].len() && (
                #[trigger] self.longs[i][j]).var() == v {
                let (i, j) = choose|i: int, j: int|
                    0 <= i < self.longs.len() && 0 <= j < self.longs[i].len() && (
                    #[trigger] self.longs[i][j]).var() == v;
                let x = self.longs[i][j];
                assert(self.longs[i].contains(x));
                assert(old.longs[i].contains(x));
                let t = choose|t: int| 0 <= t < old.longs[i].len() && old.longs[i][t] == x;
                assert(old.longs[i][t].var() == v);
            }
        }
    }

    /// What is within the variables of a state that is within those of
    /// another is within those of the other.
    pub proof fn mentions_trans(self, mid: State, old: State)
        requires
            self.mentions_within(mid),
            mid.mentions_within(old),
        ensures
            self.mentions_within(old),
    {
        assert forall|v: int| #[trigger] self.mentions(v) implies old.mentions(v) by {
            assert(mid.mentions(v));
        }
    }

    /// Learning a clause of known literals adds no variable.
    pub proof fn learnt_mentions(self, clause: Seq<Lit>, back: int)
        requires
            self.known(clause),
            clause.len() >= 1,
        ensures
            self.cut(back).with_clause(clause).assigned(
                clause[0],
                self.cut(back).learnt_reason(clause),
            ).mentions_within(self),
    {
        let cut = self.cut(back);
        let taught = cut.with_clause(clause).assigned(clause[0], cut.learnt_reason(clause));
        assert(cut.units == self.units && cut.bins == self.bins && cut.longs == self.longs);
        assert forall|v: int| #[trigger] taught.mentions(v) implies self.mentions(v) by {
            if exists|i: int| 0 <= i < taught.units.len() && (#[trigger] taught.units[i]).var() == v {
                let i = choose|i: int|
                    0 <= i < taught.units.len() && (#[trigger] taught.units[i]).var() == v;
                if i < self.units.len() {
                    assert(self.units[i].var() == v);
                } else {
                    assert(taught.units[i] == clause[0]);
                    assert(self.mentions(clause[0].var()));
                }
            } else if exists|i: int|
                0 <= i < taught.bins.len() && ((#[trigger] taught.bins[i]).0.var() == v
                    || taught.bins[i].1.var() == v) {
                let i = choose|i: int|
                    0 <= i < taught.bins.len() && ((#[trigger] taught.bins[i]).0.var() == v
                        || taught.bins[i].1.var() == v);
                if i < self.bins.len() {
                    assert(self.bins[i].0.var() == v || self.bins[i].1.var() == v);
                } else {
                    assert(taught.bins[i] == (clause[0], clause[1]));
                    assert(self.mentions(clause[0].var()));
                    assert(self.mentions(clause[1].var()));
                }
            } else {
                let (i, j) = choose|i: int, j: int|
                    0 <= i < taught.longs.len() && 0 <= j < taught.longs[i].len() && (
                    #[trigger] taught.longs[i][j]).var() == v;
                if i < self.longs.len() {
                    assert(self.longs[i][j].var() == v);
                } else {
                    assert(taught.longs[i] == clause);
                    assert(self.mentions(clause[j].var()));
                }
            }
        }
    }
}

} // verus!
