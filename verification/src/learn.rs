//! Taking a learned clause into the database and asserting its first
//! literal.

use crate::cdcl::{asserting, level_of_assigned, Conflict};
use crate::explain::implied;
use crate::measure::{learn_grows, value_bound, value_bounded};
use crate::moves::trail_bounded;
use crate::state::same_lits;
use crate::watching::watch_complete;
use crate::cnf::distinct_vars;
use crate::graph::{PropNode, PropReason};
use crate::lit::Lit;
use crate::solver::{ClauseRef, Solver};
use crate::state::{
    is_false, is_true, lits_below, reason_ok, reason_shape, watch_ok, watches_ok, State,
};
use crate::watch::{watch_added, watched};
use vstd::prelude::*;

verus! {

/// `clause` can be learned in the state `st`: its first literal is
/// unassigned and every other literal is false; a clause of one literal is
/// learned at level 0.
pub open spec fn learnable(st: State, clause: Seq<Lit>) -> bool {
    &&& clause.len() >= 1
    &&& lits_below(clause, st.vars())
    &&& distinct_vars(clause)
    &&& st.asg[clause[0].var()] is None
    &&& forall|j: int| 1 <= j < clause.len() ==> is_false(st.asg, #[trigger] clause[j])
    &&& clause.len() == 1 ==> st.level() == 0
}

impl State {
    /// The state with `clause` stored with the clauses of its arity and,
    /// where it has two literals or more, watched on its first two.
    pub open spec fn with_clause(self, clause: Seq<Lit>) -> State {
        if clause.len() == 1 {
            State { units: self.units.push(clause[0]), ..self }
        } else if clause.len() == 2 {
            State {
                bins: self.bins.push((clause[0], clause[1])),
                watches: watched(
                    self.watches,
                    ClauseRef::Binary(self.bins.len() as usize),
                    clause[0],
                    clause[1],
                ),
                ..self
            }
        } else {
            State {
                longs: self.longs.push(clause),
                watches: watched(
                    self.watches,
                    ClauseRef::Long(self.longs.len() as usize),
                    clause[0],
                    clause[1],
                ),
                ..self
            }
        }
    }

    /// The reason with which the first literal of a learned clause is
    /// asserted.
    pub open spec fn learnt_reason(self, clause: Seq<Lit>) -> PropReason {
        if clause.len() == 1 {
            PropReason::Unit
        } else if clause.len() == 2 {
            PropReason::Binary(clause[1])
        } else {
            PropReason::Long(ClauseRef::Long(self.longs.len() as usize))
        }
    }

    /// After going back to the level of an asserting clause, the clause can
    /// be learned: its first literal has lost its value, the others are
    /// still false.
    pub proof fn cut_makes_learnable(self, clause: Seq<Lit>, back: int)
        requires
            self.core_ok(),
            asserting(self, clause, back),
        ensures
            learnable(self.cut(back), clause),
            self.cut(back).level() == back,
    {
        let next = self.cut(back);
        let new_len = self.starts[back] as int;
        level_of_assigned(self, clause[0].var());
        assert forall|j: int| 1 <= j < clause.len() implies is_false(next.asg, #[trigger] clause[j]) by {
            level_of_assigned(self, clause[j].var());
        }
    }

    /// After going back to the level of an asserting clause the state is in
    /// order, and the clause can be learned.
    pub proof fn cut_ready(self, clause: Seq<Lit>, back: int)
        requires
            self.inv(),
            self.level() > 0,
            asserting(self, clause, back),
        ensures
            self.cut(back).inv(),
            learnable(self.cut(back), clause),
    {
        self.cut_keeps_core(back);
        self.cut_makes_learnable(clause, back);
    }

    /// Going back to the level of an asserting clause, learning the clause
    /// and asserting its first literal leaves the state tidy, keeps the
    /// clauses and the unit clauses' truth, and makes the trail worth more.
    pub proof fn learnt_step(self, clause: Seq<Lit>, back: int)
        requires
            self.inv(),
            watch_complete(self.bins, self.longs, self.watches),
            self.pos >= 1,
            self.watch_sem(self.pos - 1),
            self.starts.len() > 0 ==> self.starts.last() < self.pos,
            self.units_hold(),
            self.level() > 0,
            asserting(self, clause, back),
            clause.len() == 2 ==> self.bins.len() < usize::MAX,
            clause.len() >= 3 ==> self.longs.len() < usize::MAX,
        ensures
            ({
                let cut = self.cut(back);
                let taught = cut.with_clause(clause).assigned(clause[0], cut.learnt_reason(clause));
                &&& taught.tidy(taught.pos)
                &&& taught.keeps_clauses(self)
                &&& taught.units_hold()
                &&& self.worth() < taught.worth() <= value_bound(self.vars())
            }),
    {
        let n = self.vars();
        let cut = self.cut(back);
        let stored = cut.with_clause(clause);
        let taught = stored.assigned(clause[0], cut.learnt_reason(clause));
        trail_bounded(self.asg, self.trail, self.place, n);
        self.cut_ready(clause, back);
        self.cut_makes_learnable(clause, back);
        self.cut_keeps_sem(back, self.pos - 1);
        self.cut_keeps_units(back);
        cut.with_clause_keeps(clause);
        stored.assigned_keeps_core(clause[0], cut.learnt_reason(clause));
        cut.learn_tidy(clause);
        trail_bounded(taught.asg, taught.trail, taught.place, n);
        value_bounded(taught.starts, taught.trail.len() as int, n);
        learn_grows(self.starts, self.trail.len() as int, back, n);
        assert forall|t: int| 0 <= t < self.longs.len() implies same_lits(
            self.longs[t],
            #[trigger] taught.longs[t],
        ) by {
            assert(stored.longs[t] == self.longs[t]);
        }
        assert forall|t: int| 0 <= t < taught.units.len() implies is_true(
            taught.asg,
            #[trigger] taught.units[t],
        ) && taught.lv(taught.units[t]) == 0 by {
            if t < cut.units.len() {
                assert(taught.units[t] == cut.units[t]);
                assert(is_true(cut.asg, cut.units[t]));
            }
        }
    }

    /// Going back to the level of an asserting clause that follows from the
    /// clauses, learning it and asserting its first literal keeps the state
    /// sound and loses no model.
    pub proof fn learnt_step_sound(self, clause: Seq<Lit>, back: int)
        requires
            self.inv(),
            self.sound(),
            self.level() > 0,
            asserting(self, clause, back),
            implied(self, clause),
            clause.len() == 2 ==> self.bins.len() < usize::MAX,
            clause.len() >= 3 ==> self.longs.len() < usize::MAX,
        ensures
            ({
                let cut = self.cut(back);
                let taught = cut.with_clause(clause).assigned(clause[0], cut.learnt_reason(clause));
                &&& taught.sound()
                &&& taught.follows_from(self)
            }),
    {
        let cut = self.cut(back);
        let taught = cut.with_clause(clause).assigned(clause[0], cut.learnt_reason(clause));
        self.cut_ready(clause, back);
        self.cut_sound(back);
        cut.same_clauses_follow(self);
        assert(implied(cut, clause)) by {
            assert forall|m: Seq<bool>| #[trigger] cut.models(m) implies crate::model::clause_holds(
                m,
                clause,
            ) by {
                assert(self.models(m));
            }
        }
        cut.learnt_sound(clause);
        taught.follows_trans(cut, self);
    }

    /// Storing a learnable clause keeps the state in order and lets its
    /// first literal be asserted.
    pub proof fn with_clause_keeps(self, clause: Seq<Lit>)
        requires
            self.inv(),
            learnable(self, clause),
            clause.len() == 2 ==> self.bins.len() < usize::MAX,
            clause.len() >= 3 ==> self.longs.len() < usize::MAX,
        ensures
            self.with_clause(clause).inv(),
            reason_shape(
                self.learnt_reason(clause),
                self.vars(),
                self.with_clause(clause).bins.len() as int,
                self.with_clause(clause).longs.len() as int,
            ),
            reason_ok(
                self.asg,
                self.with_clause(clause).longs,
                self.starts,
                self.place,
                clause[0],
                self.trail.len() as int,
                PropNode { reason: self.learnt_reason(clause), level: self.starts.len() as usize },
            ),
    {
        let next = self.with_clause(clause);
        let n = self.vars();
        assert forall|k: int| 0 <= k < next.trail.len() implies reason_ok(
            next.asg,
            next.longs,
            next.starts,
            next.place,
            #[trigger] next.trail[k],
            k,
            next.graph[next.trail[k].var()],
        ) by {
            assert(reason_ok(
                self.asg,
                self.longs,
                self.starts,
                self.place,
                self.trail[k],
                k,
                self.graph[self.trail[k].var()],
            ));
            if let PropReason::Long(ClauseRef::Long(c)) = self.graph[self.trail[k].var()].reason {
                assert(next.longs[c as int] == self.longs[c as int]);
            }
        }
        assert forall|j: int| 1 <= j < clause.len() implies self.place[(#[trigger] clause[j]).var()]
            < self.trail.len() by {
            assert(is_false(self.asg, clause[j]));
            level_of_assigned(self, clause[j].var());
        }
        if clause.len() >= 2 {
            assert(clause[0].var() != clause[1].var());
            assert(clause[0].var() < n && clause[1].var() < n);
            assert forall|c: int, j: int|
                0 <= c < self.watches.len() && 0 <= j < self.watches[c].len() implies watch_ok(
                next.bins,
                next.longs,
                n,
                c,
                #[trigger] self.watches[c][j],
            ) by {
                let w = self.watches[c][j];
                assert(watch_ok(self.bins, self.longs, n, c, w));
                match w.cref {
                    ClauseRef::Binary(i) => {
                        assert(next.bins[i as int] == self.bins[i as int]);
                    },
                    ClauseRef::Long(i) => {
                        assert(next.longs[i as int] == self.longs[i as int]);
                    },
                }
            }
            assert(watches_ok(next.bins, next.longs, n, self.watches));
            if clause.len() == 2 {
                watch_added(
                    next.bins,
                    next.longs,
                    n,
                    self.watches,
                    ClauseRef::Binary(self.bins.len() as usize),
                    clause[0],
                    clause[1],
                );
            } else {
                assert forall|c: int, j: int|
                    0 <= c < self.watches.len() && 0 <= j < self.watches[c].len() implies (
                #[trigger] self.watches[c][j]).cref != ClauseRef::Long(self.longs.len() as usize) by {
                    assert(watch_ok(self.bins, self.longs, n, c, self.watches[c][j]));
                }
                watch_added(
                    next.bins,
                    next.longs,
                    n,
                    self.watches,
                    ClauseRef::Long(self.longs.len() as usize),
                    clause[0],
                    clause[1],
                );
            }
        }
        assert forall|i: int| 0 <= i < next.longs.len() implies (#[trigger] next.longs[i]).len() >= 3
            && lits_below(next.longs[i], n) && distinct_vars(next.longs[i]) by {
            if i < self.longs.len() {
                assert(next.longs[i] == self.longs[i]);
            }
        }
        assert forall|i: int| 0 <= i < next.bins.len() implies (#[trigger] next.bins[i]).0.var() < n
            && next.bins[i].1.var() < n && next.bins[i].0.var() != next.bins[i].1.var() by {
            if i < self.bins.len() {
                assert(next.bins[i] == self.bins[i]);
            }
        }
        assert forall|i: int| 0 <= i < next.units.len() implies (#[trigger] next.units[i]).var()
            < n by {
            if i < self.units.len() {
                assert(next.units[i] == self.units[i]);
            }
        }
    }
}

impl Solver {
    /// Learns from a conflict: analyzes it, goes back to the level that the
    /// analysis gives, and takes the learned clause in. Returns `false`, and
    /// changes nothing, where the conflict stands at level 0: there is
    /// nothing to learn then.
    pub(crate) fn resolve_conflict(&mut self, conflict: Conflict) -> (learned: bool)
        requires
            old(self)@.inv(),
            watch_complete(old(self)@.bins, old(self)@.longs, old(self)@.watches),
            old(self)@.conflict_ok(conflict.lits()),
            old(self)@.pos >= 1,
            old(self)@.watch_sem(old(self)@.pos - 1),
            old(self)@.starts.len() > 0 ==> old(self)@.starts.last() < old(self)@.pos,
            old(self)@.units_hold(),
            old(self)@.sound(),
            old(self)@.from_db(conflict.lits()),
            old(self)@.accounted(old(self).default_polarity),
        ensures
            learned ==> final(self)@.mentions_within(old(self)@),
            learned == (old(self)@.level() > 0),
            learned ==> final(self)@ == old(self)@.learnt_from(conflict.clash()),
            learned ==> final(self)@.accounted(old(self).default_polarity),
            !learned ==> final(self)@ == old(self)@ && old(self)@.unsatisfiable(),
            learned ==> final(self)@.sound() && final(self)@.follows_from(old(self)@),
            learned ==> final(self)@.tidy(final(self)@.pos) && final(self)@.keeps_clauses(
                old(self)@,
            ) && final(self)@.units_hold() && old(self)@.worth() < final(self)@.worth()
                <= value_bound(old(self)@.vars()),
            final(self).state == old(self).state,
            final(self).default_polarity == old(self).default_polarity,
            final(self).max_lit_index == old(self).max_lit_index,
    {
        let ghost before = self@;
        proof {
            assert(conflict.clash().lits() == conflict.lits());
        }
        let backtrack_level = self.analyze_conflict(conflict);
        let ghost learnt = self.analyze_conflict.learnt_clause@;
        proof {
            if before.level() > 0 {
                before.cut_ready(learnt, backtrack_level as int);
            }
        }
        self.backtrack(backtrack_level);
        match self.analyze_conflict.get_learnt_clause() {
            Some(clause) => {
                self.learn(&clause);
                proof {
                    assert(self.clause_db.binary_clauses.len() == self@.bins.len());
                    assert(self.clause_db.long_clauses.len() == self@.longs.len());
                    before.learnt_step(clause@, backtrack_level as int);
                    before.accounted_learnt(
                        clause@,
                        backtrack_level as int,
                        self.default_polarity,
                    );
                    before.learnt_mentions(clause@, backtrack_level as int);
                    before.learnt_step_sound(clause@, backtrack_level as int);
                }
                true
            },
            None => false,
        }
    }

    /// Stores the learned clause, watches it where it has two literals or
    /// more, and makes its first literal true with the clause as its reason.
    pub(crate) fn learn(&mut self, clause: &Vec<Lit>)
        requires
            old(self)@.inv(),
            learnable(old(self)@, clause@),
        ensures
            final(self)@ == old(self)@.with_clause(clause@).assigned(
                clause@[0],
                old(self)@.learnt_reason(clause@),
            ),
            final(self)@.inv(),
            final(self).state == old(self).state,
            final(self).default_polarity == old(self).default_polarity,
            final(self).max_lit_index == old(self).max_lit_index,
            final(self).analyze_conflict == old(self).analyze_conflict,
    {
        let ghost before = self@;
        let added = self.clause_db.add_clause(clause.as_slice());
        proof {
            assert(self.clause_db.binary_clauses.len() == self@.bins.len());
            assert(self.clause_db.long_clauses.len() == self@.longs.len());
            before.with_clause_keeps(clause@);
        }
        let reason = match added {
            Some(cref) => {
                self.watch_lists.watch_clause(cref, clause[0], clause[1]);
                match cref {
                    ClauseRef::Binary(_) => PropReason::Binary(clause[1]),
                    ClauseRef::Long(_) => PropReason::Long(cref),
                }
            },
            None => PropReason::Unit,
        };
        assert(self@ == before.with_clause(clause@));
        self.add_assign(&clause[0], reason);
    }
}

} // verus!
