//! The search as a function of the state: which state and which verdict
//! the solver ends with, step by step in the order in which it works.

use crate::decision::first_open;
use crate::graph::PropReason;
use crate::lit::Lit;
use crate::measure::value_bound;
use crate::solver::SolveState;
use crate::state::State;
use crate::walk::Clash;
use crate::watch::all_watched;
use vstd::prelude::*;

verus! {

impl State {
    /// The state after the unit clauses from position `from` on have been
    /// asserted in order, and whether one of them was found false, at which
    /// the others are left alone. A unit clause without a value is made
    /// true without a reason; a true one is passed over.
    pub open spec fn units_asserted(self, from: int) -> (State, bool)
        decreases self.units.len() - from,
    {
        if from < 0 || from >= self.units.len() {
            (self, false)
        } else {
            match self.units[from].value_under(self.asg) {
                None => self.assigned(self.units[from], PropReason::Unit).units_asserted(
                    from + 1,
                ),
                Some(true) => self.units_asserted(from + 1),
                Some(false) => (self, true),
            }
        }
    }

    /// The state after a decision: a level is opened and the first variable
    /// without a value gets the value `polarity`, without a reason.
    pub open spec fn decided(self, polarity: bool) -> State {
        let v = choose|v: int| first_open(self.asg, v);
        self.opened().assigned(Lit::of(v, polarity), PropReason::Unit)
    }

    /// The state after the solver has learned from the falsified clause
    /// `clash`: it has gone back to the level of the second literal of the
    /// learned clause, has stored and watched the clause, and has made its
    /// first literal true with the clause as the reason.
    pub open spec fn learnt_from(self, clash: Clash) -> State {
        let learnt = self.learned(clash.lits());
        let back = self.cut(self.back_level(learnt));
        back.with_clause(learnt).assigned(learnt[0], back.learnt_reason(learnt))
    }

    /// The state that the search ends with, and whether it ends with a
    /// conflict at level 0. Each round propagates; without a conflict it
    /// ends where every variable has a value, and decides where not; with a
    /// conflict it ends at level 0, and learns above it. Each decision and
    /// each learned clause makes the trail worth more, as the last test
    /// says, so the rounds come to an end.
    pub open spec fn search(self, polarity: bool) -> (State, bool)
        decreases value_bound(self.vars()) - self.worth(),
    {
        let ran = self.run();
        let next = match ran.1 {
            None => ran.0.decided(polarity),
            Some(clash) => ran.0.learnt_from(clash),
        };
        if ran.1 is None && ran.0.total() {
            (ran.0, false)
        } else if ran.1 is Some && ran.0.level() == 0 {
            (ran.0, true)
        } else if next.vars() == self.vars() && self.worth() < next.worth() <= value_bound(
            self.vars(),
        ) {
            next.search(polarity)
        } else {
            (next, false)
        }
    }

    /// The state and the verdict that solving ends with, from the state
    /// before anything is assigned or watched: every binary and long clause
    /// is watched, the unit clauses are asserted, and the search runs. The
    /// verdict is `Unsat` where a unit clause is false or the search ends
    /// with a conflict, and else what the last look at the binary and long
    /// clauses gives.
    pub open spec fn solved(self, polarity: bool) -> (State, SolveState) {
        let watched = State {
            watches: all_watched(self.watches, self.bins, self.longs),
            ..self
        };
        let asserted = watched.units_asserted(0);
        let found = asserted.0.search(polarity);
        if asserted.1 {
            (asserted.0, SolveState::Unsat)
        } else if found.1 || !found.0.watched_sat() {
            (found.0, SolveState::Unsat)
        } else {
            (found.0, SolveState::Sat)
        }
    }
}

} // verus!
