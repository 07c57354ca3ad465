//! The decision rule: the first unassigned variable, with the solver's
//! default polarity.

use crate::graph::{PropNode, PropReason};
use crate::lit::Lit;
use crate::measure::{decide_grows, value_bound, value_bounded};
use crate::moves::trail_bounded;
use crate::solver::Solver;
use crate::state::{at_level, is_true, reason_ok, State};
use vstd::prelude::*;

verus! {

/// `v` is the first variable without a value.
pub open spec fn first_open(asg: Seq<Option<bool>>, v: int) -> bool {
    &&& 0 <= v < asg.len()
    &&& asg[v] is None
    &&& forall|u: int| 0 <= u < v ==> (#[trigger] asg[u]) is Some
}

impl State {
    /// The state after a decision level has been opened at the end of the
    /// trail.
    pub open spec fn opened(self) -> State {
        State { starts: self.starts.push(self.trail.len() as usize), ..self }
    }

    /// Opening a level once everything is propagated keeps the state in
    /// order, and lets a decision be the first literal of the new level.
    pub proof fn opened_keeps_core(self, lit: Lit)
        requires
            self.core_ok(),
            self.pos == self.trail.len(),
            self.starts.len() < usize::MAX,
            self.trail.len() <= usize::MAX,
        ensures
            self.opened().core_open(),
            reason_ok(
                self.opened().asg,
                self.opened().longs,
                self.opened().starts,
                self.opened().place,
                lit,
                self.trail.len() as int,
                PropNode { reason: PropReason::Unit, level: self.opened().starts.len() as usize },
            ),
    {
        let next = self.opened();
        assert forall|k: int| 0 <= k < next.trail.len() implies at_level(
            next.starts,
            k,
            next.graph[(#[trigger] next.trail[k]).var()].level as int,
        ) by {
            assert(at_level(self.starts, k, self.graph[self.trail[k].var()].level as int));
        }
        assert forall|k: int| 0 <= k < next.trail.len() implies reason_ok(
            next.asg,
            next.longs,
            next.starts,
            next.place,
            #[trigger] next.trail[k],
            k,
            next.graph[next.trail[k].var()],
        ) by {
            assert(at_level(self.starts, k, self.graph[self.trail[k].var()].level as int));
            assert(reason_ok(
                self.asg,
                self.longs,
                self.starts,
                self.place,
                self.trail[k],
                k,
                self.graph[self.trail[k].var()],
            ));
        }
    }
}

impl Solver {
    /// Opens a decision level and makes the first unassigned variable true or
    /// false by the default polarity. Returns `false`, and changes nothing,
    /// where every variable has a value.
    pub(crate) fn make_decision(&mut self) -> (decided: bool)
        requires
            old(self)@.tidy(old(self)@.pos),
            old(self)@.sound(),
            old(self)@.pos == old(self)@.trail.len(),
            old(self)@.units_hold(),
        ensures
            final(self)@.tidy(final(self)@.pos),
            final(self)@.sound(),
            final(self)@.keeps_clauses(old(self)@),
            final(self)@.units_hold(),
            decided ==> old(self)@.worth() < final(self)@.worth() <= value_bound(
                old(self)@.vars(),
            ),
            !decided ==> final(self)@ == old(self)@ && forall|v: int|
                0 <= v < old(self)@.vars() ==> (#[trigger] old(self)@.asg[v]) is Some,
            decided ==> final(self)@ == old(self)@.decided(old(self).default_polarity),
            decided == !old(self)@.total(),
            decided ==> first_open(old(self)@.asg, final(self)@.trail.last().var())
                && final(self)@.trail.last().positive() == old(self).default_polarity
                && final(self)@ == old(self)@.opened().assigned(
                final(self)@.trail.last(),
                PropReason::Unit,
            ),
            final(self).state == old(self).state,
            final(self).default_polarity == old(self).default_polarity,
            final(self).max_lit_index == old(self).max_lit_index,
            final(self).analyze_conflict == old(self).analyze_conflict,
    {
        let mut index: usize = 0;
        while index < self.assignment.assignment.len() && self.assignment.assignment[index].is_some()
            invariant
                index <= self.assignment.assignment.len(),
                forall|u: int| 0 <= u < index ==> (#[trigger] self.assignment@[u]) is Some,
            decreases self.assignment.assignment.len() - index,
        {
            index += 1;
        }
        if index < self.assignment.assignment.len() {
            let decision = Lit::from_index(index, self.default_polarity);
            let ghost before = self@;
            self.prop_queue.new_decision_level();
            proof {
                assert(self.prop_queue.level_with_trail_len.len() == before.starts.len() + 1);
                assert(self.prop_queue.trail.len() == before.trail.len());
                before.opened_keeps_core(decision);
                before.decided_sound(decision);
                before.opened_keeps_sem(before.pos);
                before.opened().assigned_keeps_sem(decision, PropReason::Unit, before.pos);
            }
            self.add_assign(&decision, PropReason::Unit);
            proof {
                let first = choose|v: int| first_open(before.asg, v);
                assert(first_open(before.asg, index as int));
                assert(first == index) by {
                    if first < index {
                        assert(before.asg[first] is Some);
                    } else if index < first {
                        assert(before.asg[index as int] is Some);
                    }
                }
                let after = self@;
                let n = before.vars();
                trail_bounded(after.asg, after.trail, after.place, n);
                value_bounded(after.starts, after.trail.len() as int, n);
                decide_grows(before.starts, before.trail.len() as int, before.trail.len() as int, n);
                assert forall|t: int| 0 <= t < after.units.len() implies is_true(
                    after.asg,
                    #[trigger] after.units[t],
                ) && after.lv(after.units[t]) == 0 by {
                    assert(is_true(before.asg, before.units[t]));
                }
            }
            true
        } else {
            false
        }
    }
}

} // verus!
