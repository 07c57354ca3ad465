//! The steps of scanning a detached watch list, each with what it keeps.

use crate::graph::{PropNode, PropReason};
use crate::lit::Lit;
use crate::prop::{same_sem, settled_grows};
use crate::solver::ClauseRef;
use crate::state::{is_false, is_true, lit_of, reason_ok, reason_shape, watch_ok, State};
use crate::walk::Clash;
use crate::watch::Watch;
use crate::watching::watch_complete;
use vstd::prelude::*;

verus! {

impl State {
    /// What is known at the watch at position `at` of a list under scan.
    pub proof fn scan_facts(self, lit: Lit, local: Seq<Watch>, at: int)
        requires
            self.scanning(lit, local, at),
            0 <= at < local.len(),
        ensures
            watch_ok(self.bins, self.longs, self.vars(), lit.spec_code() as int, local[at]),
            lit_of(lit.spec_code() as int) == lit,
            lit.var() < self.vars(),
            lit.spec_code() < self.watches.len(),
            self.lv(lit) == self.level(),
            is_true(self.asg, lit),
            is_false(self.asg, lit.neg()),
            self.place[lit.var()] == self.pos - 1,
            local[at].cref matches ClauseRef::Long(c) ==> c < self.longs.len()
                && self.longs[c as int].len() >= 3 && (self.longs[c as int][0] == lit.neg()
                || self.longs[c as int][1] == lit.neg()),
    {
        let code = lit.spec_code() as int;
        let full = self.watches.update(code, local);
        self.last_done_level(lit);
        assert(lit.var() < self.vars());
        assert(full[code][at] == local[at]);
        assert(watch_ok(self.bins, self.longs, self.vars(), code, full[code][at]));
    }

    /// The state with the watch list of `lit` put back as `local`.
    pub open spec fn attached(self, lit: Lit, local: Seq<Watch>) -> State {
        State { watches: self.watches.update(lit.spec_code() as int, local), ..self }
    }

    /// The state with the next literal of the trail taken up and its watch
    /// list detached.
    pub open spec fn taken(self) -> State {
        State {
            pos: self.pos + 1,
            watches: self.watches.update(
                self.trail[self.pos].spec_code() as int,
                Seq::<Watch>::empty(),
            ),
            ..self
        }
    }

    /// Taking up the next literal of a tidy state starts the scan of its
    /// watch list.
    pub proof fn taken_scans(self)
        requires
            self.tidy(self.pos),
            self.pos < self.trail.len(),
        ensures
            self.taken().scanning(
                self.trail[self.pos],
                self.watches[self.trail[self.pos].spec_code() as int],
                0,
            ),
            self.taken().grows_from(self),
    {
        let lit = self.trail[self.pos];
        let next = self.taken();
        assert(lit.var() < self.vars());
        assert(next.watches.update(lit.spec_code() as int, self.watches[lit.spec_code() as int])
            =~= self.watches);
        same_sem(self, next, self.pos);
    }

    /// Putting back a list that has been scanned to its end leaves the state
    /// tidy.
    pub proof fn attached_tidy(self, lit: Lit, local: Seq<Watch>)
        requires
            self.scanning(lit, local, local.len() as int),
        ensures
            self.attached(lit, local).tidy(self.pos),
            self.attached(lit, local).grows_from(self),
    {
        self.scan_done(lit, local);
        same_sem(self, self.attached(lit, local), self.pos);
    }

    /// Putting back a list whose scan ended in a conflict leaves the state
    /// in order, with everything before the literal under scan propagated.
    pub proof fn attached_after_conflict(self, lit: Lit, local: Seq<Watch>, at: int, lits: Seq<Lit>)
        requires
            self.scanning(lit, local, at),
            self.conflict_ok(lits),
            self.from_db(lits),
        ensures
            self.attached(lit, local).inv(),
            watch_complete(self.bins, self.longs, self.attached(lit, local).watches),
            self.attached(lit, local).watch_sem(self.pos - 1),
            self.attached(lit, local).conflict_ok(lits),
            self.attached(lit, local).from_db(lits),
            self.attached(lit, local).grows_from(self),
            self.pos >= 1,
            self.starts.len() > 0 ==> self.starts.last() < self.pos,
    {
        let next = self.attached(lit, local);
        same_sem(self, next, self.pos - 1);
        let j = choose|j: int| 0 <= j < lits.len() && self.lv(#[trigger] lits[j]) == self.level();
        assert(next.lv(lits[j]) == next.level());
        if exists|i: int| 0 <= i < self.longs.len() && #[trigger] self.longs[i] == lits {
            let i = choose|i: int| 0 <= i < self.longs.len() && #[trigger] self.longs[i] == lits;
            assert(next.longs[i] == lits);
        } else {
            let i = choose|i: int|
                0 <= i < self.bins.len() && lits.len() == 2 && (((#[trigger] self.bins[i]).0
                    == lits[0] && self.bins[i].1 == lits[1]) || (self.bins[i].0 == lits[1]
                    && self.bins[i].1 == lits[0]));
            assert(next.bins[i] == self.bins[i]);
        }
    }

    /// A watch whose clause has a true literal is passed over.
    pub proof fn passed_over(self, lit: Lit, local: Seq<Watch>, at: int)
        requires
            self.scanning(lit, local, at),
            0 <= at < local.len(),
            is_true(self.asg, local[at].blocking),
        ensures
            self.scanning(lit, local, at + 1),
    {
        self.scan_facts(lit, local, at);
        if let ClauseRef::Long(c) = local[at].cref {
            let clause = self.longs[c as int];
            let t = choose|t: int| 0 <= t < clause.len() && clause[t] == local[at].blocking;
            assert(is_true(self.asg, clause[t]));
        }
    }

    /// Bringing the literal under scan to the second place of a long clause
    /// keeps the scan going.
    pub proof fn front_swapped(self, lit: Lit, local: Seq<Watch>, at: int, idx: int)
        requires
            self.scanning(lit, local, at),
            0 <= at < local.len(),
            local[at].cref is Long,
            local[at].cref->Long_0 == idx,
            self.longs[idx][0] == lit.neg(),
        ensures
            self.with_swap(idx, 0, 1).scanning(lit, local, at),
            self.with_swap(idx, 0, 1).grows_from(self),
    {
        let code = lit.spec_code() as int;
        let full = self.watches.update(code, local);
        self.scan_facts(lit, local, at);
        self.swap_front_keeps(idx, full);
        self.swap_front_tidy(idx, full, self.pos - 1);
    }

    /// Where the first literal of a long clause is true, the watch stays
    /// with that literal as its blocking literal.
    pub proof fn reblocked(self, lit: Lit, local: Seq<Watch>, at: int, idx: int)
        requires
            self.scanning(lit, local, at),
            0 <= at < local.len(),
            local[at].cref is Long,
            local[at].cref->Long_0 == idx,
            is_true(self.asg, self.longs[idx][0]),
        ensures
            self.scanning(
                lit,
                local.update(at, Watch { cref: local[at].cref, blocking: self.longs[idx][0] }),
                at + 1,
            ),
    {
        let code = lit.spec_code() as int;
        let n = self.vars();
        let full = self.watches.update(code, local);
        let w = Watch { cref: local[at].cref, blocking: self.longs[idx][0] };
        let updated = local.update(at, w);
        let next = full.update(code, updated);
        self.scan_facts(lit, local, at);
        assert(next =~= self.watches.update(code, updated));
        assert(self.longs[idx].contains(self.longs[idx][0]));
        assert(self.longs[idx][0].var() < n);
        assert forall|c: int, j: int| 0 <= c < next.len() && 0 <= j < next[c].len() implies watch_ok(
            self.bins,
            self.longs,
            n,
            c,
            #[trigger] next[c][j],
        ) by {
            if c == code && j == at {
            } else {
                assert(next[c][j] == full[c][j]);
            }
        }
        assert forall|c: int, a: int, b: int|
            0 <= c < next.len() && 0 <= a < b < next[c].len() && next[c][a].cref is Long implies (
        #[trigger] next[c][a]).cref != (#[trigger] next[c][b]).cref by {
            assert(next[c][a].cref == full[c][a].cref);
            assert(next[c][b].cref == full[c][b].cref);
        }
        Self::update_keeps_complete(self.bins, self.longs, full, code, at, w);
        assert forall|j: int| 0 <= j < at + 1 implies self.settled(#[trigger] updated[j]) by {
            if j < at {
                assert(self.settled(local[j]));
            }
        }
    }

    /// The state after the long clause `idx` has been watched on the literal
    /// at position `k` in place of its second literal.
    pub open spec fn rewatched(self, idx: int, k: int) -> State {
        let target = self.longs[idx][k];
        let rc = target.neg().spec_code() as int;
        State {
            watches: self.watches.update(
                rc,
                self.watches[rc].push(
                    Watch { cref: ClauseRef::Long(idx as usize), blocking: self.longs[idx][0] },
                ),
            ),
            ..self.with_swap(idx, 1, k)
        }
    }

    /// Watching a long clause on a literal that is not false, in place of
    /// the literal under scan, keeps the scan going with the watch gone from
    /// the list.
    pub proof fn rewatched_scans(self, lit: Lit, local: Seq<Watch>, at: int, idx: int, k: int)
        requires
            self.scanning(lit, local, at),
            0 <= at < local.len(),
            local[at].cref is Long,
            local[at].cref->Long_0 == idx,
            self.longs[idx][1] == lit.neg(),
            2 <= k < self.longs[idx].len(),
            !is_false(self.asg, self.longs[idx][k]),
        ensures
            self.longs[idx][k].neg().spec_code() != lit.spec_code(),
            self.longs[idx][k].neg().spec_code() < self.watches.len(),
            self.rewatched(idx, k).scanning(lit, local.remove(at), at),
            self.rewatched(idx, k).grows_from(self),
    {
        let code = lit.spec_code() as int;
        let full = self.watches.update(code, local);
        let next = self.rewatched(idx, k);
        let swapped_state = self.with_swap(idx, 1, k);
        let target = self.longs[idx][k];
        let rest = local.remove(at);
        self.scan_facts(lit, local, at);
        assert(full[code][at] == local[at]);
        self.swap_tail_keeps(idx, k, full, code, at);
        self.swap_tail_tidy(idx, k, full, code, at, self.pos - 1);
        assert(next.watches.update(code, rest) =~= Self::moved(
            full,
            code,
            at,
            target,
            self.longs[idx][0],
        ));
        same_sem(swapped_state, next, self.pos - 1);
        assert forall|j: int| 0 <= j < at implies next.settled(#[trigger] rest[j]) by {
            assert(rest[j] == local[j]);
            assert(self.settled(local[j]));
            assert(swapped_state.settled(local[j]));
        }
        assert(swapped_state.grows_from(self));
    }

    /// A long clause whose literals are false but for the first, which has
    /// no value, forces the first; the watch stays.
    pub proof fn forced_scans(self, lit: Lit, local: Seq<Watch>, at: int, idx: int)
        requires
            self.scanning(lit, local, at),
            0 <= at < local.len(),
            local[at].cref is Long,
            local[at].cref->Long_0 == idx,
            self.longs[idx][1] == lit.neg(),
            forall|j: int|
                2 <= j < self.longs[idx].len() ==> is_false(self.asg, #[trigger] self.longs[idx][j]),
            self.asg[self.longs[idx][0].var()] is None,
        ensures
            self.longs[idx][0].var() < self.vars(),
            reason_shape(
                PropReason::Long(local[at].cref),
                self.vars(),
                self.bins.len() as int,
                self.longs.len() as int,
            ),
            reason_ok(
                self.asg,
                self.longs,
                self.starts,
                self.place,
                self.longs[idx][0],
                self.trail.len() as int,
                PropNode {
                    reason: PropReason::Long(local[at].cref),
                    level: self.starts.len() as usize,
                },
            ),
            self.assigned(self.longs[idx][0], PropReason::Long(local[at].cref)).scanning(
                lit,
                local,
                at + 1,
            ),
            self.assigned(self.longs[idx][0], PropReason::Long(local[at].cref)).grows_from(self),
    {
        let first = self.longs[idx][0];
        let reason = PropReason::Long(local[at].cref);
        let next = self.assigned(first, reason);
        self.scan_facts(lit, local, at);
        assert(first.var() < self.vars());
        assert forall|j: int| 1 <= j < self.longs[idx].len() implies is_false(
            self.asg,
            #[trigger] self.longs[idx][j],
        ) && self.place[self.longs[idx][j].var()] < self.trail.len() by {
            let x = self.longs[idx][j];
            assert(x.var() < self.vars());
            assert(self.asg[x.var()] is Some);
        }
        self.assigned_keeps_core(first, reason);
        self.assigned_keeps_sem(first, reason, self.pos - 1);
        assert(is_true(next.asg, next.longs[idx][0]));
        assert forall|j: int| 0 <= j < at + 1 implies next.settled(#[trigger] local[j]) by {
            if j < at {
                self.scan_facts(lit, local, j);
                assert(self.settled(local[j]));
                settled_grows(self, next, local[j]);
            }
        }
    }

    /// A long clause whose literals are all false is a conflict.
    pub proof fn long_conflict(self, lit: Lit, local: Seq<Watch>, at: int, idx: int)
        requires
            self.scanning(lit, local, at),
            0 <= at < local.len(),
            local[at].cref is Long,
            local[at].cref->Long_0 == idx,
            self.longs[idx][1] == lit.neg(),
            forall|j: int|
                2 <= j < self.longs[idx].len() ==> is_false(self.asg, #[trigger] self.longs[idx][j]),
            is_false(self.asg, self.longs[idx][0]),
        ensures
            self.conflict_ok(self.longs[idx]),
            self.from_db(self.longs[idx]),
    {
        let lits = self.longs[idx];
        self.scan_facts(lit, local, at);
        assert forall|j: int| 0 <= j < lits.len() implies is_false(self.asg, #[trigger] lits[j]) by {
            if j >= 2 {
                assert(is_false(self.asg, self.longs[idx][j]));
            }
        }
        assert(self.lv(lits[1]) == self.level());
    }

    /// A binary clause whose other literal has no value forces it; the watch
    /// stays.
    pub proof fn bin_forced(self, lit: Lit, local: Seq<Watch>, at: int)
        requires
            self.scanning(lit, local, at),
            0 <= at < local.len(),
            local[at].cref is Binary,
            local[at].blocking.value_under(self.asg) is None,
        ensures
            local[at].blocking.var() < self.vars(),
            reason_shape(
                PropReason::Binary(lit.neg()),
                self.vars(),
                self.bins.len() as int,
                self.longs.len() as int,
            ),
            reason_ok(
                self.asg,
                self.longs,
                self.starts,
                self.place,
                local[at].blocking,
                self.trail.len() as int,
                PropNode { reason: PropReason::Binary(lit.neg()), level: self.starts.len() as usize },
            ),
            self.assigned(local[at].blocking, PropReason::Binary(lit.neg())).scanning(
                lit,
                local,
                at + 1,
            ),
            self.assigned(local[at].blocking, PropReason::Binary(lit.neg())).grows_from(self),
    {
        let other = local[at].blocking;
        let reason = PropReason::Binary(lit.neg());
        let next = self.assigned(other, reason);
        self.scan_facts(lit, local, at);
        self.assigned_keeps_core(other, reason);
        self.assigned_keeps_sem(other, reason, self.pos - 1);
        assert forall|j: int| 0 <= j < at + 1 implies next.settled(#[trigger] local[j]) by {
            if j < at {
                self.scan_facts(lit, local, j);
                assert(self.settled(local[j]));
                settled_grows(self, next, local[j]);
            }
        }
    }

    /// A binary clause whose other literal is false is a conflict.
    pub proof fn bin_conflict(self, lit: Lit, local: Seq<Watch>, at: int)
        requires
            self.scanning(lit, local, at),
            0 <= at < local.len(),
            local[at].cref is Binary,
            is_false(self.asg, local[at].blocking),
        ensures
            self.conflict_ok(seq![lit.neg(), local[at].blocking]),
            self.from_db(seq![lit.neg(), local[at].blocking]),
    {
        let lits = seq![lit.neg(), local[at].blocking];
        self.scan_facts(lit, local, at);
        assert(self.lv(lits[0]) == self.level());
        let i = local[at].cref->Binary_0 as int;
        assert(0 <= i < self.bins.len() && lits.len() == 2 && ((self.bins[i].0 == lits[0]
            && self.bins[i].1 == lits[1]) || (self.bins[i].0 == lits[1] && self.bins[i].1
            == lits[0])));
    }

    /// The clause of a binary watch is stored with the negation of the
    /// literal under scan and the watch's blocking literal.
    pub proof fn bin_stored(self, lit: Lit, local: Seq<Watch>, at: int)
        requires
            self.scanning(lit, local, at),
            0 <= at < local.len(),
            local[at].cref is Binary,
        ensures
            Clash::Binary(lit.neg(), local[at].blocking).stored(self),
            exists|i: int|
                0 <= i < self.bins.len() && (#[trigger] self.bins[i] == (
                    local[at].blocking,
                    lit.neg(),
                ) || self.bins[i] == (lit.neg(), local[at].blocking)),
    {
        self.scan_facts(lit, local, at);
        let i = local[at].cref->Binary_0 as int;
        assert(self.bins[i] == (local[at].blocking, lit.neg()) || self.bins[i] == (
            lit.neg(),
            local[at].blocking,
        ));
    }
}

} // verus!
