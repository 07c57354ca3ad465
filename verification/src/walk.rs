//! Unit propagation as a function of the state: what the visit of one watch
//! does, what the scan of a watch list does, and what propagation to the
//! end does, each in the order in which the solver works.

use crate::graph::PropReason;
use crate::lit::Lit;
use crate::solver::ClauseRef;
use crate::state::{is_false, is_true, State};
use crate::watch::Watch;
use vstd::prelude::*;

verus! {

/// A clause found with every literal false.
pub enum Clash {
    /// A binary clause: the negation of the literal propagated, then the
    /// other literal.
    Binary(Lit, Lit),
    /// A long clause, its literals in the order in which they are stored.
    Long(Seq<Lit>),
}

impl Clash {
    /// The literals of the clause.
    pub open spec fn lits(self) -> Seq<Lit> {
        match self {
            Clash::Binary(a, b) => seq![a, b],
            Clash::Long(lits) => lits,
        }
    }

    /// The clause is among the clauses of `st`: a binary one among the
    /// binary clauses, in either order of its literals, a long one among
    /// the long clauses.
    pub open spec fn stored(self, st: State) -> bool {
        match self {
            Clash::Binary(a, b) => exists|i: int|
                0 <= i < st.bins.len() && (#[trigger] st.bins[i] == (a, b) || st.bins[i] == (b, a)),
            Clash::Long(lits) => exists|i: int|
                0 <= i < st.longs.len() && #[trigger] st.longs[i] == lits,
        }
    }
}

/// What becomes of a watch when it is visited.
pub enum Step {
    /// The watch stays as it is.
    Keep,
    /// The watch stays, with a new blocking literal.
    Update(Watch),
    /// The watch leaves the list.
    Moved,
    /// The clause is false; the scan ends.
    Stop(Clash),
}

/// The first position from `from` on at which `clause` holds a literal that
/// is not false, or the length of `clause` where there is none.
pub open spec fn first_unfalse(asg: Seq<Option<bool>>, clause: Seq<Lit>, from: int) -> int
    decreases clause.len() - from,
{
    if from >= clause.len() {
        clause.len() as int
    } else if !is_false(asg, clause[from]) {
        from
    } else {
        first_unfalse(asg, clause, from + 1)
    }
}

impl State {
    /// The visit of a watch on the long clause `idx` while `lit` is
    /// propagated. A true blocking literal ends it. Else the negation of
    /// `lit` goes to the second place of the clause; a true first literal
    /// becomes the blocking literal; else the first later literal that is not
    /// false takes the second place and the watch; else the clause is false
    /// or forces its first literal.
    pub open spec fn visit_long(self, lit: Lit, watch: Watch, idx: int) -> (State, Step) {
        if is_true(self.asg, watch.blocking) {
            (self, Step::Keep)
        } else {
            let mid = if self.longs[idx][0] == lit.neg() {
                self.with_swap(idx, 0, 1)
            } else {
                self
            };
            let first = mid.longs[idx][0];
            let k = first_unfalse(mid.asg, mid.longs[idx], 2);
            if first != watch.blocking && is_true(mid.asg, first) {
                (mid, Step::Update(Watch { cref: watch.cref, blocking: first }))
            } else if k < mid.longs[idx].len() {
                (mid.rewatched(idx, k), Step::Moved)
            } else if is_false(mid.asg, first) {
                (mid, Step::Stop(Clash::Long(mid.longs[idx])))
            } else {
                (mid.assigned(first, PropReason::Long(watch.cref)), Step::Keep)
            }
        }
    }

    /// The visit of the watch `watch` while `lit` is propagated. The other
    /// literal of a binary clause is forced where it has no value, and the
    /// clause is false where that literal is false.
    pub open spec fn visit(self, lit: Lit, watch: Watch) -> (State, Step) {
        match watch.cref {
            ClauseRef::Binary(_) => match watch.blocking.value_under(self.asg) {
                Some(false) => (self, Step::Stop(Clash::Binary(lit.neg(), watch.blocking))),
                None => (
                    self.assigned(watch.blocking, PropReason::Binary(lit.neg())),
                    Step::Keep,
                ),
                Some(true) => (self, Step::Keep),
            },
            ClauseRef::Long(index) => self.visit_long(lit, watch, index as int),
        }
    }

    /// The scan of the detached list `local` from position `at` on while
    /// `lit` is propagated: the state and the list at the end, and the
    /// clause found false, at which the scan ends with the rest of the list
    /// unvisited.
    pub open spec fn scan(self, lit: Lit, local: Seq<Watch>, at: int) -> (
        State,
        Seq<Watch>,
        Option<Clash>,
    )
        decreases local.len() - at,
    {
        if at < 0 || at >= local.len() {
            (self, local, None)
        } else {
            let visited = self.visit(lit, local[at]);
            match visited.1 {
                Step::Keep => visited.0.scan(lit, local, at + 1),
                Step::Update(w) => visited.0.scan(lit, local.update(at, w), at + 1),
                Step::Moved => visited.0.scan(lit, local.remove(at), at),
                Step::Stop(clash) => (visited.0, local, Some(clash)),
            }
        }
    }

    /// Propagation to the end: the literals of the trail are taken up in
    /// order from the first that is not propagated yet, the watch list of
    /// each is detached, scanned and put back, and the first clause found
    /// false ends it. A scan changes neither the number of variables nor
    /// that of the literals propagated; the last test says so.
    pub open spec fn run(self) -> (State, Option<Clash>)
        decreases self.vars() - self.pos,
    {
        if self.pos < 0 || self.pos >= self.trail.len() || self.pos >= self.vars() {
            (self, None)
        } else {
            let lit = self.trail[self.pos];
            let scanned = self.taken().scan(lit, self.watches[lit.spec_code() as int], 0);
            let next = scanned.0.attached(lit, scanned.1);
            if scanned.2 is Some || next.pos != self.pos + 1 || next.vars() != self.vars() {
                (next, scanned.2)
            } else {
                next.run()
            }
        }
    }

    /// The literal at position `k` of the trail was forced by a stored
    /// clause: its reason is the other literal of a binary clause that holds
    /// both, or a long clause with the literal in the first place.
    pub open spec fn forced_at(self, k: int) -> bool {
        match self.graph[self.trail[k].var()].reason {
            PropReason::Binary(other) => exists|i: int|
                0 <= i < self.bins.len() && (#[trigger] self.bins[i] == (self.trail[k], other)
                    || self.bins[i] == (other, self.trail[k])),
            PropReason::Long(ClauseRef::Long(c)) => c < self.longs.len()
                && self.longs[c as int][0] == self.trail[k],
            _ => false,
        }
    }

    /// Every literal of the trail from position `from` on was forced by a
    /// stored clause.
    pub open spec fn forced_from(self, from: int) -> bool {
        forall|k: int| from <= k < self.trail.len() ==> #[trigger] self.forced_at(k)
    }

    /// A change that leaves the trail, the graph and the binary clauses as
    /// they are, and the long clauses too or the reasons in order, keeps
    /// what was forced.
    pub proof fn forced_kept(self, old: State, from: int)
        requires
            old.forced_from(from),
            0 <= from,
            self.trail == old.trail,
            self.graph == old.graph,
            self.bins == old.bins,
            self.longs == old.longs || self.core_ok(),
        ensures
            self.forced_from(from),
    {
        assert forall|k: int| from <= k < self.trail.len() implies #[trigger] self.forced_at(k) by {
            assert(old.forced_at(k));
            match self.graph[self.trail[k].var()].reason {
                PropReason::Binary(other) => {
                    let i = choose|i: int|
                        0 <= i < old.bins.len() && (#[trigger] old.bins[i] == (old.trail[k], other)
                            || old.bins[i] == (other, old.trail[k]));
                    assert(self.bins[i] == old.bins[i]);
                },
                _ => {
                    if self.longs != old.longs {
                        assert(crate::state::reason_ok(
                            self.asg,
                            self.longs,
                            self.starts,
                            self.place,
                            self.trail[k],
                            k,
                            self.graph[self.trail[k].var()],
                        ));
                    }
                },
            }
        }
    }

    /// A literal made true for a reason that is a stored clause adds to what
    /// was forced.
    pub proof fn forced_grows(self, lit: Lit, reason: PropReason, from: int)
        requires
            self.forced_from(from),
            0 <= from,
            self.core_open(),
            lit.var() < self.vars(),
            self.asg[lit.var()] is None,
            match reason {
                PropReason::Binary(other) => exists|i: int|
                    0 <= i < self.bins.len() && (#[trigger] self.bins[i] == (lit, other)
                        || self.bins[i] == (other, lit)),
                PropReason::Long(ClauseRef::Long(c)) => c < self.longs.len()
                    && self.longs[c as int][0] == lit,
                _ => false,
            },
        ensures
            self.assigned(lit, reason).forced_from(from),
    {
        let next = self.assigned(lit, reason);
        assert forall|k: int| from <= k < next.trail.len() implies #[trigger] next.forced_at(k) by {
            if k < self.trail.len() {
                assert(self.forced_at(k));
                assert(next.trail[k] == self.trail[k]);
                assert(is_true(self.asg, self.trail[k]));
                assert(self.trail[k].var() != lit.var());
                assert(next.graph[next.trail[k].var()] == self.graph[self.trail[k].var()]);
                match self.graph[self.trail[k].var()].reason {
                    PropReason::Binary(other) => {
                        let i = choose|i: int|
                            0 <= i < self.bins.len() && (#[trigger] self.bins[i] == (
                                self.trail[k],
                                other,
                            ) || self.bins[i] == (other, self.trail[k]));
                        assert(next.bins[i] == self.bins[i]);
                    },
                    _ => {},
                }
            } else {
                assert(next.trail[k] == lit);
                assert(next.graph[lit.var()].reason == reason);
                match reason {
                    PropReason::Binary(other) => {
                        let i = choose|i: int|
                            0 <= i < self.bins.len() && (#[trigger] self.bins[i] == (lit, other)
                                || self.bins[i] == (other, lit));
                        assert(next.bins[i] == self.bins[i]);
                    },
                    _ => {},
                }
            }
        }
    }
}

} // verus!
