//! The first unique implication point: the literal of the present level
//! nearest the end of the trail that every chain of implications to the
//! conflict passes through, and why the analysis stops at it.

use crate::cdcl::has_var;
use crate::explain::antecedent_lits;
use crate::lit::Lit;
use crate::state::{is_true, State};
use vstd::prelude::*;

verus! {

impl State {
    /// The literal at position `q` belongs to the present level and its
    /// negation is one of `lits`: the falsified clause `lits` follows from
    /// it directly.
    pub open spec fn hits(self, lits: Seq<Lit>, q: int) -> bool {
        self.lv(self.trail[q]) == self.level() && has_var(lits, self.trail[q].var())
    }

    /// The literal at position `q` belongs to the present level and its
    /// negation is one of the other literals of the reason of the literal
    /// at position `s`: an implication leads from `q` to `s`.
    pub open spec fn feeds(self, q: int, s: int) -> bool {
        self.lv(self.trail[q]) == self.level() && has_var(
            antecedent_lits(self, self.graph[self.trail[s].var()].reason),
            self.trail[q].var(),
        )
    }

    /// A chain of implications leads from position `q` to the falsified
    /// clause `lits`.
    pub open spec fn cone(self, lits: Seq<Lit>, q: int) -> bool
        decreases self.trail.len() - q,
    {
        self.hits(lits, q) || exists|s: int|
            q < s < self.trail.len() && #[trigger] self.feeds(q, s) && self.cone(lits, s)
    }

    /// A chain of implications leads from position `r` to the falsified
    /// clause and has none of the positions from `r + 1` to `p` on it.
    pub open spec fn crossed(self, lits: Seq<Lit>, r: int, p: int) -> bool {
        self.hits(lits, r) || exists|s: int|
            p < s < self.trail.len() && #[trigger] self.feeds(r, s) && self.cone(lits, s)
    }

    /// Position `p` is a unique implication point: it belongs to the present
    /// level, a chain leads from it to the falsified clause, and every chain
    /// that leads there from a position before it passes through it.
    pub open spec fn uip(self, lits: Seq<Lit>, p: int) -> bool {
        &&& 0 <= p < self.trail.len()
        &&& self.lv(self.trail[p]) == self.level()
        &&& self.cone(lits, p)
        &&& forall|r: int| 0 <= r < p ==> !#[trigger] self.crossed(lits, r, p)
    }

    /// Position `p` is the unique implication point nearest the end of the
    /// trail.
    pub open spec fn first_uip(self, lits: Seq<Lit>, p: int) -> bool {
        &&& self.uip(lits, p)
        &&& forall|s: int| p < s < self.trail.len() ==> !#[trigger] self.uip(lits, s)
    }

    /// The first literal of `learnt` is the negation of the first unique
    /// implication point of the falsified clause `lits`.
    pub open spec fn asserts_first_uip(self, lits: Seq<Lit>, learnt: Seq<Lit>) -> bool {
        exists|p: int|
            #[trigger] self.first_uip(lits, p) && learnt.len() >= 1 && learnt[0]
                == self.trail[p].neg()
    }

    /// The marks `after` are the marks `before` and those of the variables
    /// of `clause` that were assigned above level 0.
    pub open spec fn marked_by(self, before: Seq<bool>, after: Seq<bool>, clause: Seq<Lit>) -> bool {
        &&& after.len() == before.len()
        &&& forall|v: int|
            0 <= v < before.len() ==> #[trigger] after[v] == (before[v] || (has_var(clause, v)
                && self.graph[v].level > 0))
    }

    /// The same of the first `upto` literals of `clause`.
    pub closed spec fn marked_upto(
        self,
        before: Seq<bool>,
        after: Seq<bool>,
        clause: Seq<Lit>,
        upto: int,
    ) -> bool {
        &&& after.len() == before.len()
        &&& forall|v: int|
            0 <= v < before.len() ==> #[trigger] after[v] == (before[v] || (has_var(
                clause.take(upto),
                v,
            ) && self.graph[v].level > 0))
    }

    /// Before any literal is taken in the marks are those of before.
    pub proof fn marked_none(self, before: Seq<bool>, clause: Seq<Lit>)
        ensures
            self.marked_upto(before, before, clause, 0),
    {
    }

    /// One more literal taken in.
    pub proof fn marked_one(
        self,
        before: Seq<bool>,
        seen: Seq<bool>,
        after: Seq<bool>,
        clause: Seq<Lit>,
        upto: int,
    )
        requires
            self.marked_upto(before, seen, clause, upto),
            0 <= upto < clause.len(),
            0 <= clause[upto].var() < seen.len(),
            after == if !seen[clause[upto].var()] && self.graph[clause[upto].var()].level > 0 {
                seen.update(clause[upto].var(), true)
            } else {
                seen
            },
        ensures
            self.marked_upto(before, after, clause, upto + 1),
    {
        let head = clause.take(upto);
        let more = clause.take(upto + 1);
        let v0 = clause[upto].var();
        assert forall|v: int| 0 <= v < before.len() implies #[trigger] after[v] == (before[v] || (
        has_var(more, v) && self.graph[v].level > 0)) by {
            assert(seen[v] == (before[v] || (has_var(head, v) && self.graph[v].level > 0)));
            if has_var(head, v) {
                let j = choose|j: int| 0 <= j < head.len() && (#[trigger] head[j]).var() == v;
                assert(more[j].var() == v);
            }
            if has_var(more, v) {
                let j = choose|j: int| 0 <= j < more.len() && (#[trigger] more[j]).var() == v;
                if j < upto {
                    assert(head[j].var() == v);
                } else {
                    assert(v == v0);
                }
            }
            if v == v0 {
                assert(more[upto].var() == v);
            }
        }
    }

    /// Every literal taken in.
    pub proof fn marked_all(self, before: Seq<bool>, after: Seq<bool>, clause: Seq<Lit>)
        requires
            self.marked_upto(before, after, clause, clause.len() as int),
        ensures
            self.marked_by(before, after, clause),
    {
        assert(clause.take(clause.len() as int) =~= clause);
    }

    /// What the marks say on the way back along the trail, before position
    /// `bound`: a literal of the present level is marked exactly where a
    /// chain leads from it to the falsified clause past every position
    /// before `bound`; and no position from `bound` on is a unique
    /// implication point.
    pub closed spec fn cone_marks(self, lits: Seq<Lit>, seen: Seq<bool>, bound: int) -> bool {
        &&& forall|q: int|
            0 <= q < bound && self.lv(self.trail[q]) == self.level() ==> (seen[self.trail[q].var()]
                <==> #[trigger] self.crossed(lits, q, bound - 1))
        &&& forall|s: int| bound <= s < self.trail.len() ==> !#[trigger] self.uip(lits, s)
    }

    /// With the falsified clause taken in, the marks of the present level
    /// are those of its literals.
    pub proof fn cone_start(self, lits: Seq<Lit>, seen: Seq<bool>)
        requires
            self.core_ok(),
            self.level() > 0,
            unmarked_then(self, seen, lits),
        ensures
            self.cone_marks(lits, seen, self.trail.len() as int),
    {
        assert forall|q: int|
            0 <= q < self.trail.len() && self.lv(self.trail[q]) == self.level() implies (
        seen[self.trail[q].var()] <==> #[trigger] self.crossed(lits, q, self.trail.len() - 1)) by {
            assert(self.trail[q].var() < self.vars());
        }
    }

    /// An unmarked position is passed over.
    pub proof fn cone_skip(self, lits: Seq<Lit>, seen: Seq<bool>, bound: int)
        requires
            self.core_ok(),
            self.cone_marks(lits, seen, bound),
            0 < bound <= self.trail.len(),
            !seen[self.trail[bound - 1].var()],
        ensures
            self.cone_marks(lits, seen, bound - 1),
    {
        let s0 = bound - 1;
        assert(!self.cone(lits, s0)) by {
            if self.lv(self.trail[s0]) == self.level() {
                assert(!self.crossed(lits, s0, s0));
            }
        }
        assert forall|q: int| 0 <= q < s0 && self.lv(self.trail[q]) == self.level() implies (
        seen[self.trail[q].var()] <==> #[trigger] self.crossed(lits, q, s0 - 1)) by {
            assert(seen[self.trail[q].var()] <==> self.crossed(lits, q, s0));
            if self.crossed(lits, q, s0 - 1) && !self.hits(lits, q) {
                let s = choose|s: int|
                    s0 - 1 < s < self.trail.len() && #[trigger] self.feeds(q, s) && self.cone(
                        lits,
                        s,
                    );
                assert(s != s0);
                assert(s0 < s < self.trail.len() && self.feeds(q, s) && self.cone(lits, s));
            }
            if self.crossed(lits, q, s0) && !self.hits(lits, q) {
                let s = choose|s: int|
                    s0 < s < self.trail.len() && #[trigger] self.feeds(q, s) && self.cone(lits, s);
                assert(s0 - 1 < s < self.trail.len() && self.feeds(q, s) && self.cone(lits, s));
            }
        }
        assert forall|s: int| s0 <= s < self.trail.len() implies !#[trigger] self.uip(lits, s) by {}
    }

    /// A marked position that is not the only one marked is resolved away:
    /// the other literals of its reason are taken in.
    pub proof fn cone_resolve(
        self,
        lits: Seq<Lit>,
        seen: Seq<bool>,
        after: Seq<bool>,
        bound: int,
        other: int,
    )
        requires
            self.core_ok(),
            self.level() > 0,
            self.cone_marks(lits, seen, bound),
            0 < bound <= self.trail.len(),
            seen.len() == self.vars(),
            seen[self.trail[bound - 1].var()],
            self.lv(self.trail[bound - 1]) == self.level(),
            0 <= other < self.vars(),
            other != self.trail[bound - 1].var(),
            seen[other],
            self.graph[other].level == self.level(),
            self.asg[other] is Some,
            self.place[other] < bound,
            self.marked_by(
                seen.update(self.trail[bound - 1].var(), false),
                after,
                antecedent_lits(self, self.graph[self.trail[bound - 1].var()].reason),
            ),
        ensures
            self.cone_marks(lits, after, bound - 1),
    {
        let s0 = bound - 1;
        let v0 = self.trail[s0].var();
        let ante = antecedent_lits(self, self.graph[v0].reason);
        let mid = seen.update(v0, false);
        assert(self.crossed(lits, s0, s0));
        assert(self.cone(lits, s0));
        assert forall|q: int| 0 <= q < s0 && self.lv(self.trail[q]) == self.level() implies (
        after[self.trail[q].var()] <==> #[trigger] self.crossed(lits, q, s0 - 1)) by {
            let v = self.trail[q].var();
            assert(v < self.vars());
            assert(self.place[v] == q);
            assert(self.place[v0] == s0);
            assert(v != v0);
            assert(after[v] == (mid[v] || (has_var(ante, v) && self.graph[v].level > 0)));
            assert(mid[v] == seen[v]);
            assert(seen[v] <==> self.crossed(lits, q, s0));
            assert(self.feeds(q, s0) == has_var(ante, v));
            if self.crossed(lits, q, s0 - 1) && !self.hits(lits, q) {
                let s = choose|s: int|
                    s0 - 1 < s < self.trail.len() && #[trigger] self.feeds(q, s) && self.cone(
                        lits,
                        s,
                    );
                if s != s0 {
                    assert(s0 < s < self.trail.len() && self.feeds(q, s) && self.cone(lits, s));
                }
            }
            if self.crossed(lits, q, s0) && !self.hits(lits, q) {
                let s = choose|s: int|
                    s0 < s < self.trail.len() && #[trigger] self.feeds(q, s) && self.cone(lits, s);
                assert(s0 - 1 < s < self.trail.len() && self.feeds(q, s) && self.cone(lits, s));
            }
            if has_var(ante, v) {
                assert(s0 - 1 < s0 < self.trail.len() && self.feeds(q, s0) && self.cone(lits, s0));
            }
        }
        assert forall|s: int| s0 <= s < self.trail.len() implies !#[trigger] self.uip(lits, s) by {
            if s == s0 {
                let r = self.place[other];
                assert(self.trail[r].var() == other);
                assert(self.place[v0] == s0);
                assert(is_true(self.asg, self.trail[s0]));
                assert(0 <= r < self.trail.len());
                self.marked_before(lits, seen, bound, other);
                assert(r < s0);
                assert(self.crossed(lits, r, s0));
            }
        }
    }

    /// A marked variable of the present level stands before the bound.
    proof fn marked_before(self, lits: Seq<Lit>, seen: Seq<bool>, bound: int, v: int)
        requires
            self.core_ok(),
            self.cone_marks(lits, seen, bound),
            0 < bound <= self.trail.len(),
            0 <= v < self.vars(),
            v != self.trail[bound - 1].var(),
            self.asg[v] is Some,
            self.graph[v].level == self.level(),
            self.place[v] < bound,
        ensures
            self.place[v] < bound - 1,
            self.trail[self.place[v]].var() == v,
    {
    }

    /// A marked position that is the only one marked is the first unique
    /// implication point.
    pub proof fn cone_found(self, lits: Seq<Lit>, seen: Seq<bool>, bound: int)
        requires
            self.core_ok(),
            self.cone_marks(lits, seen, bound),
            0 < bound <= self.trail.len(),
            seen.len() == self.vars(),
            seen[self.trail[bound - 1].var()],
            self.lv(self.trail[bound - 1]) == self.level(),
            forall|v: int|
                0 <= v < seen.len() && #[trigger] seen[v] && v != self.trail[bound - 1].var()
                    ==> self.graph[v].level != self.level(),
        ensures
            self.first_uip(lits, bound - 1),
    {
        let s0 = bound - 1;
        let v0 = self.trail[s0].var();
        assert(self.crossed(lits, s0, s0));
        assert(self.cone(lits, s0));
        assert forall|r: int| 0 <= r < s0 implies !#[trigger] self.crossed(lits, r, s0) by {
            if self.crossed(lits, r, s0) {
                let v = self.trail[r].var();
                assert(self.lv(self.trail[r]) == self.level());
                assert(v < self.vars());
                assert(self.place[v] == r);
                assert(self.place[v0] == s0);
                assert(seen[v]);
            }
        }
    }
}

/// A clause with the same first literal asserts the same point.
pub proof fn uip_kept(st: State, lits: Seq<Lit>, learnt: Seq<Lit>, after: Seq<Lit>)
    requires
        st.asserts_first_uip(lits, learnt),
        after.len() >= 1,
        after[0] == learnt[0],
    ensures
        st.asserts_first_uip(lits, after),
{
    let p = choose|p: int|
        #[trigger] st.first_uip(lits, p) && learnt.len() >= 1 && learnt[0] == st.trail[p].neg();
    assert(st.first_uip(lits, p) && after.len() >= 1 && after[0] == st.trail[p].neg());
}

/// From no marks, the marks `seen` are those of the variables of `lits` that
/// were assigned above level 0.
pub open spec fn unmarked_then(st: State, seen: Seq<bool>, lits: Seq<Lit>) -> bool {
    &&& seen.len() == st.vars()
    &&& forall|v: int|
        0 <= v < seen.len() ==> #[trigger] seen[v] == (has_var(lits, v) && st.graph[v].level > 0)
}

} // verus!
