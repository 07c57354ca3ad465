//! How the state changes while a literal's watch list is detached and
//! scanned, and what each change keeps in order.

use crate::cnf::distinct_vars;
use crate::db::swapped;
use crate::lit::Lit;
use crate::solver::ClauseRef;
use crate::state::{
    at_level, is_false, is_true, lit_of, lits_below, reason_ok, same_lits, trail_ok, unmarked,
    watch_ok, watches_ok, State,
};
use crate::watch::Watch;
use vstd::prelude::*;
use vstd::set_lib::{lemma_int_range, lemma_len_subset, set_int_range};

verus! {

/// A trail that names each variable at most once is no longer than the
/// number of variables.
pub proof fn trail_bounded(asg: Seq<Option<bool>>, trail: Seq<Lit>, place: Seq<int>, n: int)
    requires
        trail_ok(asg, trail, place),
        lits_below(trail, n),
        0 <= n,
    ensures
        trail.len() <= n,
{
    let vars = Seq::new(trail.len(), |k: int| trail[k].var());
    assert forall|i: int, j: int| 0 <= i < vars.len() && 0 <= j < vars.len() && i != j implies vars[i]
        != vars[j] by {
        assert(place[trail[i].var()] == i);
        assert(place[trail[j].var()] == j);
    }
    vars.unique_seq_to_set();
    lemma_int_range(0, n);
    assert forall|v: int| vars.to_set().contains(v) implies set_int_range(0, n).contains(v) by {
        let k = choose|k: int| 0 <= k < vars.len() && vars[k] == v;
        assert(trail[k].var() < n);
    }
    lemma_len_subset(vars.to_set(), set_int_range(0, n));
}

/// Exchanging two literals of a clause keeps its literals.
pub proof fn swapped_same(clause: Seq<Lit>, a: int, b: int)
    requires
        0 <= a < clause.len(),
        0 <= b < clause.len(),
    ensures
        same_lits(clause, swapped(clause, a, b)),
        swapped(clause, a, b).len() == clause.len(),
        distinct_vars(clause) ==> distinct_vars(swapped(clause, a, b)),
        forall|n: int| lits_below(clause, n) ==> lits_below(swapped(clause, a, b), n),
{
    let after = swapped(clause, a, b);
    let back = |j: int|
        if j == a {
            b
        } else if j == b {
            a
        } else {
            j
        };
    assert forall|j: int| 0 <= j < clause.len() implies #[trigger] after[j] == clause[back(j)] by {}
    assert forall|x: Lit| clause.contains(x) <==> after.contains(x) by {
        if clause.contains(x) {
            let j = choose|j: int| 0 <= j < clause.len() && clause[j] == x;
            assert(after[back(j)] == x);
        }
        if after.contains(x) {
            let j = choose|j: int| 0 <= j < after.len() && after[j] == x;
            assert(clause[back(j)] == x);
        }
    }
    if distinct_vars(clause) {
        assert forall|i: int, j: int|
            #![trigger after[i], after[j]]
            0 <= i < j < after.len() implies after[i].var() != after[j].var() by {
            let bi = back(i);
            let bj = back(j);
            if bi < bj {
                assert(clause[bi].var() != clause[bj].var());
            } else {
                assert(clause[bj].var() != clause[bi].var());
            }
        }
    }
    assert forall|n: int| lits_below(clause, n) implies lits_below(after, n) by {
        assert forall|j: int| 0 <= j < after.len() implies (#[trigger] after[j]).var() < n by {
            assert(clause[back(j)].var() < n);
        }
    }
}

impl State {
    /// The state with the literals at positions `a` and `b` of the long
    /// clause `idx` exchanged.
    pub open spec fn with_swap(self, idx: int, a: int, b: int) -> State {
        State { longs: self.longs.update(idx, swapped(self.longs[idx], a, b)), ..self }
    }

    /// The watch list of `lit` is detached as `local`, `lit` is the literal
    /// propagated last, and all else is in order.
    pub open spec fn detached(self, lit: Lit, local: Seq<Watch>) -> bool {
        &&& self.core_ok()
        &&& unmarked(self.seen)
        &&& 0 < self.pos <= self.trail.len()
        &&& self.trail[self.pos - 1] == lit
        &&& self.starts.len() > 0 ==> self.starts.last() < self.pos
        &&& watches_ok(
            self.bins,
            self.longs,
            self.vars(),
            self.watches.update(lit.spec_code() as int, local),
        )
    }

    /// Every literal of `lits` is false, and one of them was assigned at the
    /// present level.
    pub open spec fn conflict_ok(self, lits: Seq<Lit>) -> bool {
        &&& lits_below(lits, self.vars())
        &&& forall|j: int| 0 <= j < lits.len() ==> is_false(self.asg, #[trigger] lits[j])
        &&& exists|j: int| 0 <= j < lits.len() && self.lv(#[trigger] lits[j]) == self.level()
    }

    /// `lits` are the literals of a stored binary or long clause.
    pub open spec fn from_db(self, lits: Seq<Lit>) -> bool {
        ||| exists|i: int|
            0 <= i < self.bins.len() && lits.len() == 2 && (((#[trigger] self.bins[i]).0 == lits[0]
                && self.bins[i].1 == lits[1]) || (self.bins[i].0 == lits[1] && self.bins[i].1
                == lits[0]))
        ||| exists|i: int| 0 <= i < self.longs.len() && #[trigger] self.longs[i] == lits
    }

    /// The state `self` comes from `old` by propagation: the clauses keep
    /// their literals, the levels stay, and the trail and the assignment have
    /// only grown.
    pub open spec fn grows_from(self, old: State) -> bool {
        &&& self.vars() == old.vars()
        &&& self.units == old.units
        &&& self.bins == old.bins
        &&& self.longs.len() == old.longs.len()
        &&& forall|i: int|
            0 <= i < old.longs.len() ==> same_lits(old.longs[i], #[trigger] self.longs[i])
        &&& self.starts == old.starts
        &&& self.seen == old.seen
        &&& old.trail.len() <= self.trail.len()
        &&& forall|k: int| 0 <= k < old.trail.len() ==> #[trigger] self.trail[k] == old.trail[k]
        &&& forall|v: int|
            0 <= v < old.vars() && (#[trigger] old.asg[v]) is Some ==> self.asg[v] == old.asg[v]
                && self.graph[v] == old.graph[v] && self.place[v] == old.place[v]
    }

    /// `grows_from` composes.
    pub proof fn grows_trans(self, mid: State, old: State)
        requires
            self.grows_from(mid),
            mid.grows_from(old),
        ensures
            self.grows_from(old),
    {
        assert forall|i: int| 0 <= i < old.longs.len() implies same_lits(
            old.longs[i],
            #[trigger] self.longs[i],
        ) by {
            assert(same_lits(old.longs[i], mid.longs[i]));
            assert(same_lits(mid.longs[i], self.longs[i]));
        }
        assert forall|k: int| 0 <= k < old.trail.len() implies #[trigger] self.trail[k]
            == old.trail[k] by {
            assert(mid.trail[k] == old.trail[k]);
        }
        assert forall|v: int| 0 <= v < old.vars() && (#[trigger] old.asg[v]) is Some implies self.asg[v]
            == old.asg[v] && self.graph[v] == old.graph[v] && self.place[v] == old.place[v] by {
            assert(mid.asg[v] is Some);
        }
    }

    /// The literal propagated last was assigned at the present level.
    pub proof fn last_done_level(self, lit: Lit)
        requires
            self.core_ok(),
            0 < self.pos <= self.trail.len(),
            self.trail[self.pos - 1] == lit,
            self.pos - 1 >= if self.starts.len() > 0 {
                self.starts.last() as int
            } else {
                0
            },
        ensures
            self.lv(lit) == self.level(),
            is_true(self.asg, lit),
            is_false(self.asg, lit.neg()),
            self.place[lit.var()] == self.pos - 1,
    {
        assert(at_level(self.starts, self.pos - 1, self.lv(self.trail[self.pos - 1])));
        assert(is_true(self.asg, self.trail[self.pos - 1]));
        if self.lv(lit) < self.starts.len() {
            assert(self.pos - 1 < self.starts[self.starts.len() - 1]);
        }
    }

    /// Exchanging the two watched literals of a long clause whose first
    /// literal is false keeps the state and the watch lists in order.
    pub proof fn swap_front_keeps(self, idx: int, lists: Seq<Seq<Watch>>)
        requires
            self.core_ok(),
            watches_ok(self.bins, self.longs, self.vars(), lists),
            0 <= idx < self.longs.len(),
            is_false(self.asg, self.longs[idx][0]),
        ensures
            self.with_swap(idx, 0, 1).core_ok(),
            self.with_swap(idx, 0, 1).grows_from(self),
            watches_ok(self.bins, self.with_swap(idx, 0, 1).longs, self.vars(), lists),
    {
        let next = self.with_swap(idx, 0, 1);
        let old_c = self.longs[idx];
        let new_c = next.longs[idx];
        swapped_same(old_c, 0, 1);
        assert forall|i: int| 0 <= i < next.longs.len() implies (#[trigger] next.longs[i]).len() >= 3
            && lits_below(next.longs[i], next.vars()) && distinct_vars(next.longs[i]) && same_lits(
            self.longs[i],
            next.longs[i],
        ) by {
            if i != idx {
                assert(next.longs[i] == self.longs[i]);
            }
        }
        assert forall|k: int| 0 <= k < next.trail.len() implies reason_ok(
            next.asg,
            next.longs,
            next.starts,
            next.place,
            #[trigger] next.trail[k],
            k,
            next.graph[next.trail[k].var()],
        ) by {
            assert(reason_ok(
                self.asg,
                self.longs,
                self.starts,
                self.place,
                self.trail[k],
                k,
                self.graph[self.trail[k].var()],
            ));
            assert(is_true(self.asg, self.trail[k]));
        }
        assert forall|c: int, j: int| 0 <= c < lists.len() && 0 <= j < lists[c].len() implies watch_ok(
            next.bins,
            next.longs,
            next.vars(),
            c,
            #[trigger] lists[c][j],
        ) by {
            let w = lists[c][j];
            assert(watch_ok(self.bins, self.longs, self.vars(), c, w));
            if let ClauseRef::Long(i) = w.cref {
                if i == idx {
                    assert(new_c.contains(w.blocking));
                }
            }
        }
    }

    /// The watch lists after the watch at position `at` of the list `code`
    /// has moved to the negation of `target`, with `blocking` as its
    /// blocking literal.
    pub open spec fn moved(
        lists: Seq<Seq<Watch>>,
        code: int,
        at: int,
        target: Lit,
        blocking: Lit,
    ) -> Seq<Seq<Watch>> {
        let cut = lists.update(code, lists[code].remove(at));
        cut.update(
            target.neg().spec_code() as int,
            cut[target.neg().spec_code() as int].push(
                Watch { cref: lists[code][at].cref, blocking },
            ),
        )
    }

    /// Exchanging the second watched literal of a long clause with a later
    /// literal of it, and moving the watch along, keeps the state and the
    /// watch lists in order.
    pub proof fn swap_tail_keeps(self, idx: int, k: int, lists: Seq<Seq<Watch>>, code: int, at: int)
        requires
            self.core_ok(),
            watches_ok(self.bins, self.longs, self.vars(), lists),
            0 <= idx < self.longs.len(),
            2 <= k < self.longs[idx].len(),
            0 <= code < lists.len(),
            0 <= at < lists[code].len(),
            lists[code][at].cref is Long,
            lists[code][at].cref->Long_0 == idx,
            self.longs[idx][1] == lit_of(code).neg(),
        ensures
            self.with_swap(idx, 1, k).core_ok(),
            self.with_swap(idx, 1, k).grows_from(self),
            self.longs[idx][k].neg().spec_code() != code,
            self.longs[idx][k].neg().spec_code() < lists.len(),
            watches_ok(
                self.bins,
                self.with_swap(idx, 1, k).longs,
                self.vars(),
                Self::moved(lists, code, at, self.longs[idx][k], self.longs[idx][0]),
            ),
    {
        let next = self.with_swap(idx, 1, k);
        let old_c = self.longs[idx];
        let new_c = next.longs[idx];
        let target = old_c[k];
        let rc = target.neg().spec_code() as int;
        let after = Self::moved(lists, code, at, target, old_c[0]);
        let cut = lists.update(code, lists[code].remove(at));
        swapped_same(old_c, 1, k);
        assert(old_c[1].var() != old_c[k].var());
        assert(old_c[0].var() != old_c[k].var());
        assert(old_c[0].var() != old_c[1].var());
        assert(target.var() < self.vars());
        assert(lit_of(rc).neg() == target);
        assert forall|i: int| 0 <= i < next.longs.len() implies (#[trigger] next.longs[i]).len() >= 3
            && lits_below(next.longs[i], next.vars()) && distinct_vars(next.longs[i]) && same_lits(
            self.longs[i],
            next.longs[i],
        ) by {
            if i != idx {
                assert(next.longs[i] == self.longs[i]);
            }
        }
        assert forall|p: int| 0 <= p < next.trail.len() implies reason_ok(
            next.asg,
            next.longs,
            next.starts,
            next.place,
            #[trigger] next.trail[p],
            p,
            next.graph[next.trail[p].var()],
        ) by {
            assert(reason_ok(
                self.asg,
                self.longs,
                self.starts,
                self.place,
                self.trail[p],
                p,
                self.graph[self.trail[p].var()],
            ));
            if let crate::graph::PropReason::Long(ClauseRef::Long(c)) = self.graph[self.trail[p].var()].reason {
                if c == idx {
                    assert forall|j: int| 1 <= j < new_c.len() implies is_false(
                        next.asg,
                        #[trigger] new_c[j],
                    ) && next.place[new_c[j].var()] < p by {
                        if j == 1 {
                            assert(is_false(self.asg, old_c[k]));
                        } else if j == k {
                            assert(is_false(self.asg, old_c[1]));
                        } else {
                            assert(is_false(self.asg, old_c[j]));
                        }
                    }
                }
            }
        }
        assert(new_c.contains(old_c[0])) by {
            assert(new_c[0] == old_c[0]);
        }
        assert(rc != code) by {
            if rc == code {
                assert(lit_of(code).neg() == target);
            }
        }
        assert(old_c[0].var() < self.vars());
        assert(0 <= rc < lists.len());
        assert(new_c[1] == target);
        assert forall|c: int, j: int| 0 <= c < after.len() && 0 <= j < after[c].len() implies watch_ok(
            next.bins,
            next.longs,
            next.vars(),
            c,
            #[trigger] after[c][j],
        ) by {
            let w = after[c][j];
            if c == rc && j == cut[rc].len() {
                assert(w == Watch { cref: lists[code][at].cref, blocking: old_c[0] });
            } else {
                let j0 = if c == code && j >= at {
                    j + 1
                } else {
                    j
                };
                assert(w == lists[c][j0]);
                assert(watch_ok(self.bins, self.longs, self.vars(), c, lists[c][j0]));
                if let ClauseRef::Long(i) = w.cref {
                    if i == idx {
                        assert(new_c.contains(w.blocking));
                        if old_c[0] != lit_of(c).neg() {
                            assert(old_c[1] == lit_of(c).neg());
                            assert(lit_of(c).neg().neg() == lit_of(code).neg().neg());
                            assert(lit_of(c) == lit_of(code));
                            assert(c == code);
                            if j0 < at {
                                assert(lists[code][j0].cref != lists[code][at].cref);
                            } else {
                                assert(lists[code][at].cref != lists[code][j0].cref);
                            }
                        }
                    } else {
                        assert(next.longs[i as int] == self.longs[i as int]);
                    }
                }
            }
        }
        assert forall|c: int, a: int, b: int|
            0 <= c < after.len() && 0 <= a < b < after[c].len() && after[c][a].cref is Long implies (
        #[trigger] after[c][a]).cref != (#[trigger] after[c][b]).cref by {
            let a0 = if c == code && a >= at {
                a + 1
            } else {
                a
            };
            assert(after[c][a] == lists[c][a0]);
            if c == rc && b == cut[rc].len() {
                assert(watch_ok(self.bins, self.longs, self.vars(), c, lists[c][a0]));
                if lists[c][a0].cref == lists[code][at].cref {
                    assert(old_c[0] == target || old_c[1] == target);
                }
            } else {
                let b0 = if c == code && b >= at {
                    b + 1
                } else {
                    b
                };
                assert(after[c][b] == lists[c][b0]);
                assert(lists[c][a0].cref != lists[c][b0].cref);
            }
        }
    }
}

} // verus!
