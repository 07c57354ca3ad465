//! Why no clause is missed: every clause is watched on its first two
//! literals, and a watched literal that is false and propagated is made up
//! for by a true literal of the same clause.

use crate::cdcl::level_of_assigned;
use crate::db::swapped;
use crate::graph::PropReason;
use crate::learn::learnable;
use crate::lit::Lit;
use crate::moves::swapped_same;
use crate::solver::{clause_true, ClauseRef};
use crate::state::{is_false, is_true, lit_of, watch_ok, watches_ok, State};
use crate::watch::{watched, Watch};
use vstd::prelude::*;

verus! {

/// Whether `list` holds a watch of the clause `cref`.
pub open spec fn has_watch(list: Seq<Watch>, cref: ClauseRef) -> bool {
    exists|j: int| 0 <= j < list.len() && (#[trigger] list[j]).cref == cref
}

/// Every binary and every long clause is watched on the negations of its
/// first two literals.
pub open spec fn watch_complete(
    bins: Seq<(Lit, Lit)>,
    longs: Seq<Seq<Lit>>,
    lists: Seq<Seq<Watch>>,
) -> bool {
    &&& forall|i: int|
        0 <= i < bins.len() ==> has_watch(
            lists[(#[trigger] bins[i]).0.neg().spec_code() as int],
            ClauseRef::Binary(i as usize),
        ) && has_watch(lists[bins[i].1.neg().spec_code() as int], ClauseRef::Binary(i as usize))
    &&& forall|i: int|
        0 <= i < longs.len() ==> has_watch(
            lists[(#[trigger] longs[i])[0].neg().spec_code() as int],
            ClauseRef::Long(i as usize),
        ) && has_watch(lists[longs[i][1].neg().spec_code() as int], ClauseRef::Long(i as usize))
}

impl State {
    /// `lit` is false, and the literal that made it so is among the first
    /// `done` of the trail.
    pub open spec fn done_false(self, lit: Lit, done: int) -> bool {
        is_false(self.asg, lit) && self.place[lit.var()] < done
    }

    /// `clause` has a true literal that was assigned no later than the level
    /// of `lit`.
    pub open spec fn backed(self, clause: Seq<Lit>, lit: Lit) -> bool {
        exists|k: int|
            0 <= k < clause.len() && is_true(self.asg, #[trigger] clause[k]) && self.lv(clause[k])
                <= self.lv(lit)
    }

    /// Whatever watched literal is false and among the first `done` of the
    /// trail in negated form, its clause has a true literal of no later
    /// level.
    pub open spec fn watch_sem(self, done: int) -> bool {
        &&& forall|i: int|
            0 <= i < self.bins.len() ==> (self.done_false((#[trigger] self.bins[i]).0, done)
                ==> is_true(self.asg, self.bins[i].1) && self.lv(self.bins[i].1) <= self.lv(
                self.bins[i].0,
            )) && (self.done_false(self.bins[i].1, done) ==> is_true(self.asg, self.bins[i].0)
                && self.lv(self.bins[i].0) <= self.lv(self.bins[i].1))
        &&& forall|i: int|
            0 <= i < self.longs.len() ==> (self.done_false((#[trigger] self.longs[i])[0], done)
                ==> self.backed(self.longs[i], self.longs[i][0])) && (self.done_false(
                self.longs[i][1],
                done,
            ) ==> self.backed(self.longs[i], self.longs[i][1]))
    }

    /// The clause of the watch `w` has a true literal.
    pub open spec fn settled(self, w: Watch) -> bool {
        match w.cref {
            ClauseRef::Binary(_) => is_true(self.asg, w.blocking),
            ClauseRef::Long(c) => c < self.longs.len() && clause_true(self.asg, self.longs[c as int]),
        }
    }

    /// The watch list of `lit` is detached as `local` and has been scanned up
    /// to position `upto`: the clauses of the watches before that position
    /// have a true literal, and all else is in order.
    pub open spec fn scanning(self, lit: Lit, local: Seq<Watch>, upto: int) -> bool {
        &&& self.detached(lit, local)
        &&& watch_complete(
            self.bins,
            self.longs,
            self.watches.update(lit.spec_code() as int, local),
        )
        &&& self.watch_sem(self.pos - 1)
        &&& 0 <= upto <= local.len()
        &&& forall|j: int| 0 <= j < upto ==> self.settled(#[trigger] local[j])
    }

    /// No binary or long clause has every literal false, and none has every
    /// literal false but one that is unassigned.
    pub open spec fn nothing_missed(self) -> bool {
        &&& forall|i: int|
            0 <= i < self.bins.len() ==> (is_false(self.asg, (#[trigger] self.bins[i]).0)
                ==> is_true(self.asg, self.bins[i].1)) && (is_false(self.asg, self.bins[i].1)
                ==> is_true(self.asg, self.bins[i].0))
        &&& forall|i: int|
            0 <= i < self.longs.len() ==> clause_true(self.asg, #[trigger] self.longs[i]) || exists|
                a: int,
                b: int,
            |
                0 <= a < b < self.longs[i].len() && !is_false(self.asg, self.longs[i][a])
                    && !is_false(self.asg, self.longs[i][b])
    }

    /// Once everything on the trail is propagated, no clause is false or
    /// unit.
    pub proof fn propagated_misses_nothing(self)
        requires
            self.core_ok(),
            self.watch_sem(self.trail.len() as int),
        ensures
            self.nothing_missed(),
    {
        assert forall|i: int| 0 <= i < self.bins.len() implies (is_false(
            self.asg,
            (#[trigger] self.bins[i]).0,
        ) ==> is_true(self.asg, self.bins[i].1)) && (is_false(self.asg, self.bins[i].1) ==> is_true(
            self.asg,
            self.bins[i].0,
        )) by {
            if is_false(self.asg, self.bins[i].0) {
                level_of_assigned(self, self.bins[i].0.var());
            }
            if is_false(self.asg, self.bins[i].1) {
                level_of_assigned(self, self.bins[i].1.var());
            }
        }
        assert forall|i: int| 0 <= i < self.longs.len() implies clause_true(
            self.asg,
            #[trigger] self.longs[i],
        ) || exists|a: int, b: int|
            0 <= a < b < self.longs[i].len() && !is_false(self.asg, self.longs[i][a]) && !is_false(
                self.asg,
                self.longs[i][b],
            ) by {
            let c = self.longs[i];
            if is_false(self.asg, c[0]) {
                level_of_assigned(self, c[0].var());
                assert(self.backed(c, c[0]));
            } else if is_false(self.asg, c[1]) {
                level_of_assigned(self, c[1].var());
                assert(self.backed(c, c[1]));
            } else {
                assert(0 <= 0 < 1 < c.len() && !is_false(self.asg, c[0]) && !is_false(
                    self.asg,
                    c[1],
                ));
            }
        }
    }

    /// Where every variable has a value and nothing was missed, every binary
    /// and every long clause is true.
    pub proof fn total_means_sat(self)
        requires
            self.tables_wf(),
            self.total(),
            self.nothing_missed(),
        ensures
            self.watched_sat(),
    {
        assert forall|i: int| 0 <= i < self.bins.len() implies is_true(
            self.asg,
            (#[trigger] self.bins[i]).0,
        ) || is_true(self.asg, self.bins[i].1) by {
            assert(self.asg[self.bins[i].0.var()] is Some);
        }
        assert forall|i: int| 0 <= i < self.longs.len() implies clause_true(
            self.asg,
            #[trigger] self.longs[i],
        ) by {
            let c = self.longs[i];
            if !clause_true(self.asg, c) {
                let (a, b) = choose|a: int, b: int|
                    0 <= a < b < c.len() && !is_false(self.asg, c[a]) && !is_false(self.asg, c[b]);
                assert(c[a].var() < self.vars());
                assert(self.asg[c[a].var()] is Some);
                assert(is_true(self.asg, c[a]));
            }
        }
    }

    /// Making an unassigned literal true leaves every propagated watched
    /// literal backed.
    pub proof fn assigned_keeps_sem(self, lit: Lit, reason: PropReason, done: int)
        requires
            self.core_open(),
            lit.var() < self.vars(),
            self.asg[lit.var()] is None,
            self.watch_sem(done),
            done <= self.trail.len(),
        ensures
            self.assigned(lit, reason).watch_sem(done),
    {
        let next = self.assigned(lit, reason);
        assert forall|x: Lit, c: Seq<Lit>|
            x.var() < self.vars() && next.done_false(x, done) && self.backed(c, x)
                && crate::state::lits_below(c, self.vars()) implies #[trigger] next.backed(c, x) by {
            let k = choose|k: int|
                0 <= k < c.len() && is_true(self.asg, #[trigger] c[k]) && self.lv(c[k]) <= self.lv(x);
            assert(c[k].var() < self.vars());
            assert(c[k].var() != lit.var());
            assert(x.var() != lit.var());
            assert(is_true(next.asg, c[k]) && next.lv(c[k]) <= next.lv(x));
        }
        assert forall|i: int| 0 <= i < next.longs.len() implies (next.done_false(
            (#[trigger] next.longs[i])[0],
            done,
        ) ==> next.backed(next.longs[i], next.longs[i][0])) && (next.done_false(
            next.longs[i][1],
            done,
        ) ==> next.backed(next.longs[i], next.longs[i][1])) by {
            let c = self.longs[i];
            assert(c[0].var() < self.vars() && c[1].var() < self.vars());
            if next.done_false(c[0], done) {
                assert(self.done_false(c[0], done));
            }
            if next.done_false(c[1], done) {
                assert(self.done_false(c[1], done));
            }
        }
        assert forall|i: int| 0 <= i < next.bins.len() implies (next.done_false(
            (#[trigger] next.bins[i]).0,
            done,
        ) ==> is_true(next.asg, next.bins[i].1) && next.lv(next.bins[i].1) <= next.lv(
            next.bins[i].0,
        )) && (next.done_false(next.bins[i].1, done) ==> is_true(next.asg, next.bins[i].0)
            && next.lv(next.bins[i].0) <= next.lv(next.bins[i].1)) by {
            let b = self.bins[i];
            if next.done_false(b.0, done) {
                assert(self.done_false(b.0, done));
            }
            if next.done_false(b.1, done) {
                assert(self.done_false(b.1, done));
            }
        }
    }

    /// Going back to an earlier level leaves every watched literal that is
    /// still false backed.
    pub proof fn cut_keeps_sem(self, level: int, done: int)
        requires
            self.core_ok(),
            self.watch_sem(done),
            0 <= level < self.level(),
            self.starts[level] <= done,
        ensures
            self.cut(level).watch_sem(self.starts[level] as int),
    {
        let next = self.cut(level);
        let new_len = self.starts[level] as int;
        assert forall|x: Lit| x.var() < self.vars() && next.done_false(x, new_len) implies self.done_false(
            x,
            done,
        ) && #[trigger] self.lv(x) <= level by {
            level_of_assigned(self, x.var());
        }
        assert forall|x: Lit, c: Seq<Lit>|
            x.var() < self.vars() && next.done_false(x, new_len) && self.backed(c, x)
                && crate::state::lits_below(c, self.vars()) implies #[trigger] next.backed(c, x) by {
            let k = choose|k: int|
                0 <= k < c.len() && is_true(self.asg, #[trigger] c[k]) && self.lv(c[k]) <= self.lv(x);
            assert(self.lv(x) <= level);
            level_of_assigned(self, c[k].var());
            assert(is_true(next.asg, c[k]) && next.lv(c[k]) <= next.lv(x));
        }
        assert forall|i: int| 0 <= i < next.longs.len() implies (next.done_false(
            (#[trigger] next.longs[i])[0],
            new_len,
        ) ==> next.backed(next.longs[i], next.longs[i][0])) && (next.done_false(
            next.longs[i][1],
            new_len,
        ) ==> next.backed(next.longs[i], next.longs[i][1])) by {
            let c = self.longs[i];
            assert(c[0].var() < self.vars() && c[1].var() < self.vars());
        }
        assert forall|i: int| 0 <= i < next.bins.len() implies (next.done_false(
            (#[trigger] next.bins[i]).0,
            new_len,
        ) ==> is_true(next.asg, next.bins[i].1) && next.lv(next.bins[i].1) <= next.lv(
            next.bins[i].0,
        )) && (next.done_false(next.bins[i].1, new_len) ==> is_true(next.asg, next.bins[i].0)
            && next.lv(next.bins[i].0) <= next.lv(next.bins[i].1)) by {
            let b = self.bins[i];
            assert(b.0.var() < self.vars() && b.1.var() < self.vars());
            if next.done_false(b.0, new_len) {
                assert(self.lv(b.0) <= level);
                level_of_assigned(self, b.1.var());
            }
            if next.done_false(b.1, new_len) {
                assert(self.lv(b.1) <= level);
                level_of_assigned(self, b.0.var());
            }
        }
    }
}

/// Watching one more clause leaves the clauses watched before watched.
pub proof fn watched_keeps_watch(
    lists: Seq<Seq<Watch>>,
    cref: ClauseRef,
    first: Lit,
    second: Lit,
    code: int,
    other: ClauseRef,
)
    requires
        0 <= code < lists.len(),
        first.neg().spec_code() < lists.len(),
        second.neg().spec_code() < lists.len(),
        has_watch(lists[code], other),
    ensures
        has_watch(watched(lists, cref, first, second)[code], other),
{
    let j = choose|j: int| 0 <= j < lists[code].len() && (#[trigger] lists[code][j]).cref == other;
    let after = watched(lists, cref, first, second);
    assert(after[code][j] == lists[code][j]);
}

/// A clause that has just been watched is watched on both literals.
pub proof fn watched_has_watch(lists: Seq<Seq<Watch>>, cref: ClauseRef, first: Lit, second: Lit)
    requires
        first.neg().spec_code() < lists.len(),
        second.neg().spec_code() < lists.len(),
    ensures
        has_watch(watched(lists, cref, first, second)[first.neg().spec_code() as int], cref),
        has_watch(watched(lists, cref, first, second)[second.neg().spec_code() as int], cref),
{
    let after = watched(lists, cref, first, second);
    let c1 = first.neg().spec_code() as int;
    let c2 = second.neg().spec_code() as int;
    let once = lists.update(
        c1,
        lists[c1].push(Watch { cref, blocking: second }),
    );
    assert(once[c1][lists[c1].len() as int].cref == cref);
    assert(after[c2][once[c2].len() as int].cref == cref);
    if c1 != c2 {
        assert(after[c1][lists[c1].len() as int].cref == cref);
    } else {
        assert(after[c1][lists[c1].len() as int].cref == cref);
    }
}

/// A watch that stays in its list when another one moves is still there
/// afterwards.
pub proof fn moved_keeps_watch(
    lists: Seq<Seq<Watch>>,
    code: int,
    at: int,
    target: Lit,
    blocking: Lit,
    ly: int,
    cref: ClauseRef,
)
    requires
        0 <= code < lists.len(),
        0 <= ly < lists.len(),
        0 <= target.neg().spec_code() < lists.len(),
        target.neg().spec_code() != code,
        0 <= at < lists[code].len(),
        has_watch(lists[ly], cref),
        ly == code ==> cref != lists[code][at].cref,
    ensures
        has_watch(State::moved(lists, code, at, target, blocking)[ly], cref),
{
    let after = State::moved(lists, code, at, target, blocking);
    let j = choose|j: int| 0 <= j < lists[ly].len() && (#[trigger] lists[ly][j]).cref == cref;
    if ly == code {
        let j2 = if j < at {
            j
        } else {
            j - 1
        };
        assert(after[ly][j2] == lists[ly][j]);
    } else {
        assert(after[ly][j] == lists[ly][j]);
    }
}

impl State {
    /// Exchanging the two watched literals of a long clause leaves every
    /// clause watched and every propagated watched literal backed.
    pub proof fn swap_front_tidy(self, idx: int, lists: Seq<Seq<Watch>>, done: int)
        requires
            self.tables_wf(),
            0 <= idx < self.longs.len(),
            watch_complete(self.bins, self.longs, lists),
            self.watch_sem(done),
        ensures
            watch_complete(self.bins, self.with_swap(idx, 0, 1).longs, lists),
            self.with_swap(idx, 0, 1).watch_sem(done),
            forall|w: Watch| self.settled(w) ==> #[trigger] self.with_swap(idx, 0, 1).settled(w),
    {
        let next = self.with_swap(idx, 0, 1);
        let old_c = self.longs[idx];
        let new_c = next.longs[idx];
        assert(old_c.len() >= 3);
        swapped_same(old_c, 0, 1);
        self.swap_keeps_truth(idx, 0, 1);
        assert forall|i: int| 0 <= i < next.longs.len() implies has_watch(
            lists[(#[trigger] next.longs[i])[0].neg().spec_code() as int],
            ClauseRef::Long(i as usize),
        ) && has_watch(
            lists[next.longs[i][1].neg().spec_code() as int],
            ClauseRef::Long(i as usize),
        ) by {
            let c = self.longs[i];
            if i != idx {
                assert(next.longs[i] == c);
            }
        }
        assert forall|i: int| 0 <= i < next.longs.len() implies (next.done_false(
            (#[trigger] next.longs[i])[0],
            done,
        ) ==> next.backed(next.longs[i], next.longs[i][0])) && (next.done_false(
            next.longs[i][1],
            done,
        ) ==> next.backed(next.longs[i], next.longs[i][1])) by {
            let c = self.longs[i];
            if i != idx {
                assert(next.longs[i] == c);
            } else {
                assert(new_c[0] == old_c[1] && new_c[1] == old_c[0]);
            }
        }
    }

    /// Exchanging two literals of a long clause changes neither whether the
    /// clause has a true literal nor which literals back it.
    pub proof fn swap_keeps_truth(self, idx: int, a: int, b: int)
        requires
            0 <= idx < self.longs.len(),
            0 <= a < self.longs[idx].len(),
            0 <= b < self.longs[idx].len(),
        ensures
            clause_true(self.asg, self.longs[idx]) ==> clause_true(
                self.asg,
                swapped(self.longs[idx], a, b),
            ),
            forall|x: Lit|
                self.backed(self.longs[idx], x) ==> #[trigger] self.backed(
                    swapped(self.longs[idx], a, b),
                    x,
                ),
            forall|w: Watch| self.settled(w) ==> #[trigger] self.with_swap(idx, a, b).settled(w),
            forall|x: Lit, c: Seq<Lit>|
                self.backed(c, x) ==> #[trigger] self.with_swap(idx, a, b).backed(c, x),
    {
        let old_c = self.longs[idx];
        let new_c = swapped(old_c, a, b);
        let next = self.with_swap(idx, a, b);
        let back = |j: int|
            if j == a {
                b
            } else if j == b {
                a
            } else {
                j
            };
        assert forall|j: int| 0 <= j < old_c.len() implies #[trigger] new_c[back(j)] == old_c[j] by {}
        if clause_true(self.asg, old_c) {
            let j = choose|j: int| 0 <= j < old_c.len() && is_true(self.asg, #[trigger] old_c[j]);
            assert(is_true(self.asg, new_c[back(j)]));
        }
        assert forall|x: Lit| self.backed(old_c, x) implies #[trigger] self.backed(new_c, x) by {
            let k = choose|k: int|
                0 <= k < old_c.len() && is_true(self.asg, #[trigger] old_c[k]) && self.lv(old_c[k])
                    <= self.lv(x);
            assert(is_true(self.asg, new_c[back(k)]) && self.lv(new_c[back(k)]) <= self.lv(x));
        }
        assert forall|w: Watch| self.settled(w) implies #[trigger] next.settled(w) by {
            if let ClauseRef::Long(c) = w.cref {
                if c != idx {
                    assert(next.longs[c as int] == self.longs[c as int]);
                }
            }
        }
        assert forall|x: Lit, c: Seq<Lit>| self.backed(c, x) implies #[trigger] next.backed(c, x) by {
            let k = choose|k: int|
                0 <= k < c.len() && is_true(self.asg, #[trigger] c[k]) && self.lv(c[k]) <= self.lv(x);
            assert(is_true(next.asg, c[k]) && next.lv(c[k]) <= next.lv(x));
        }
    }

    /// Exchanging the second watched literal of a long clause with a later
    /// literal that is not false, and moving the watch along, leaves every
    /// clause watched.
    pub proof fn swap_tail_complete(
        self,
        idx: int,
        k: int,
        lists: Seq<Seq<Watch>>,
        code: int,
        at: int,
        done: int,
    )
        requires
            self.core_ok(),
            watches_ok(self.bins, self.longs, self.vars(), lists),
            watch_complete(self.bins, self.longs, lists),
            self.watch_sem(done),
            0 <= idx < self.longs.len(),
            2 <= k < self.longs[idx].len(),
            0 <= code < lists.len(),
            0 <= at < lists[code].len(),
            lists[code][at].cref is Long,
            lists[code][at].cref->Long_0 == idx,
            self.longs[idx][1] == lit_of(code).neg(),
            !is_false(self.asg, self.longs[idx][k]),
        ensures
            watch_complete(
                self.bins,
                self.with_swap(idx, 1, k).longs,
                Self::moved(lists, code, at, self.longs[idx][k], self.longs[idx][0]),
            ),
    {
        let next = self.with_swap(idx, 1, k);
        let old_c = self.longs[idx];
        let new_c = next.longs[idx];
        let target = old_c[k];
        let rc = target.neg().spec_code() as int;
        let after = Self::moved(lists, code, at, target, old_c[0]);
        self.swap_tail_keeps(idx, k, lists, code, at);
        self.swap_keeps_truth(idx, 1, k);
        assert(old_c[0].var() != old_c[1].var());
        assert(old_c[0].var() < self.vars() && old_c[1].var() < self.vars());
        assert(lit_of(code) == old_c[1].neg());
        assert(old_c[0].neg().spec_code() != code);
        assert(new_c[0] == old_c[0] && new_c[1] == target);
        assert forall|i: int| 0 <= i < next.longs.len() implies has_watch(
            after[(#[trigger] next.longs[i])[0].neg().spec_code() as int],
            ClauseRef::Long(i as usize),
        ) && has_watch(
            after[next.longs[i][1].neg().spec_code() as int],
            ClauseRef::Long(i as usize),
        ) by {
            let c = self.longs[i];
            assert(c[0].var() < self.vars() && c[1].var() < self.vars());
            if i != idx {
                assert(next.longs[i] == c);
                moved_keeps_watch(
                    lists,
                    code,
                    at,
                    target,
                    old_c[0],
                    c[0].neg().spec_code() as int,
                    ClauseRef::Long(i as usize),
                );
                moved_keeps_watch(
                    lists,
                    code,
                    at,
                    target,
                    old_c[0],
                    c[1].neg().spec_code() as int,
                    ClauseRef::Long(i as usize),
                );
            } else {
                moved_keeps_watch(
                    lists,
                    code,
                    at,
                    target,
                    old_c[0],
                    old_c[0].neg().spec_code() as int,
                    ClauseRef::Long(i as usize),
                );
                let cut = lists.update(code, lists[code].remove(at));
                assert(after[rc][cut[rc].len() as int].cref == ClauseRef::Long(idx as usize));
            }
        }
        assert forall|i: int| 0 <= i < self.bins.len() implies has_watch(
            after[(#[trigger] self.bins[i]).0.neg().spec_code() as int],
            ClauseRef::Binary(i as usize),
        ) && has_watch(
            after[self.bins[i].1.neg().spec_code() as int],
            ClauseRef::Binary(i as usize),
        ) by {
            let b = self.bins[i];
            assert(b.0.var() < self.vars() && b.1.var() < self.vars());
            moved_keeps_watch(
                lists,
                code,
                at,
                target,
                old_c[0],
                b.0.neg().spec_code() as int,
                ClauseRef::Binary(i as usize),
            );
            moved_keeps_watch(
                lists,
                code,
                at,
                target,
                old_c[0],
                b.1.neg().spec_code() as int,
                ClauseRef::Binary(i as usize),
            );
        }
    }

    /// Exchanging the second watched literal of a long clause with a later
    /// literal that is not false leaves every propagated watched literal
    /// backed, and every settled watch settled.
    pub proof fn swap_tail_backed(
        self,
        idx: int,
        k: int,
        lists: Seq<Seq<Watch>>,
        code: int,
        at: int,
        done: int,
    )
        requires
            self.core_ok(),
            watches_ok(self.bins, self.longs, self.vars(), lists),
            watch_complete(self.bins, self.longs, lists),
            self.watch_sem(done),
            0 <= idx < self.longs.len(),
            2 <= k < self.longs[idx].len(),
            0 <= code < lists.len(),
            0 <= at < lists[code].len(),
            lists[code][at].cref is Long,
            lists[code][at].cref->Long_0 == idx,
            self.longs[idx][1] == lit_of(code).neg(),
            !is_false(self.asg, self.longs[idx][k]),
        ensures
            self.with_swap(idx, 1, k).watch_sem(done),
            forall|w: Watch| self.settled(w) ==> #[trigger] self.with_swap(idx, 1, k).settled(w),
    {
        let next = self.with_swap(idx, 1, k);
        self.swap_keeps_truth(idx, 1, k);
        assert forall|i: int| 0 <= i < next.longs.len() implies (next.done_false(
            (#[trigger] next.longs[i])[0],
            done,
        ) ==> next.backed(next.longs[i], next.longs[i][0])) && (next.done_false(
            next.longs[i][1],
            done,
        ) ==> next.backed(next.longs[i], next.longs[i][1])) by {
            let c = self.longs[i];
            if i != idx {
                assert(next.longs[i] == c);
            }
        }
    }

    /// Exchanging the second watched literal of a long clause with a later
    /// literal that is not false, and moving the watch along, leaves every
    /// clause watched and every propagated watched literal backed.
    pub proof fn swap_tail_tidy(
        self,
        idx: int,
        k: int,
        lists: Seq<Seq<Watch>>,
        code: int,
        at: int,
        done: int,
    )
        requires
            self.core_ok(),
            watches_ok(self.bins, self.longs, self.vars(), lists),
            watch_complete(self.bins, self.longs, lists),
            self.watch_sem(done),
            0 <= idx < self.longs.len(),
            2 <= k < self.longs[idx].len(),
            0 <= code < lists.len(),
            0 <= at < lists[code].len(),
            lists[code][at].cref is Long,
            lists[code][at].cref->Long_0 == idx,
            self.longs[idx][1] == lit_of(code).neg(),
            !is_false(self.asg, self.longs[idx][k]),
        ensures
            watch_complete(
                self.bins,
                self.with_swap(idx, 1, k).longs,
                Self::moved(lists, code, at, self.longs[idx][k], self.longs[idx][0]),
            ),
            self.with_swap(idx, 1, k).watch_sem(done),
            forall|w: Watch| self.settled(w) ==> #[trigger] self.with_swap(idx, 1, k).settled(w),
    {
        self.swap_tail_complete(idx, k, lists, code, at, done);
        self.swap_tail_backed(idx, k, lists, code, at, done);
    }

    /// Giving a watch another blocking literal leaves every clause watched.
    pub proof fn update_keeps_complete(
        bins: Seq<(Lit, Lit)>,
        longs: Seq<Seq<Lit>>,
        lists: Seq<Seq<Watch>>,
        code: int,
        at: int,
        w: Watch,
    )
        requires
            watch_complete(bins, longs, lists),
            crate::state::db_wf(Seq::empty(), bins, longs, lists.len() as int / 2),
            lists.len() % 2 == 0,
            0 <= code < lists.len(),
            0 <= at < lists[code].len(),
            w.cref == lists[code][at].cref,
        ensures
            watch_complete(bins, longs, lists.update(code, lists[code].update(at, w))),
    {
        let after = lists.update(code, lists[code].update(at, w));
        let n = lists.len() as int / 2;
        assert forall|ly: int, cref: ClauseRef|
            0 <= ly < lists.len() && has_watch(lists[ly], cref) implies #[trigger] has_watch(
            after[ly],
            cref,
        ) by {
            let j = choose|j: int| 0 <= j < lists[ly].len() && (#[trigger] lists[ly][j]).cref == cref;
            assert(after[ly][j].cref == cref);
        }
        assert forall|i: int| 0 <= i < bins.len() implies has_watch(
            after[(#[trigger] bins[i]).0.neg().spec_code() as int],
            ClauseRef::Binary(i as usize),
        ) && has_watch(after[bins[i].1.neg().spec_code() as int], ClauseRef::Binary(i as usize)) by {
            assert(has_watch(
                lists[bins[i].0.neg().spec_code() as int],
                ClauseRef::Binary(i as usize),
            ));
            assert(has_watch(
                lists[bins[i].1.neg().spec_code() as int],
                ClauseRef::Binary(i as usize),
            ));
            assert(bins[i].0.var() < n && bins[i].1.var() < n);
        }
        assert forall|i: int| 0 <= i < longs.len() implies has_watch(
            after[(#[trigger] longs[i])[0].neg().spec_code() as int],
            ClauseRef::Long(i as usize),
        ) && has_watch(after[longs[i][1].neg().spec_code() as int], ClauseRef::Long(i as usize)) by {
            assert(longs[i][0].var() < n && longs[i][1].var() < n);
            assert(has_watch(
                lists[longs[i][0].neg().spec_code() as int],
                ClauseRef::Long(i as usize),
            ));
            assert(has_watch(
                lists[longs[i][1].neg().spec_code() as int],
                ClauseRef::Long(i as usize),
            ));
        }
    }
}

impl State {
    /// The state is in order, every clause is watched, and every watched
    /// literal that is false and among the first `done` of the trail in
    /// negated form is backed.
    pub open spec fn tidy(self, done: int) -> bool {
        &&& self.inv()
        &&& watch_complete(self.bins, self.longs, self.watches)
        &&& self.watch_sem(done)
    }

    /// Once the detached list of `lit` is scanned to its end, every watched
    /// literal that is false and propagated is backed, `lit` included.
    pub proof fn scan_done(self, lit: Lit, local: Seq<Watch>)
        requires
            self.scanning(lit, local, local.len() as int),
        ensures
            self.watch_sem(self.pos),
    {
        let p = self.pos - 1;
        let code = lit.spec_code() as int;
        let full = self.watches.update(code, local);
        let n = self.vars();
        self.last_done_level(lit);
        assert(lit.var() < n);
        assert(lit_of(code) == lit);
        assert forall|x: Lit| x.var() < n && self.done_false(x, self.pos) && !self.done_false(
            x,
            p,
        ) implies x == lit.neg() && #[trigger] x.neg().spec_code() == code by {
            assert(self.asg[x.var()] is Some);
            assert(self.trail[self.place[x.var()]].var() == x.var());
        }
        assert forall|v: int| 0 <= v < n && self.asg[v] is Some implies (#[trigger] self.graph[v]).level
            <= self.level() by {
            level_of_assigned(self, v);
        }
        assert forall|i: int| 0 <= i < self.bins.len() implies (self.done_false(
            (#[trigger] self.bins[i]).0,
            self.pos,
        ) ==> is_true(self.asg, self.bins[i].1) && self.lv(self.bins[i].1) <= self.lv(
            self.bins[i].0,
        )) && (self.done_false(self.bins[i].1, self.pos) ==> is_true(self.asg, self.bins[i].0)
            && self.lv(self.bins[i].0) <= self.lv(self.bins[i].1)) by {
            let b = self.bins[i];
            assert(b.0.var() < n && b.1.var() < n && b.0.var() != b.1.var());
            if self.done_false(b.0, self.pos) && !self.done_false(b.0, p) {
                assert(b.0.neg().spec_code() == code);
                assert(has_watch(full[code], ClauseRef::Binary(i as usize)));
                let j = choose|j: int|
                    0 <= j < local.len() && (#[trigger] local[j]).cref == ClauseRef::Binary(
                        i as usize,
                    );
                assert(self.settled(local[j]));
                assert(watch_ok(self.bins, self.longs, n, code, full[code][j]));
                assert(self.asg[b.1.var()] is Some);
            }
            if self.done_false(b.1, self.pos) && !self.done_false(b.1, p) {
                assert(b.1.neg().spec_code() == code);
                assert(has_watch(full[code], ClauseRef::Binary(i as usize)));
                let j = choose|j: int|
                    0 <= j < local.len() && (#[trigger] local[j]).cref == ClauseRef::Binary(
                        i as usize,
                    );
                assert(self.settled(local[j]));
                assert(watch_ok(self.bins, self.longs, n, code, full[code][j]));
                assert(self.asg[b.0.var()] is Some);
            }
        }
        assert forall|i: int| 0 <= i < self.longs.len() implies (self.done_false(
            (#[trigger] self.longs[i])[0],
            self.pos,
        ) ==> self.backed(self.longs[i], self.longs[i][0])) && (self.done_false(
            self.longs[i][1],
            self.pos,
        ) ==> self.backed(self.longs[i], self.longs[i][1])) by {
            let c = self.longs[i];
            assert(c[0].var() < n && c[1].var() < n);
            if (self.done_false(c[0], self.pos) && !self.done_false(c[0], p)) || (self.done_false(
                c[1],
                self.pos,
            ) && !self.done_false(c[1], p)) {
                assert(has_watch(full[code], ClauseRef::Long(i as usize)));
                let j = choose|j: int|
                    0 <= j < local.len() && (#[trigger] local[j]).cref == ClauseRef::Long(
                        i as usize,
                    );
                assert(self.settled(local[j]));
                let k = choose|k: int| 0 <= k < c.len() && is_true(self.asg, #[trigger] c[k]);
                assert(c[k].var() < n);
                assert(self.asg[c[k].var()] is Some);
                assert(self.lv(c[k]) <= self.lv(lit));
            }
        }
    }

    /// Opening a decision level changes nothing for the watched literals.
    pub proof fn opened_keeps_sem(self, done: int)
        requires
            self.watch_sem(done),
        ensures
            self.opened().watch_sem(done),
    {
        let next = self.opened();
        assert forall|x: Lit, c: Seq<Lit>| self.backed(c, x) implies #[trigger] next.backed(c, x) by {
            let k = choose|k: int|
                0 <= k < c.len() && is_true(self.asg, #[trigger] c[k]) && self.lv(c[k]) <= self.lv(x);
            assert(is_true(next.asg, c[k]) && next.lv(c[k]) <= next.lv(x));
        }
        assert forall|i: int| 0 <= i < next.longs.len() implies (next.done_false(
            (#[trigger] next.longs[i])[0],
            done,
        ) ==> next.backed(next.longs[i], next.longs[i][0])) && (next.done_false(
            next.longs[i][1],
            done,
        ) ==> next.backed(next.longs[i], next.longs[i][1])) by {
            let c = self.longs[i];
            if next.done_false(c[0], done) {
                assert(self.done_false(c[0], done));
            }
            if next.done_false(c[1], done) {
                assert(self.done_false(c[1], done));
            }
        }
    }

    /// Learning a clause whose second literal was falsified at the present
    /// level, and asserting its first, leaves every clause watched and every
    /// propagated watched literal backed.
    pub proof fn learn_tidy(self, clause: Seq<Lit>)
        requires
            self.inv(),
            learnable(self, clause),
            watch_complete(self.bins, self.longs, self.watches),
            self.watch_sem(self.trail.len() as int),
            clause.len() >= 2 ==> self.lv(clause[1]) == self.level(),
            clause.len() == 2 ==> self.bins.len() < usize::MAX,
            clause.len() >= 3 ==> self.longs.len() < usize::MAX,
        ensures
            watch_complete(
                self.with_clause(clause).bins,
                self.with_clause(clause).longs,
                self.with_clause(clause).watches,
            ),
            self.with_clause(clause).assigned(clause[0], self.learnt_reason(clause)).watch_sem(
                self.trail.len() as int,
            ),
    {
        let mid = self.with_clause(clause);
        let next = mid.assigned(clause[0], self.learnt_reason(clause));
        let done = self.trail.len() as int;
        let n = self.vars();
        let lit = clause[0];
        self.with_clause_keeps(clause);
        assert(lit.var() < n);
        if clause.len() >= 2 {
            assert(clause[1].var() < n);
            assert(clause[0].var() != clause[1].var());
            let cref = if clause.len() == 2 {
                ClauseRef::Binary(self.bins.len() as usize)
            } else {
                ClauseRef::Long(self.longs.len() as usize)
            };
            watched_has_watch(self.watches, cref, clause[0], clause[1]);
            assert forall|i: int| 0 <= i < self.bins.len() implies has_watch(
                mid.watches[(#[trigger] self.bins[i]).0.neg().spec_code() as int],
                ClauseRef::Binary(i as usize),
            ) && has_watch(
                mid.watches[self.bins[i].1.neg().spec_code() as int],
                ClauseRef::Binary(i as usize),
            ) by {
                let b = self.bins[i];
                assert(b.0.var() < n && b.1.var() < n);
                watched_keeps_watch(
                    self.watches,
                    cref,
                    clause[0],
                    clause[1],
                    b.0.neg().spec_code() as int,
                    ClauseRef::Binary(i as usize),
                );
                watched_keeps_watch(
                    self.watches,
                    cref,
                    clause[0],
                    clause[1],
                    b.1.neg().spec_code() as int,
                    ClauseRef::Binary(i as usize),
                );
            }
            assert forall|i: int| 0 <= i < self.longs.len() implies has_watch(
                mid.watches[(#[trigger] self.longs[i])[0].neg().spec_code() as int],
                ClauseRef::Long(i as usize),
            ) && has_watch(
                mid.watches[self.longs[i][1].neg().spec_code() as int],
                ClauseRef::Long(i as usize),
            ) by {
                let c = self.longs[i];
                assert(c[0].var() < n && c[1].var() < n);
                watched_keeps_watch(
                    self.watches,
                    cref,
                    clause[0],
                    clause[1],
                    c[0].neg().spec_code() as int,
                    ClauseRef::Long(i as usize),
                );
                watched_keeps_watch(
                    self.watches,
                    cref,
                    clause[0],
                    clause[1],
                    c[1].neg().spec_code() as int,
                    ClauseRef::Long(i as usize),
                );
            }
            assert forall|i: int| 0 <= i < mid.bins.len() implies has_watch(
                mid.watches[(#[trigger] mid.bins[i]).0.neg().spec_code() as int],
                ClauseRef::Binary(i as usize),
            ) && has_watch(
                mid.watches[mid.bins[i].1.neg().spec_code() as int],
                ClauseRef::Binary(i as usize),
            ) by {
                if i < self.bins.len() {
                    assert(mid.bins[i] == self.bins[i]);
                }
            }
            assert forall|i: int| 0 <= i < mid.longs.len() implies has_watch(
                mid.watches[(#[trigger] mid.longs[i])[0].neg().spec_code() as int],
                ClauseRef::Long(i as usize),
            ) && has_watch(
                mid.watches[mid.longs[i][1].neg().spec_code() as int],
                ClauseRef::Long(i as usize),
            ) by {
                if i < self.longs.len() {
                    assert(mid.longs[i] == self.longs[i]);
                }
            }
        }
        assert forall|x: Lit, c: Seq<Lit>|
            x.var() < n && next.done_false(x, done) && self.backed(c, x)
                && crate::state::lits_below(c, n) implies #[trigger] next.backed(c, x) by {
            let k = choose|k: int|
                0 <= k < c.len() && is_true(self.asg, #[trigger] c[k]) && self.lv(c[k]) <= self.lv(x);
            assert(c[k].var() < n);
            assert(c[k].var() != lit.var());
            assert(x.var() != lit.var());
            assert(is_true(next.asg, c[k]) && next.lv(c[k]) <= next.lv(x));
        }
        assert(is_true(next.asg, lit));
        assert forall|i: int| 0 <= i < next.longs.len() implies (next.done_false(
            (#[trigger] next.longs[i])[0],
            done,
        ) ==> next.backed(next.longs[i], next.longs[i][0])) && (next.done_false(
            next.longs[i][1],
            done,
        ) ==> next.backed(next.longs[i], next.longs[i][1])) by {
            if i < self.longs.len() {
                let c = self.longs[i];
                assert(next.longs[i] == c);
                assert(c[0].var() < n && c[1].var() < n);
                if next.done_false(c[0], done) {
                    assert(self.done_false(c[0], done));
                }
                if next.done_false(c[1], done) {
                    assert(self.done_false(c[1], done));
                }
            } else {
                assert(next.longs[i] == clause);
                assert(clause[1].var() != lit.var());
                if next.done_false(clause[1], done) {
                    assert(is_true(next.asg, clause[0]) && next.lv(clause[0]) <= next.lv(clause[1]));
                }
            }
        }
        assert forall|i: int| 0 <= i < next.bins.len() implies (next.done_false(
            (#[trigger] next.bins[i]).0,
            done,
        ) ==> is_true(next.asg, next.bins[i].1) && next.lv(next.bins[i].1) <= next.lv(
            next.bins[i].0,
        )) && (next.done_false(next.bins[i].1, done) ==> is_true(next.asg, next.bins[i].0)
            && next.lv(next.bins[i].0) <= next.lv(next.bins[i].1)) by {
            if i < self.bins.len() {
                let b = self.bins[i];
                assert(next.bins[i] == b);
                assert(b.0.var() < n && b.1.var() < n);
                if next.done_false(b.0, done) {
                    assert(self.done_false(b.0, done));
                    assert(b.1.var() != lit.var());
                }
                if next.done_false(b.1, done) {
                    assert(self.done_false(b.1, done));
                    assert(b.0.var() != lit.var());
                }
            } else {
                assert(next.bins[i] == (clause[0], clause[1]));
                assert(clause[1].var() != lit.var());
            }
        }
    }
}

} // verus!
