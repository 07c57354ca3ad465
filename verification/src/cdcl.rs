//! Conflict analysis: from a falsified clause to a learned clause and the
//! level to go back to.

use crate::cnf::distinct_vars;
use crate::cone::{uip_kept, unmarked_then};
use crate::explain::{
    absorbed, antecedent_lits, explains, implied, nothing_left, resolved, stored_implied,
    swapped_implied, uip_implied,
};
use crate::db::swapped;
use crate::graph::{PropGraph, PropNode, PropReason};
use crate::lit::Lit;
use crate::moves::swapped_same;
use crate::prop::PropQueue;
use crate::solver::{ClauseRef, Solver};
use crate::state::{at_level, is_false, is_true, lits_below, reason_ok, unmarked, State};
use core::ops::Not;
use crate::uip::Marks;
use crate::walk::Clash;
use vstd::prelude::*;
use vstd::set_lib::{lemma_int_range, lemma_len_subset, set_int_range};

verus! {

/// A clause that propagation found with every literal false.
#[derive(Debug)]
pub enum Conflict {
    /// The two literals of a binary clause.
    Binary(Lit, Lit),
    /// The literals of a long clause.
    Long(Vec<Lit>),
}

impl Conflict {
    /// The literals of the falsified clause.
    pub open spec fn lits(self) -> Seq<Lit> {
        match self {
            Conflict::Binary(a, b) => seq![a, b],
            Conflict::Long(lits) => lits@,
        }
    }

    /// The falsified clause with its kind.
    pub open spec fn clash(self) -> Clash {
        match self {
            Conflict::Binary(a, b) => Clash::Binary(a, b),
            Conflict::Long(lits) => Clash::Long(lits@),
        }
    }
}

/// The analyzer's scratch space: one mark for each variable, the number of
/// marked variables of the present level that are still to be resolved, and
/// the clause being learned.
pub struct AnalyzeConflict {
    pub(crate) seen: Vec<bool>,
    pub(crate) to_search_node: usize,
    pub(crate) learnt_clause: Vec<Lit>,
}

impl AnalyzeConflict {
    /// Scratch space for no variables.
    pub(crate) fn new() -> (scratch: AnalyzeConflict)
        ensures
            scratch.seen@ == Seq::<bool>::empty(),
            scratch.learnt_clause@ == Seq::<Lit>::empty(),
    {
        AnalyzeConflict { seen: Vec::new(), to_search_node: 0, learnt_clause: Vec::new() }
    }

    /// Grows the marks to `var_count` variables, the new ones unmarked, or
    /// cuts them down to the first `var_count` variables.
    pub(crate) fn resize(&mut self, var_count: usize)
        ensures
            final(self).seen@.len() == var_count,
            forall|v: int|
                0 <= v < var_count ==> final(self).seen@[v] == (v < old(self).seen@.len() && old(
                    self,
                ).seen@[v]),
            final(self).learnt_clause == old(self).learnt_clause,
            final(self).to_search_node == old(self).to_search_node,
    {
        self.seen.truncate(var_count);
        while self.seen.len() < var_count
            invariant
                self.seen@.len() <= var_count,
                old(self).seen@.len() <= self.seen@.len() || self.seen@.len() == var_count,
                forall|v: int|
                    0 <= v < self.seen@.len() ==> self.seen@[v] == (v < old(self).seen@.len()
                        && old(self).seen@[v]),
                self.learnt_clause == old(self).learnt_clause,
                self.to_search_node == old(self).to_search_node,
            decreases var_count - self.seen.len(),
        {
            self.seen.push(false);
        }
    }

    /// Hands out the learned clause and leaves none behind; `None` where the
    /// learned clause has no literal.
    pub(crate) fn get_learnt_clause(&mut self) -> (learnt: Option<Vec<Lit>>)
        ensures
            final(self).seen == old(self).seen,
            final(self).to_search_node == old(self).to_search_node,
            final(self).learnt_clause@.len() == 0,
            old(self).learnt_clause@.len() == 0 ==> learnt is None,
            old(self).learnt_clause@.len() > 0 ==> learnt == Some(old(self).learnt_clause),
    {
        if self.learnt_clause.len() == 0 {
            None
        } else {
            let mut learnt: Vec<Lit> = Vec::new();
            core::mem::swap(&mut self.learnt_clause, &mut learnt);
            Some(learnt)
        }
    }
}

/// The marked variables that were assigned at level `level`.
pub open spec fn pending(seen: Seq<bool>, graph: Seq<PropNode>, level: int) -> Set<int> {
    Set::new(|v: int| 0 <= v < seen.len() && seen[v] && graph[v].level == level)
}

/// Whether one of `lits` belongs to the variable `v`.
pub open spec fn has_var(lits: Seq<Lit>, v: int) -> bool {
    exists|j: int| 0 <= j < lits.len() && (#[trigger] lits[j]).var() == v
}

/// What holds of the marks during an analysis: only assigned variables above
/// level 0 are marked; those of the present level stand on the trail before
/// position `bound`, and `count` counts them; the literals of the other
/// marked variables make up `learnt`.
pub open spec fn marks_ok(st: State, seen: Seq<bool>, count: int, learnt: Seq<Lit>, bound: int) -> bool {
    &&& seen.len() == st.vars()
    &&& forall|v: int|
        0 <= v < seen.len() && #[trigger] seen[v] ==> st.asg[v] is Some && st.graph[v].level > 0
            && (st.graph[v].level == st.level() ==> st.place[v] < bound) && (st.graph[v].level
            != st.level() ==> has_var(learnt, v))
    &&& forall|j: int|
        0 <= j < learnt.len() ==> (#[trigger] learnt[j]).var() < st.vars() && is_false(
            st.asg,
            learnt[j],
        ) && seen[learnt[j].var()] && 0 < st.lv(learnt[j]) < st.level()
    &&& distinct_vars(learnt)
    &&& pending(seen, st.graph, st.level()).finite()
    &&& count == pending(seen, st.graph, st.level()).len()
}

/// `learnt` is asserting at level `back`: its first literal was falsified at
/// the present level, every other literal at a level from 1 to `back`, the
/// second one at `back` itself, and `back` lies below the present level.
pub open spec fn asserting(st: State, learnt: Seq<Lit>, back: int) -> bool {
    &&& learnt.len() >= 1
    &&& lits_below(learnt, st.vars())
    &&& distinct_vars(learnt)
    &&& forall|j: int| 0 <= j < learnt.len() ==> is_false(st.asg, #[trigger] learnt[j])
    &&& st.lv(learnt[0]) == st.level()
    &&& forall|j: int| 1 <= j < learnt.len() ==> 0 < st.lv(#[trigger] learnt[j]) <= back
    &&& 0 <= back < st.level()
    &&& learnt.len() == 1 ==> back == 0
    &&& learnt.len() >= 2 ==> st.lv(learnt[1]) == back
}

/// The marked variables of one level are finitely many, at most as many as
/// there are variables.
pub proof fn pending_bounded(seen: Seq<bool>, graph: Seq<PropNode>, level: int)
    ensures
        pending(seen, graph, level).finite(),
        pending(seen, graph, level).len() <= seen.len(),
{
    lemma_int_range(0, seen.len() as int);
    assert(pending(seen, graph, level).subset_of(set_int_range(0, seen.len() as int)));
    lemma_len_subset(pending(seen, graph, level), set_int_range(0, seen.len() as int));
}

/// The recorded level of an assigned variable is at most the present level,
/// and positions of a lower level come before those of the present one.
pub proof fn level_of_assigned(st: State, v: int)
    requires
        st.core_ok(),
        0 <= v < st.vars(),
        st.asg[v] is Some,
    ensures
        0 <= st.graph[v].level <= st.level(),
        at_level(st.starts, st.place[v], st.graph[v].level as int),
        st.trail[st.place[v]].var() == v,
        0 <= st.place[v] < st.trail.len(),
{
    let k = st.place[v];
    assert(at_level(st.starts, k, st.graph[st.trail[k].var()].level as int));
}

/// Where the count is not 0, a marked variable of the present level is
/// left.
pub proof fn still_pending(st: State, seen: Seq<bool>, count: int, learnt: Seq<Lit>, bound: int)
    requires
        marks_ok(st, seen, count, learnt, bound),
        count >= 1,
    ensures
        exists|u: int|
            0 <= u < seen.len() && #[trigger] seen[u] && st.graph[u].level == st.level()
                && st.asg[u] is Some && st.place[u] < bound,
{
    let u = pending(seen, st.graph, st.level()).choose();
    assert(pending(seen, st.graph, st.level()).contains(u));
    assert(seen[u]);
}

/// Marking an unmarked variable of the present level.
pub proof fn mark_current(st: State, seen: Seq<bool>, count: int, learnt: Seq<Lit>, bound: int, lit: Lit)
    requires
        st.core_ok(),
        marks_ok(st, seen, count, learnt, bound),
        lit.var() < st.vars(),
        is_false(st.asg, lit),
        !seen[lit.var()],
        st.lv(lit) == st.level(),
        st.level() > 0,
        st.place[lit.var()] < bound,
    ensures
        marks_ok(st, seen.update(lit.var(), true), count + 1, learnt, bound),
        count + 1 <= st.vars(),
{
    let after = seen.update(lit.var(), true);
    assert(pending(after, st.graph, st.level()) =~= pending(seen, st.graph, st.level()).insert(
        lit.var(),
    ));
    pending_bounded(after, st.graph, st.level());
    assert forall|v: int| 0 <= v < after.len() && #[trigger] after[v] implies st.asg[v] is Some
        && st.graph[v].level > 0 && (st.graph[v].level == st.level() ==> st.place[v] < bound) && (
    st.graph[v].level != st.level() ==> has_var(learnt, v)) by {
        if v != lit.var() {
            assert(seen[v]);
        }
    }
}

/// Marking an unmarked variable of an earlier level: its literal joins the
/// learned clause.
pub proof fn mark_lower(st: State, seen: Seq<bool>, count: int, learnt: Seq<Lit>, bound: int, lit: Lit)
    requires
        st.core_ok(),
        marks_ok(st, seen, count, learnt, bound),
        lit.var() < st.vars(),
        is_false(st.asg, lit),
        !seen[lit.var()],
        0 < st.lv(lit),
        st.lv(lit) != st.level(),
    ensures
        marks_ok(st, seen.update(lit.var(), true), count, learnt.push(lit), bound),
{
    let after = seen.update(lit.var(), true);
    let more = learnt.push(lit);
    level_of_assigned(st, lit.var());
    assert(pending(after, st.graph, st.level()) =~= pending(seen, st.graph, st.level()));
    assert forall|v: int| 0 <= v < after.len() && #[trigger] after[v] implies st.asg[v] is Some
        && st.graph[v].level > 0 && (st.graph[v].level == st.level() ==> st.place[v] < bound) && (
    st.graph[v].level != st.level() ==> has_var(more, v)) by {
        if v != lit.var() {
            assert(seen[v]);
            if st.graph[v].level != st.level() {
                let j = choose|j: int| 0 <= j < learnt.len() && (#[trigger] learnt[j]).var() == v;
                assert(more[j].var() == v);
            }
        } else {
            assert(more[learnt.len() as int].var() == v);
        }
    }
    assert forall|a: int, b: int|
        #![trigger more[a], more[b]]
        0 <= a < b < more.len() implies more[a].var() != more[b].var() by {
        if b == learnt.len() {
            assert(seen[learnt[a].var()]);
        } else {
            assert(learnt[a].var() != learnt[b].var());
        }
    }
    assert forall|j: int| 0 <= j < more.len() implies (#[trigger] more[j]).var() < st.vars()
        && is_false(st.asg, more[j]) && after[more[j].var()] && 0 < st.lv(more[j]) < st.level() by {
        if j < learnt.len() {
            assert(more[j] == learnt[j]);
        }
    }
}

/// Passing over an unmarked literal of the trail.
pub proof fn skip_unmarked(st: State, seen: Seq<bool>, count: int, learnt: Seq<Lit>, bound: int)
    requires
        st.core_ok(),
        marks_ok(st, seen, count, learnt, bound),
        0 < bound <= st.trail.len(),
        !seen[st.trail[bound - 1].var()],
    ensures
        marks_ok(st, seen, count, learnt, bound - 1),
{
    assert forall|v: int| 0 <= v < seen.len() && #[trigger] seen[v] && st.graph[v].level
        == st.level() implies st.place[v] < bound - 1 by {
        level_of_assigned(st, v);
    }
}

/// A marked literal met on the way down the trail belongs to the present
/// level. With its mark taken off, one variable less is pending; if others
/// are, the literal is no decision and has a reason.
pub proof fn unmark_current(st: State, seen: Seq<bool>, count: int, learnt: Seq<Lit>, bound: int)
    requires
        st.core_ok(),
        marks_ok(st, seen, count, learnt, bound),
        0 < bound <= st.trail.len(),
        seen[st.trail[bound - 1].var()],
        count >= 1,
    ensures
        st.lv(st.trail[bound - 1]) == st.level(),
        marks_ok(st, seen.update(st.trail[bound - 1].var(), false), count - 1, learnt, bound - 1),
        count >= 2 ==> !(st.graph[st.trail[bound - 1].var()].reason is Unit),
        count == 1 ==> forall|v: int|
            0 <= v < seen.len() && #[trigger] seen[v] && v != st.trail[bound - 1].var()
                ==> st.graph[v].level != st.level(),
{
    let lit = st.trail[bound - 1];
    let v = lit.var();
    let level = st.level();
    let after = seen.update(v, false);
    let before_set = pending(seen, st.graph, level);
    assert(st.place[v] == bound - 1);
    assert(is_true(st.asg, lit));
    level_of_assigned(st, v);
    if st.graph[v].level != level {
        let u = before_set.choose();
        assert(before_set.contains(u));
        level_of_assigned(st, u);
        assert(st.place[u] < bound - 1);
        assert(st.starts[level - 1] <= st.place[u]);
        assert(false);
    }
    assert(pending(after, st.graph, level) =~= before_set.remove(v));
    assert forall|u: int| 0 <= u < after.len() && #[trigger] after[u] implies st.asg[u] is Some
        && st.graph[u].level > 0 && (st.graph[u].level == level ==> st.place[u] < bound - 1) && (
    st.graph[u].level != level ==> has_var(learnt, u)) by {
        assert(seen[u]);
        level_of_assigned(st, u);
    }
    assert forall|j: int| 0 <= j < learnt.len() implies after[(#[trigger] learnt[j]).var()] by {
        assert(seen[learnt[j].var()]);
    }
    if count >= 2 {
        let rest = before_set.remove(v);
        let u = rest.choose();
        assert(rest.contains(u));
        level_of_assigned(st, u);
        assert(st.place[u] < bound - 1);
        assert(st.starts[level - 1] <= st.place[u]);
        assert(reason_ok(st.asg, st.longs, st.starts, st.place, st.trail[bound - 1], bound - 1, st.graph[v]));
    }
    if count == 1 {
        assert forall|u: int| 0 <= u < seen.len() && #[trigger] seen[u] && u != v implies st.graph[u].level
            != level by {
            if st.graph[u].level == level {
                assert(before_set.remove(v).contains(u));
            }
        }
    }
}

/// What holds of a learned clause whose first literal is the negation of the
/// first unique implication point: every literal is false, the first was
/// falsified at the present level and the others at earlier levels above 0.
pub open spec fn learnt_ok(st: State, learnt: Seq<Lit>) -> bool {
    &&& learnt.len() >= 1
    &&& lits_below(learnt, st.vars())
    &&& distinct_vars(learnt)
    &&& forall|j: int| 0 <= j < learnt.len() ==> is_false(st.asg, #[trigger] learnt[j])
    &&& st.lv(learnt[0]) == st.level()
    &&& forall|j: int| 1 <= j < learnt.len() ==> 0 < st.lv(#[trigger] learnt[j]) < st.level()
}

/// Once a single marked variable of the present level is left and its mark
/// is taken off, the negation of its literal completes the learned clause,
/// and every mark that is left belongs to a literal of that clause.
pub proof fn uip_closes(st: State, seen: Seq<bool>, learnt: Seq<Lit>, bound: int, lit: Lit)
    requires
        st.core_ok(),
        marks_ok(st, seen, 0, learnt, bound),
        st.level() > 0,
        lit.var() < st.vars(),
        is_true(st.asg, lit),
        st.lv(lit) == st.level(),
        !seen[lit.var()],
    ensures
        learnt_ok(st, swapped(learnt.push(lit.neg()), 0, learnt.len() as int)),
        forall|v: int|
            0 <= v < seen.len() && #[trigger] seen[v] ==> has_var(
                swapped(learnt.push(lit.neg()), 0, learnt.len() as int),
                v,
            ),
{
    let more = learnt.push(lit.neg());
    let done = swapped(more, 0, learnt.len() as int);
    let last = learnt.len() as int;
    pending(seen, st.graph, st.level()).lemma_len0_is_empty();
    assert forall|j: int| 0 <= j < more.len() implies (#[trigger] more[j]).var() < st.vars()
        && is_false(st.asg, more[j]) by {
        if j < last {
            assert(more[j] == learnt[j]);
        }
    }
    assert forall|a: int, b: int|
        #![trigger more[a], more[b]]
        0 <= a < b < more.len() implies more[a].var() != more[b].var() by {
        if b == last {
            assert(seen[learnt[a].var()]);
        } else {
            assert(learnt[a].var() != learnt[b].var());
        }
    }
    swapped_same(more, 0, last);
    assert forall|j: int| 0 <= j < done.len() implies is_false(st.asg, #[trigger] done[j]) by {
        if j == 0 {
            assert(done[j] == more[last]);
        } else if j == last {
            assert(done[j] == more[0]);
        } else {
            assert(done[j] == more[j]);
        }
    }
    assert forall|j: int| 1 <= j < done.len() implies 0 < st.lv(#[trigger] done[j]) < st.level() by {
        if j == last {
            assert(done[j] == learnt[0]);
        } else {
            assert(done[j] == learnt[j]);
        }
    }
    assert forall|v: int| 0 <= v < seen.len() && #[trigger] seen[v] implies has_var(done, v) by {
        if st.graph[v].level == st.level() {
            assert(pending(seen, st.graph, st.level()).contains(v));
        }
        let j = choose|j: int| 0 <= j < learnt.len() && (#[trigger] learnt[j]).var() == v;
        if j == 0 {
            assert(done[last].var() == v);
        } else {
            assert(done[j].var() == v);
        }
    }
}

/// Exchanging two literals of a learned clause after its first keeps what
/// holds of it.
pub proof fn learnt_swap(st: State, learnt: Seq<Lit>, a: int, b: int)
    requires
        learnt_ok(st, learnt),
        1 <= a < learnt.len(),
        1 <= b < learnt.len(),
    ensures
        learnt_ok(st, swapped(learnt, a, b)),
{
    let after = swapped(learnt, a, b);
    swapped_same(learnt, a, b);
    assert forall|j: int| 0 <= j < after.len() implies is_false(st.asg, #[trigger] after[j]) by {
        if j == a {
            assert(after[j] == learnt[b]);
        } else if j == b {
            assert(after[j] == learnt[a]);
        } else {
            assert(after[j] == learnt[j]);
        }
    }
    assert forall|j: int| 1 <= j < after.len() implies 0 < st.lv(#[trigger] after[j]) < st.level() by {
        if j == a {
            assert(after[j] == learnt[b]);
        } else if j == b {
            assert(after[j] == learnt[a]);
        } else {
            assert(after[j] == learnt[j]);
        }
    }
}

/// Exchanges the literals at positions `a` and `b` of `lits`.
pub(crate) fn swap_lits(lits: &mut Vec<Lit>, a: usize, b: usize)
    requires
        a < old(lits)@.len(),
        b < old(lits)@.len(),
    ensures
        final(lits)@ == swapped(old(lits)@, a as int, b as int),
{
    let first = lits[a];
    let second = lits[b];
    lits[a] = second;
    lits[b] = first;
}

impl AnalyzeConflict {
    /// Marks the variables of `clause` that are not marked yet and were
    /// assigned above level 0: one of the present level is counted, the
    /// literal of any other joins the learned clause.
    pub(crate) fn analyze_clause(
        prop_graph: &PropGraph,
        prop_queue: &PropQueue,
        clause: &[Lit],
        seen: &mut Vec<bool>,
        to_search_node: &mut usize,
        learnt_clause: &mut Vec<Lit>,
        Ghost(st): Ghost<State>,
        Ghost(bound): Ghost<int>,
    )
        requires
            st.core_ok(),
            st.sound(),
            prop_graph@ == st.graph,
            prop_queue.starts() == st.starts,
            marks_ok(st, old(seen)@, *old(to_search_node) as int, old(learnt_clause)@, bound),
            explains(st, old(seen)@, old(learnt_clause)@, clause@),
            st.known(clause@),
            st.marks_known(old(seen)@),
            st.known(old(learnt_clause)@),
            forall|j: int|
                0 <= j < clause@.len() ==> (#[trigger] clause@[j]).var() < st.vars() && is_false(
                    st.asg,
                    clause@[j],
                ) && (st.lv(clause@[j]) == st.level() ==> st.place[clause@[j].var()] < bound),
        ensures
            st.absorb(
                Marks {
                    seen: old(seen)@,
                    count: *old(to_search_node) as int,
                    learnt: old(learnt_clause)@,
                },
                clause@,
                0,
            ) == (Marks {
                seen: final(seen)@,
                count: *final(to_search_node) as int,
                learnt: final(learnt_clause)@,
            }),
            marks_ok(st, final(seen)@, *final(to_search_node) as int, final(learnt_clause)@, bound),
            explains(st, final(seen)@, final(learnt_clause)@, Seq::empty()),
            st.marks_known(final(seen)@),
            st.known(final(learnt_clause)@),
            st.marked_by(old(seen)@, final(seen)@, clause@),
            *final(to_search_node) >= *old(to_search_node),
            st.level() > 0 && (exists|j: int|
                0 <= j < clause@.len() && st.lv(#[trigger] clause@[j]) == st.level())
                ==> *final(to_search_node) >= 1,
    {
        let mut idx: usize = 0;
        proof {
            assert(clause@.subrange(0, clause@.len() as int) =~= clause@);
            st.marked_none(seen@, clause@);
        }
        while idx < clause.len()
            invariant
                idx <= clause.len(),
                st.core_ok(),
                st.sound(),
                explains(st, seen@, learnt_clause@, clause@.subrange(idx as int, clause@.len() as int)),
                prop_graph@ == st.graph,
                prop_queue.starts() == st.starts,
                marks_ok(st, seen@, *to_search_node as int, learnt_clause@, bound),
                st.known(clause@),
                st.marks_known(seen@),
                st.known(learnt_clause@),
                st.marked_upto(old(seen)@, seen@, clause@, idx as int),
                st.absorb(
                    Marks { seen: seen@, count: *to_search_node as int, learnt: learnt_clause@ },
                    clause@,
                    idx as int,
                ) == st.absorb(
                    Marks {
                        seen: old(seen)@,
                        count: *old(to_search_node) as int,
                        learnt: old(learnt_clause)@,
                    },
                    clause@,
                    0,
                ),
                *to_search_node >= *old(to_search_node),
                forall|j: int|
                    0 <= j < clause@.len() ==> (#[trigger] clause@[j]).var() < st.vars()
                        && is_false(st.asg, clause@[j]) && (st.lv(clause@[j]) == st.level()
                        ==> st.place[clause@[j].var()] < bound),
                st.level() > 0 && (exists|j: int|
                    0 <= j < idx && st.lv(#[trigger] clause@[j]) == st.level())
                    ==> *to_search_node >= 1,
            decreases clause.len() - idx,
        {
            let lit = clause[idx];
            let node = prop_graph.get_node(&lit);
            let ghost marks = seen@;
            let ghost count = *to_search_node as int;
            let ghost before = learnt_clause@;
            proof {
                assert(clause@[idx as int] == lit);
                level_of_assigned(st, lit.var());
                pending_bounded(marks, st.graph, st.level());
                if marks[lit.var()] && st.lv(lit) == st.level() {
                    assert(pending(marks, st.graph, st.level()).contains(lit.var()));
                }
            }
            if !seen[lit.index()] && node.level > 0 {
                seen[lit.index()] = true;
                if node.level == prop_queue.current_level() {
                    proof {
                        mark_current(st, marks, count, learnt_clause@, bound, lit);
                        st.known_at(clause@, idx as int);
                        st.mark_known(marks, lit.var(), true);
                    }
                    *to_search_node += 1;
                } else {
                    proof {
                        mark_lower(st, marks, count, learnt_clause@, bound, lit);
                        st.known_at(clause@, idx as int);
                        st.mark_known(marks, lit.var(), true);
                        st.push_known(learnt_clause@, lit);
                    }
                    learnt_clause.push(lit);
                }
            }
            proof {
                st.marked_one(old(seen)@, marks, seen@, clause@, idx as int);
                let rest = clause@.subrange(idx as int, clause@.len() as int);
                absorbed(
                    st,
                    marks,
                    before,
                    rest,
                    seen@,
                    *to_search_node as int,
                    learnt_clause@,
                    bound,
                );
                assert(rest.subrange(1, rest.len() as int) =~= clause@.subrange(
                    idx + 1,
                    clause@.len() as int,
                ));
            }
            idx += 1;
        }
        proof {
            assert(clause@.subrange(clause@.len() as int, clause@.len() as int) =~= Seq::<
                Lit,
            >::empty());
            st.marked_all(old(seen)@, seen@, clause@);
        }
    }
}

impl Solver {
    /// `self` differs from `other` in the analyzer's scratch space at most.
    pub open(crate) spec fn same_search(&self, other: &Solver) -> bool {
        &&& self.assignment == other.assignment
        &&& self.clause_db == other.clause_db
        &&& self.max_lit_index == other.max_lit_index
        &&& self.default_polarity == other.default_polarity
        &&& self.watch_lists == other.watch_lists
        &&& self.prop_graph == other.prop_graph
        &&& self.prop_queue == other.prop_queue
        &&& self.state == other.state
        &&& self.place == other.place
    }

    /// Derives the learned clause from a falsified clause by resolving back
    /// along the trail to the first unique implication point, and returns the
    /// level to go back to. The learned clause is left in the scratch space:
    /// its first literal is the asserting one, its second the one falsified
    /// at the level returned. At level 0 the learned clause is empty. The
    /// clause is the one that `learned` gives, literal by literal, and its
    /// variables are among those that the stored clauses mention.
    pub(crate) fn analyze_conflict(&mut self, conflict: Conflict) -> (backtrack: usize)
        requires
            old(self)@.inv(),
            old(self)@.sound(),
            old(self)@.conflict_ok(conflict.lits()),
            old(self)@.from_db(conflict.lits()),
            old(self)@.accounted(old(self).default_polarity),
        ensures
            old(self)@.level() > 0 ==> old(self)@.asserts_first_uip(
                conflict.lits(),
                final(self).analyze_conflict.learnt_clause@,
            ),
            old(self)@.known(final(self).analyze_conflict.learnt_clause@),
            final(self).analyze_conflict.learnt_clause@ == old(self)@.learned(conflict.lits()),
            backtrack == old(self)@.back_level(final(self).analyze_conflict.learnt_clause@),
            final(self).same_search(old(self)),
            final(self)@ == old(self)@,
            old(self)@.level() == 0 ==> old(self)@.unsatisfiable(),
            old(self)@.level() > 0 ==> implied(
                old(self)@,
                final(self).analyze_conflict.learnt_clause@,
            ),
            old(self)@.level() == 0 ==> final(self).analyze_conflict.learnt_clause@.len() == 0
                && backtrack == 0,
            old(self)@.level() > 0 ==> asserting(
                old(self)@,
                final(self).analyze_conflict.learnt_clause@,
                backtrack as int,
            ),
    {
        let ghost st = self@;
        let ghost lits = conflict.lits();
        let clause: Vec<Lit> = match conflict {
            Conflict::Binary(a, b) => {
                let mut pair: Vec<Lit> = Vec::new();
                pair.push(a);
                pair.push(b);
                assert(pair@ =~= conflict.lits());
                pair
            },
            Conflict::Long(lits) => lits,
        };
        self.analyze_conflict.to_search_node = 0;
        self.analyze_conflict.learnt_clause.clear();
        proof {
            st.stored_known(conflict.lits());
            st.marks_known_none(st.seen);
            st.known_empty();
            stored_implied(st, conflict.lits());
            assert(pending(st.seen, st.graph, st.level()) =~= Set::<int>::empty());
            assert forall|j: int| 0 <= j < clause@.len() implies (#[trigger] clause@[j]).var()
                < st.vars() && is_false(st.asg, clause@[j]) && (st.lv(clause@[j]) == st.level()
                ==> st.place[clause@[j].var()] < st.trail.len()) by {
                level_of_assigned(st, clause@[j].var());
            }
        }
        AnalyzeConflict::analyze_clause(
            &self.prop_graph,
            &self.prop_queue,
            clause.as_slice(),
            &mut self.analyze_conflict.seen,
            &mut self.analyze_conflict.to_search_node,
            &mut self.analyze_conflict.learnt_clause,
            Ghost(st),
            Ghost(st.trail.len() as int),
        );
        proof {
            assert(unmarked_then(st, self.analyze_conflict.seen@, lits));
            if st.level() > 0 {
                st.cone_start(lits, self.analyze_conflict.seen@);
            }
        }
        let ghost target = st.resolve_back(
            Marks {
                seen: self.analyze_conflict.seen@,
                count: self.analyze_conflict.to_search_node as int,
                learnt: self.analyze_conflict.learnt_clause@,
            },
            st.trail.len() as int,
        );
        proof {
            assert(st.learned(conflict.lits()) == st.raised(target, 2));
        }
        let mut i: usize = self.prop_queue.trail.len();
        let mut found = false;
        while i > 0 && !found
            invariant
                self.same_search(old(self)),
                st.accounted(self.default_polarity),
                st.known(self.analyze_conflict.learnt_clause@),
                !found && st.level() > 0 ==> st.cone_marks(
                    lits,
                    self.analyze_conflict.seen@,
                    i as int,
                ),
                found ==> st.asserts_first_uip(lits, self.analyze_conflict.learnt_clause@),
                !found ==> st.marks_known(self.analyze_conflict.seen@),
                !found ==> st.resolve_back(
                    Marks {
                        seen: self.analyze_conflict.seen@,
                        count: self.analyze_conflict.to_search_node as int,
                        learnt: self.analyze_conflict.learnt_clause@,
                    },
                    i as int,
                ) == target,
                found ==> self.analyze_conflict.learnt_clause@ == target,
                st == old(self)@,
                st.inv(),
                st.sound(),
                i <= st.trail.len(),
                !found ==> marks_ok(
                    st,
                    self.analyze_conflict.seen@,
                    self.analyze_conflict.to_search_node as int,
                    self.analyze_conflict.learnt_clause@,
                    i as int,
                ) && (st.level() > 0 ==> self.analyze_conflict.to_search_node >= 1) && explains(
                    st,
                    self.analyze_conflict.seen@,
                    self.analyze_conflict.learnt_clause@,
                    Seq::empty(),
                ),
                found ==> implied(st, self.analyze_conflict.learnt_clause@),
                found ==> st.level() > 0 && learnt_ok(st, self.analyze_conflict.learnt_clause@)
                    && self.analyze_conflict.seen@.len() == st.vars() && forall|v: int|
                    0 <= v < st.vars() && #[trigger] self.analyze_conflict.seen@[v] ==> has_var(
                        self.analyze_conflict.learnt_clause@,
                        v,
                    ),
            decreases i,
        {
            let ghost marks = self.analyze_conflict.seen@;
            let ghost count = self.analyze_conflict.to_search_node as int;
            let ghost learnt = self.analyze_conflict.learnt_clause@;
            i -= 1;
            let lit = self.prop_queue.trail[i];
            proof {
                assert(st.trail[i as int].var() < st.vars());
                assert(is_true(st.asg, st.trail[i as int]));
            }
            if self.analyze_conflict.seen[lit.index()] {
                proof {
                    level_of_assigned(st, lit.var());
                    unmark_current(st, marks, count, learnt, i + 1);
                    st.marked_known(marks, lit.var());
                    st.mark_known(marks, lit.var(), false);
                    st.reason_known(i as int, self.default_polarity);
                }
                self.analyze_conflict.seen[lit.index()] = false;
                if self.analyze_conflict.to_search_node == 1 {
                    proof {
                        uip_closes(st, self.analyze_conflict.seen@, learnt, i as int, lit);
                        uip_implied(st, marks, learnt, i as int);
                        lit.neg_flips();
                        st.push_known(learnt, lit.neg());
                        st.swap_known(learnt.push(lit.neg()), 0, learnt.len() as int);
                        st.cone_found(lits, marks, i + 1);
                    }
                    self.analyze_conflict.learnt_clause.push(lit.not());
                    let last = self.analyze_conflict.learnt_clause.len() - 1;
                    swap_lits(&mut self.analyze_conflict.learnt_clause, 0, last);
                    proof {
                        assert(st.first_uip(lits, i as int));
                        assert(self.analyze_conflict.learnt_clause@[0] == st.trail[i as int].neg());
                    }
                    found = true;
                } else {
                    self.analyze_conflict.to_search_node -= 1;
                    let reason = self.prop_graph.get_node(&lit).reason;
                    let ghost mid = self.analyze_conflict.seen@;
                    proof {
                        assert(reason_ok(
                            st.asg,
                            st.longs,
                            st.starts,
                            st.place,
                            st.trail[i as int],
                            i as int,
                            st.graph[st.trail[i as int].var()],
                        ));
                        resolved(st, marks, learnt, i as int);
                    }
                    match reason {
                        PropReason::Unit => {},
                        PropReason::Binary(other) => {
                            let mut one: Vec<Lit> = Vec::new();
                            one.push(other);
                            proof {
                                assert(one@ =~= antecedent_lits(st, reason));
                            }
                            AnalyzeConflict::analyze_clause(
                                &self.prop_graph,
                                &self.prop_queue,
                                one.as_slice(),
                                &mut self.analyze_conflict.seen,
                                &mut self.analyze_conflict.to_search_node,
                                &mut self.analyze_conflict.learnt_clause,
                                Ghost(st),
                                Ghost(i as int),
                            );
                        },
                        PropReason::Long(cref) => match cref {
                            ClauseRef::Binary(_) => {},
                            ClauseRef::Long(c) => {
                                let whole = self.clause_db.long_clauses[c].as_slice();
                                let rest = vstd::slice::slice_subrange(whole, 1, whole.len());
                                proof {
                                    assert(whole@ == st.longs[c as int]);
                                    assert(rest@ == antecedent_lits(st, reason));
                                    assert forall|j: int| 0 <= j < rest@.len() implies (
                                    #[trigger] rest@[j]).var() < st.vars() && is_false(
                                        st.asg,
                                        rest@[j],
                                    ) && (st.lv(rest@[j]) == st.level() ==> st.place[rest@[j].var()]
                                        < i) by {
                                        assert(rest@[j] == st.longs[c as int][j + 1]);
                                    }
                                }
                                AnalyzeConflict::analyze_clause(
                                    &self.prop_graph,
                                    &self.prop_queue,
                                    rest,
                                    &mut self.analyze_conflict.seen,
                                    &mut self.analyze_conflict.to_search_node,
                                    &mut self.analyze_conflict.learnt_clause,
                                    Ghost(st),
                                    Ghost(i as int),
                                );
                            },
                        },
                    }
                    proof {
                        still_pending(st, mid, count - 1, learnt, i as int);
                        let u = choose|u: int|
                            0 <= u < mid.len() && #[trigger] mid[u] && st.graph[u].level
                                == st.level() && st.asg[u] is Some && st.place[u] < i;
                        assert(st.marked_by(
                            mid,
                            self.analyze_conflict.seen@,
                            antecedent_lits(st, reason),
                        ));
                        st.cone_resolve(lits, marks, self.analyze_conflict.seen@, i + 1, u);
                    }
                }
            } else {
                proof {
                    skip_unmarked(st, marks, count, learnt, i + 1);
                    if st.level() > 0 {
                        st.cone_skip(lits, marks, i + 1);
                    }
                }
            }
        }
        proof {
            let marks = self.analyze_conflict.seen@;
            let learnt = self.analyze_conflict.learnt_clause@;
            if !found {
                if st.level() > 0 {
                    let u = pending(marks, st.graph, st.level()).choose();
                    assert(pending(marks, st.graph, st.level()).contains(u));
                    level_of_assigned(st, u);
                    assert(false);
                }
                assert forall|v: int| 0 <= v < st.vars() implies !#[trigger] marks[v] by {
                    if marks[v] {
                        level_of_assigned(st, v);
                    }
                }
                if learnt.len() > 0 {
                    assert(0 < st.lv(learnt[0]) < st.level());
                }
                assert(learnt =~= Seq::<Lit>::empty());
                assert(unmarked(marks));
                nothing_left(st, marks);
            }
        }
        assert(self.analyze_conflict.learnt_clause@ == target);
        let len = self.analyze_conflict.learnt_clause.len();
        let mut j: usize = 0;
        while j < len
            invariant
                self.same_search(old(self)),
                self.analyze_conflict.learnt_clause@ == target,
                st.known(self.analyze_conflict.learnt_clause@),
                found ==> st.asserts_first_uip(lits, self.analyze_conflict.learnt_clause@),
                st == old(self)@,
                j <= len,
                len == self.analyze_conflict.learnt_clause@.len(),
                self.analyze_conflict.seen@.len() == st.vars(),
                lits_below(self.analyze_conflict.learnt_clause@, st.vars()),
                found ==> st.level() > 0 && learnt_ok(st, self.analyze_conflict.learnt_clause@),
                found ==> implied(st, self.analyze_conflict.learnt_clause@),
                !found ==> len == 0 && st.level() == 0,
                forall|v: int|
                    0 <= v < st.vars() && #[trigger] self.analyze_conflict.seen@[v] ==> exists|
                        t: int,
                    |
                        j <= t < len && (#[trigger] self.analyze_conflict.learnt_clause@[t]).var()
                            == v,
            decreases len - j,
        {
            let lit = self.analyze_conflict.learnt_clause[j];
            let ghost marks = self.analyze_conflict.seen@;
            let ghost learnt = self.analyze_conflict.learnt_clause@;
            self.analyze_conflict.seen[lit.index()] = false;
            proof {
                assert forall|v: int|
                    0 <= v < st.vars() && #[trigger] self.analyze_conflict.seen@[v] implies exists|
                    t: int,
                | j + 1 <= t < len && (#[trigger] learnt[t]).var() == v by {
                    assert(marks[v]);
                    let t = choose|t: int| j <= t < len && (#[trigger] learnt[t]).var() == v;
                    assert(t != j);
                    assert(j + 1 <= t < len && learnt[t].var() == v);
                }
            }
            j += 1;
        }
        let mut backtrack: usize = 0;
        if len >= 2 {
            backtrack = self.prop_graph.get_node(&self.analyze_conflict.learnt_clause[1]).level;
            let mut k: usize = 2;
            while k < len
                invariant
                    self.same_search(old(self)),
                    st.raised(self.analyze_conflict.learnt_clause@, k as int) == st.raised(
                        target,
                        2,
                    ),
                    st.known(self.analyze_conflict.learnt_clause@),
                    st.asserts_first_uip(lits, self.analyze_conflict.learnt_clause@),
                    st == old(self)@,
                    st.inv(),
                    2 <= k <= len,
                    len == self.analyze_conflict.learnt_clause@.len(),
                    unmarked(self.analyze_conflict.seen@),
                    self.analyze_conflict.seen@.len() == st.vars(),
                    st.level() > 0,
                    learnt_ok(st, self.analyze_conflict.learnt_clause@),
                    implied(st, self.analyze_conflict.learnt_clause@),
                    backtrack == st.lv(self.analyze_conflict.learnt_clause@[1]),
                    forall|t: int|
                        1 <= t < k ==> st.lv(#[trigger] self.analyze_conflict.learnt_clause@[t])
                            <= backtrack,
                decreases len - k,
            {
                let ghost learnt = self.analyze_conflict.learnt_clause@;
                let level = self.prop_graph.get_node(&self.analyze_conflict.learnt_clause[k]).level;
                if level > backtrack {
                    backtrack = level;
                    proof {
                        learnt_swap(st, learnt, 1, k as int);
                        swapped_implied(st, learnt, 1, k as int);
                        st.swap_known(learnt, 1, k as int);
                    }
                    swap_lits(&mut self.analyze_conflict.learnt_clause, 1, k);
                    proof {
                        let after = self.analyze_conflict.learnt_clause@;
                        uip_kept(st, lits, learnt, after);
                        assert forall|t: int| 1 <= t < k + 1 implies st.lv(#[trigger] after[t])
                            <= backtrack by {
                            if t == 1 {
                            } else if t == k {
                                assert(after[t] == learnt[1]);
                            } else {
                                assert(after[t] == learnt[t]);
                            }
                        }
                    }
                }
                k += 1;
            }
        }
        proof {
            assert(self@.seen =~= st.seen);
        }
        backtrack
    }
}

} // verus!
