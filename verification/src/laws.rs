//! What holds of the solver whatever the formula: the laws that the steps
//! of the search obey, each proved from the contracts of the steps.

use crate::cdcl::{asserting, level_of_assigned};
use crate::cnf::dedup;
use crate::graph::PropReason;
use crate::learn::learnable;
use crate::lit::Lit;
use crate::solver::{ClauseRef, SolveState, Solver};
use crate::state::{is_false, is_true, reason_ok, State};
use vstd::prelude::*;

verus! {

/// A clause without repetitions holds every literal of the clause it was
/// made from, and each of them once.
pub proof fn dedup_once(clause: Seq<Lit>)
    ensures
        forall|x: Lit| clause.contains(x) <==> #[trigger] dedup(clause).contains(x),
        forall|i: int, j: int|
            0 <= i < j < dedup(clause).len() ==> #[trigger] dedup(clause)[i] != #[trigger] dedup(
                clause,
            )[j],
    decreases clause.len(),
{
    if clause.len() > 0 {
        let front = clause.drop_last();
        let last = clause.last();
        let d = dedup(clause);
        dedup_once(front);
        assert forall|x: Lit| clause.contains(x) <==> #[trigger] d.contains(x) by {
            if clause.contains(x) {
                let k = choose|k: int| 0 <= k < clause.len() && clause[k] == x;
                if k < front.len() {
                    assert(front[k] == x);
                    assert(front.contains(x));
                    assert(dedup(front).contains(x));
                    let t = choose|t: int| 0 <= t < dedup(front).len() && dedup(front)[t] == x;
                    assert(d[t] == x);
                } else if front.contains(last) {
                    assert(dedup(front).contains(x));
                } else {
                    assert(d[d.len() - 1] == x);
                }
            }
            if d.contains(x) {
                let t = choose|t: int| 0 <= t < d.len() && d[t] == x;
                if t < dedup(front).len() {
                    assert(dedup(front)[t] == x);
                    assert(dedup(front).contains(x));
                    assert(front.contains(x));
                    let k = choose|k: int| 0 <= k < front.len() && front[k] == x;
                    assert(clause[k] == x);
                } else {
                    assert(clause[clause.len() - 1] == x);
                }
            }
        }
        assert forall|i: int, j: int| 0 <= i < j < d.len() implies #[trigger] d[i] != #[trigger] d[j] by {
            if j < dedup(front).len() {
                assert(dedup(front)[i] != dedup(front)[j]);
            } else {
                assert(dedup(front)[i] == d[i]);
                assert(dedup(front).contains(d[i]));
            }
        }
    }
}

/// On the trail every forced literal stands after the literals that forced
/// it: each other literal of its reason is false, and its negation stands
/// earlier on the trail.
pub proof fn antecedents_stand_earlier(st: State, k: int)
    requires
        st.core_ok(),
        0 <= k < st.trail.len(),
    ensures
        match st.graph[st.trail[k].var()].reason {
            PropReason::Unit => true,
            PropReason::Binary(other) => 0 <= st.place[other.var()] < k
                && st.trail[st.place[other.var()]] == other.neg(),
            PropReason::Long(ClauseRef::Long(c)) => st.longs[c as int][0] == st.trail[k]
                && forall|j: int|
                1 <= j < st.longs[c as int].len() ==> 0 <= st.place[(
                #[trigger] st.longs[c as int][j]).var()] < k
                    && st.trail[st.place[st.longs[c as int][j].var()]] == st.longs[c as int][j].neg(),
            PropReason::Long(ClauseRef::Binary(_)) => false,
        },
{
    let node = st.graph[st.trail[k].var()];
    assert(reason_ok(st.asg, st.longs, st.starts, st.place, st.trail[k], k, node));
    match node.reason {
        PropReason::Binary(other) => {
            assert(other.var() < st.vars());
            level_of_assigned(st, other.var());
            assert(is_true(st.asg, st.trail[st.place[other.var()]]));
        },
        PropReason::Long(ClauseRef::Long(c)) => {
            let clause = st.longs[c as int];
            assert forall|j: int| 1 <= j < clause.len() implies 0 <= st.place[(
            #[trigger] clause[j]).var()] < k && st.trail[st.place[clause[j].var()]]
                == clause[j].neg() by {
                assert(is_false(st.asg, clause[j]));
                assert(clause[j].var() < st.vars());
                level_of_assigned(st, clause[j].var());
                assert(is_true(st.asg, st.trail[st.place[clause[j].var()]]));
            }
        },
        _ => {},
    }
}

/// Going back to level `level` leaves the trail as long as it was when the
/// next level was opened, takes the value from the variables of the
/// literals that left the trail and from no others, and keeps the state in
/// order.
pub proof fn going_back_cuts_the_trail(st: State, level: int)
    requires
        st.core_ok(),
        0 <= level < st.level(),
    ensures
        st.cut(level).trail == st.trail.take(st.starts[level] as int),
        st.cut(level).trail.len() == st.starts[level],
        st.cut(level).level() == level,
        forall|v: int|
            0 <= v < st.vars() ==> #[trigger] st.cut(level).asg[v] == if exists|k: int|
                st.starts[level] <= k < st.trail.len() && (#[trigger] st.trail[k]).var() == v {
                None
            } else {
                st.asg[v]
            },
        st.cut(level).core_ok(),
{
    st.cut_keeps_core(level);
    let new_len = st.starts[level] as int;
    assert forall|v: int| 0 <= v < st.vars() implies #[trigger] st.cut(level).asg[v] == if exists|
        k: int,
    |
        st.starts[level] <= k < st.trail.len() && (#[trigger] st.trail[k]).var() == v {
        None
    } else {
        st.asg[v]
    } by {
        if exists|k: int| new_len <= k < st.trail.len() && (#[trigger] st.trail[k]).var() == v {
            let k = choose|k: int| new_len <= k < st.trail.len() && (#[trigger] st.trail[k]).var() == v;
            assert(is_true(st.asg, st.trail[k]));
            assert(st.place[st.trail[k].var()] == k);
        } else if st.asg[v] is Some && new_len <= st.place[v] {
            assert(st.trail[st.place[v]].var() == v);
        }
    }
}

/// A learned clause is asserting: after going back to its level its first
/// literal has no value and every other literal is false, so that the
/// clause forces its first literal.
pub proof fn learned_clause_asserts(st: State, clause: Seq<Lit>, back: int)
    requires
        st.core_ok(),
        asserting(st, clause, back),
    ensures
        st.cut(back).level() == back,
        st.cut(back).asg[clause[0].var()] is None,
        forall|j: int| 1 <= j < clause.len() ==> is_false(st.cut(back).asg, #[trigger] clause[j]),
        learnable(st.cut(back), clause),
{
    st.cut_makes_learnable(clause, back);
}

/// Two solvers that hold the same clauses over the same variables come to
/// the same verdict.
pub proof fn verdicts_agree(first: Solver, first_solved: Solver, second: Solver, second_solved: Solver)
    requires
        first.ready(),
        second.ready(),
        first@.units == second@.units,
        first@.bins == second@.bins,
        first@.longs == second@.longs,
        first@.vars() == second@.vars(),
        first_solved.answers(&first),
        second_solved.answers(&second),
    ensures
        first_solved.verdict() == second_solved.verdict(),
{
    first@.same_clauses_follow(second@);
    if first@.unsatisfiable() {
        assert forall|m: Seq<bool>| !second@.models(m) by {
            if second@.models(m) {
                assert(first@.models(m));
            }
        }
    } else {
        let m = choose|m: Seq<bool>| first@.models(m);
        assert(second@.models(m));
    }
}

/// A verdict of `Sat` comes with a model: the values of the variables make
/// every clause of the formula true.
pub proof fn sat_has_model(start: Solver, solved: Solver)
    requires
        start.ready(),
        solved.answers(&start),
        solved.verdict() == SolveState::Sat,
    ensures
        start@.models(solved@.reading()),
{
    solved@.reading_models(start@);
}

/// Solving is a function of the clauses and the default polarity: two
/// solvers that start with the same state and the same default polarity
/// end with the same state, value by value and reason by reason, and with
/// the same verdict.
pub proof fn same_start_same_end(first: Solver, second: Solver, one: Solver, other: Solver)
    requires
        first@ == second@,
        first.polarity() == second.polarity(),
        one.answers(&first),
        other.answers(&second),
    ensures
        one@ == other@,
        one.verdict() == other.verdict(),
{
}

/// In the assignment that solving ends with, a variable that no clause of
/// the solver mentions has the default polarity.
pub proof fn unmentioned_takes_the_default(start: Solver, solved: Solver, v: int)
    requires
        solved.answers(&start),
        solved.verdict() == SolveState::Sat,
        0 <= v < solved@.vars(),
        !solved@.mentions(v),
    ensures
        solved@.asg[v] == Some(start.polarity()),
{
    let st = solved@;
    assert(st.asg[v] is Some);
    let k = st.place[v];
    assert(st.trail[k].var() == v);
    assert(is_true(st.asg, st.trail[k]));
    assert(st.accounted_at(k, start.polarity()));
    assert(reason_ok(st.asg, st.longs, st.starts, st.place, st.trail[k], k, st.graph[v]));
    match st.graph[v].reason {
        PropReason::Unit => {
            if st.graph[v].level == 0 {
                let i = choose|i: int| 0 <= i < st.units.len() && st.units[i] == st.trail[k];
                assert(st.units[i].var() == v);
            }
        },
        PropReason::Binary(other) => {
            let i = choose|i: int|
                0 <= i < st.bins.len() && (#[trigger] st.bins[i] == (st.trail[k], other)
                    || st.bins[i] == (other, st.trail[k]));
            assert(st.bins[i].0.var() == v || st.bins[i].1.var() == v);
        },
        PropReason::Long(ClauseRef::Long(c)) => {
            assert(st.longs[c as int][0].var() == v);
        },
        _ => {},
    }
}

/// In the state that solving ends with, a literal of the trail that is no
/// unit clause and that no clause forces has the default polarity: it was
/// decided.
pub proof fn unforced_takes_the_default(start: Solver, solved: Solver, k: int)
    requires
        solved.answers(&start),
        0 <= k < solved@.trail.len(),
        !solved@.units.contains(solved@.trail[k]),
        !solved@.forces(solved@.trail[k]),
    ensures
        solved@.trail[k].positive() == start.polarity(),
        solved@.graph[solved@.trail[k].var()].reason is Unit,
{
    let st = solved@;
    let x = st.trail[k];
    assert(st.accounted_at(k, start.polarity()));
    assert(reason_ok(st.asg, st.longs, st.starts, st.place, x, k, st.graph[x.var()]));
    match st.graph[x.var()].reason {
        PropReason::Binary(other) => {
            let i = choose|i: int|
                0 <= i < st.bins.len() && (#[trigger] st.bins[i] == (x, other) || st.bins[i] == (
                    other,
                    x,
                ));
            assert(st.bins[i].0 == x && is_false(st.asg, st.bins[i].1) || st.bins[i].1 == x
                && is_false(st.asg, st.bins[i].0));
        },
        PropReason::Long(ClauseRef::Long(c)) => {
            assert(st.longs[c as int][0] == x);
            assert forall|j: int| 0 <= j < st.longs[c as int].len() && j != 0 implies is_false(
                st.asg,
                #[trigger] st.longs[c as int][j],
            ) by {}
            assert(st.longs[c as int].len() >= 3);
        },
        _ => {},
    }
}

/// In the assignment that solving ends with, a variable that no clause of
/// the formula mentions has the default polarity.
pub proof fn free_variables_take_the_default(start: Solver, solved: Solver, v: int)
    requires
        solved.answers(&start),
        solved.verdict() == SolveState::Sat,
        0 <= v < start@.vars(),
        !start@.mentions(v),
    ensures
        solved@.asg[v] == Some(start.polarity()),
{
    assert(!solved@.mentions(v));
    unmentioned_takes_the_default(start, solved, v);
}

} // verus!
