//! Why a learned clause follows from the stored clauses: what conflict
//! analysis keeps true of every model while it resolves.

use crate::cdcl::{level_of_assigned, marks_ok};
use crate::db::swapped;
use crate::graph::PropReason;
use crate::lit::Lit;
use crate::model::{clause_holds, holds};
use crate::solver::ClauseRef;
use crate::state::{is_false, is_true, reason_ok, unmarked, State};
use vstd::prelude::*;

verus! {

/// The model `m` is accounted for: it makes a literal of `learnt` true, or
/// it makes the trail literal of a marked variable of the present level
/// false.
pub open spec fn covered(st: State, seen: Seq<bool>, learnt: Seq<Lit>, m: Seq<bool>) -> bool {
    clause_holds(m, learnt) || exists|v: int|
        0 <= v < seen.len() && #[trigger] seen[v] && st.graph[v].level == st.level() && !holds(
            m,
            st.trail[st.place[v]],
        )
}

/// Every model of the clauses is accounted for or makes a literal of `rest`
/// true.
pub open spec fn explains(st: State, seen: Seq<bool>, learnt: Seq<Lit>, rest: Seq<Lit>) -> bool {
    forall|m: Seq<bool>| #[trigger]
        st.models(m) ==> covered(st, seen, learnt, m) || clause_holds(m, rest)
}

/// Every model of the clauses makes a literal of `clause` true.
pub open spec fn implied(st: State, clause: Seq<Lit>) -> bool {
    forall|m: Seq<bool>| #[trigger] st.models(m) ==> clause_holds(m, clause)
}

/// A stored clause is true in every model.
pub proof fn stored_implied(st: State, lits: Seq<Lit>)
    requires
        st.from_db(lits),
    ensures
        implied(st, lits),
{
    assert forall|m: Seq<bool>| #[trigger] st.models(m) implies clause_holds(m, lits) by {
        if exists|i: int| 0 <= i < st.longs.len() && #[trigger] st.longs[i] == lits {
            let i = choose|i: int| 0 <= i < st.longs.len() && #[trigger] st.longs[i] == lits;
            assert(clause_holds(m, st.longs[i]));
        } else {
            let i = choose|i: int|
                0 <= i < st.bins.len() && lits.len() == 2 && (((#[trigger] st.bins[i]).0 == lits[0]
                    && st.bins[i].1 == lits[1]) || (st.bins[i].0 == lits[1] && st.bins[i].1
                    == lits[0]));
            assert(holds(m, st.bins[i].0) || holds(m, st.bins[i].1));
            if holds(m, lits[0]) {
            } else {
                assert(holds(m, lits[1]));
            }
        }
    }
}

/// Once the first literal of `rest` has been looked at, be it marked, added
/// to the learned clause or passed over, the others still explain every
/// model.
pub proof fn absorbed(
    st: State,
    seen: Seq<bool>,
    learnt: Seq<Lit>,
    rest: Seq<Lit>,
    seen2: Seq<bool>,
    count2: int,
    learnt2: Seq<Lit>,
    bound: int,
)
    requires
        st.core_ok(),
        st.sound(),
        explains(st, seen, learnt, rest),
        rest.len() > 0,
        rest[0].var() < st.vars(),
        is_false(st.asg, rest[0]),
        marks_ok(st, seen2, count2, learnt2, bound),
        seen.len() == seen2.len(),
        forall|v: int| 0 <= v < seen.len() && seen[v] ==> #[trigger] seen2[v],
        learnt.len() <= learnt2.len(),
        forall|t: int| 0 <= t < learnt.len() ==> #[trigger] learnt2[t] == learnt[t],
        st.lv(rest[0]) > 0 ==> seen2[rest[0].var()],
    ensures
        explains(st, seen2, learnt2, rest.subrange(1, rest.len() as int)),
{
    let lit = rest[0];
    let tail = rest.subrange(1, rest.len() as int);
    assert forall|m: Seq<bool>| #[trigger] st.models(m) implies covered(st, seen2, learnt2, m)
        || clause_holds(m, tail) by {
        if covered(st, seen, learnt, m) {
            if clause_holds(m, learnt) {
                let j = choose|j: int| 0 <= j < learnt.len() && holds(m, #[trigger] learnt[j]);
                assert(holds(m, learnt2[j]));
            } else {
                let v = choose|v: int|
                    0 <= v < seen.len() && #[trigger] seen[v] && st.graph[v].level == st.level()
                        && !holds(m, st.trail[st.place[v]]);
                assert(seen2[v]);
            }
        } else {
            let j = choose|j: int| 0 <= j < rest.len() && holds(m, #[trigger] rest[j]);
            if j == 0 {
                level_of_assigned(st, lit.var());
                if st.lv(lit) == 0 {
                    st.fact_excludes(m, lit);
                } else {
                    let v = lit.var();
                    assert(seen2[v]);
                    assert(is_true(st.asg, st.trail[st.place[v]]));
                    if st.graph[v].level == st.level() {
                        assert(!holds(m, st.trail[st.place[v]]));
                    } else {
                        let t = choose|t: int| 0 <= t < learnt2.len() && (#[trigger] learnt2[t]).var()
                            == v;
                        assert(is_false(st.asg, learnt2[t]));
                        assert(learnt2[t] == lit);
                        assert(holds(m, learnt2[t]));
                    }
                }
            } else {
                assert(tail[j - 1] == rest[j]);
            }
        }
    }
}

/// The literals that a reason leaves to be explained once its literal is
/// resolved away.
pub open spec fn antecedent_lits(st: State, reason: PropReason) -> Seq<Lit> {
    match reason {
        PropReason::Unit => Seq::empty(),
        PropReason::Binary(other) => seq![other],
        PropReason::Long(ClauseRef::Binary(_)) => Seq::empty(),
        PropReason::Long(ClauseRef::Long(c)) => st.longs[c as int].subrange(
            1,
            st.longs[c as int].len() as int,
        ),
    }
}

/// Taking the mark off a trail literal that has a reason leaves every model
/// explained by what is marked and learned together with the other literals
/// of the reason.
pub proof fn resolved(st: State, seen: Seq<bool>, learnt: Seq<Lit>, k: int)
    requires
        st.core_ok(),
        st.sound(),
        explains(st, seen, learnt, Seq::empty()),
        0 <= k < st.trail.len(),
        seen.len() == st.vars(),
        !(st.graph[st.trail[k].var()].reason is Unit),
    ensures
        explains(
            st,
            seen.update(st.trail[k].var(), false),
            learnt,
            antecedent_lits(st, st.graph[st.trail[k].var()].reason),
        ),
{
    let p = st.trail[k];
    let v = p.var();
    let seen2 = seen.update(v, false);
    let reason = st.graph[v].reason;
    let rest = antecedent_lits(st, reason);
    assert(st.place[v] == k);
    assert(reason_ok(st.asg, st.longs, st.starts, st.place, st.trail[k], k, st.graph[v]));
    assert forall|m: Seq<bool>| #[trigger] st.models(m) implies covered(st, seen2, learnt, m)
        || clause_holds(m, rest) by {
        assert(covered(st, seen, learnt, m) || clause_holds(m, Seq::<Lit>::empty()));
        assert(covered(st, seen, learnt, m));
        if clause_holds(m, learnt) {
        } else {
            let u = choose|u: int|
                0 <= u < seen.len() && #[trigger] seen[u] && st.graph[u].level == st.level()
                    && !holds(m, st.trail[st.place[u]]);
            if u != v {
                assert(seen2[u]);
            } else {
                assert(!holds(m, p));
                match reason {
                    PropReason::Unit => {},
                    PropReason::Binary(other) => {
                        assert(holds(m, st.trail[k]) || holds(m, other));
                        assert(rest[0] == other);
                        assert(holds(m, rest[0]));
                    },
                    PropReason::Long(ClauseRef::Binary(_)) => {},
                    PropReason::Long(ClauseRef::Long(c)) => {
                        let clause = st.longs[c as int];
                        assert(clause_holds(m, clause));
                        let j = choose|j: int| 0 <= j < clause.len() && holds(m, #[trigger] clause[j]);
                        assert(j != 0);
                        assert(rest[j - 1] == clause[j]);
                        assert(holds(m, rest[j - 1]));
                    },
                }
            }
        }
    }
}

/// Where a single marked variable of the present level is left, its mark is
/// taken off and the negation of its literal added, the learned clause is
/// true in every model.
pub proof fn uip_implied(st: State, seen: Seq<bool>, learnt: Seq<Lit>, k: int)
    requires
        st.core_ok(),
        explains(st, seen, learnt, Seq::empty()),
        0 <= k < st.trail.len(),
        seen.len() == st.vars(),
        forall|v: int|
            0 <= v < seen.len() && #[trigger] seen[v] && v != st.trail[k].var() ==> st.graph[v].level
                != st.level(),
    ensures
        implied(st, swapped(learnt.push(st.trail[k].neg()), 0, learnt.len() as int)),
{
    let p = st.trail[k];
    let more = learnt.push(p.neg());
    let last = learnt.len() as int;
    let done = swapped(more, 0, last);
    assert(st.place[p.var()] == k);
    assert(p.var() < st.vars());
    assert forall|m: Seq<bool>| #[trigger] st.models(m) implies clause_holds(m, done) by {
        assert(covered(st, seen, learnt, m) || clause_holds(m, Seq::<Lit>::empty()));
        assert(covered(st, seen, learnt, m));
        if clause_holds(m, learnt) {
            let j = choose|j: int| 0 <= j < learnt.len() && holds(m, #[trigger] learnt[j]);
            if j == 0 {
                assert(done[last] == learnt[0]);
                assert(holds(m, done[last]));
            } else {
                assert(done[j] == learnt[j]);
                assert(holds(m, done[j]));
            }
        } else {
            let u = choose|u: int|
                0 <= u < seen.len() && #[trigger] seen[u] && st.graph[u].level == st.level()
                    && !holds(m, st.trail[st.place[u]]);
            assert(u == p.var());
            assert(done[0] == p.neg());
            assert(holds(m, done[0]));
        }
    }
}

/// Exchanging two literals of an implied clause leaves it implied.
pub proof fn swapped_implied(st: State, clause: Seq<Lit>, a: int, b: int)
    requires
        implied(st, clause),
        0 <= a < clause.len(),
        0 <= b < clause.len(),
    ensures
        implied(st, swapped(clause, a, b)),
{
    let after = swapped(clause, a, b);
    let back = |j: int|
        if j == a {
            b
        } else if j == b {
            a
        } else {
            j
        };
    assert forall|j: int| 0 <= j < clause.len() implies #[trigger] after[back(j)] == clause[j] by {}
    assert forall|m: Seq<bool>| #[trigger] st.models(m) implies clause_holds(m, after) by {
        let j = choose|j: int| 0 <= j < clause.len() && holds(m, #[trigger] clause[j]);
        assert(holds(m, after[back(j)]));
    }
}

/// Where nothing is marked and nothing learned, and yet every model is
/// explained, there is no model.
pub proof fn nothing_left(st: State, seen: Seq<bool>)
    requires
        explains(st, seen, Seq::empty(), Seq::empty()),
        unmarked(seen),
    ensures
        st.unsatisfiable(),
{
    assert forall|m: Seq<bool>| !st.models(m) by {
        if st.models(m) {
            assert(covered(st, seen, Seq::<Lit>::empty(), m) || clause_holds(
                m,
                Seq::<Lit>::empty(),
            ));
        }
    }
}

} // verus!
