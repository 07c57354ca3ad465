//! The solver's state as plain sequences, and what holds of it during search.

use crate::cnf::distinct_vars;
use crate::graph::{PropNode, PropReason};
use crate::lit::Lit;
use crate::solver::ClauseRef;
use crate::watch::Watch;
use vstd::prelude::*;

verus! {

/// The solver's tables, each as a sequence.
pub struct State {
    /// The value of each variable.
    pub asg: Seq<Option<bool>>,
    /// The unit clauses.
    pub units: Seq<Lit>,
    /// The binary clauses.
    pub bins: Seq<(Lit, Lit)>,
    /// The long clauses.
    pub longs: Seq<Seq<Lit>>,
    /// The watch list of each literal, by the literal's encoding.
    pub watches: Seq<Seq<Watch>>,
    /// The implication graph node of each variable.
    pub graph: Seq<PropNode>,
    /// The trail.
    pub trail: Seq<Lit>,
    /// How many literals of the trail have been propagated.
    pub pos: int,
    /// Where on the trail each decision level above 0 begins.
    pub starts: Seq<usize>,
    /// The conflict analyzer's marks, one for each variable.
    pub seen: Seq<bool>,
    /// For each assigned variable, the position of its literal on the trail.
    pub place: Seq<int>,
}

/// `lit` is true under `asg`.
pub open spec fn is_true(asg: Seq<Option<bool>>, lit: Lit) -> bool {
    lit.value_under(asg) == Some(true)
}

/// `lit` is false under `asg`.
pub open spec fn is_false(asg: Seq<Option<bool>>, lit: Lit) -> bool {
    lit.value_under(asg) == Some(false)
}

/// The literal whose encoding is `code`.
pub open(crate) spec fn lit_of(code: int) -> Lit {
    Lit(code as usize)
}

/// Position `k` of a trail whose levels begin at `starts` lies in level `lv`.
pub open spec fn at_level(starts: Seq<usize>, k: int, lv: int) -> bool {
    &&& 0 <= lv <= starts.len()
    &&& forall|j: int| 0 <= j < lv ==> #[trigger] starts[j] <= k
    &&& forall|j: int| lv <= j < starts.len() ==> k < #[trigger] starts[j]
}

/// Every literal of `clause` belongs to one of the first `n` variables.
pub open spec fn lits_below(clause: Seq<Lit>, n: int) -> bool {
    forall|j: int| 0 <= j < clause.len() ==> (#[trigger] clause[j]).var() < n
}

/// The two sequences hold the same literals.
pub open spec fn same_lits(a: Seq<Lit>, b: Seq<Lit>) -> bool {
    &&& a.len() == b.len()
    &&& forall|x: Lit| a.contains(x) <==> b.contains(x)
}

/// Every stored literal belongs to one of the first `n` variables, and a
/// long clause has three literals or more.
pub open spec fn db_wf(units: Seq<Lit>, bins: Seq<(Lit, Lit)>, longs: Seq<Seq<Lit>>, n: int) -> bool {
    &&& lits_below(units, n)
    &&& forall|i: int|
        0 <= i < bins.len() ==> (#[trigger] bins[i]).0.var() < n && bins[i].1.var() < n
    &&& forall|i: int|
        0 <= i < longs.len() ==> (#[trigger] longs[i]).len() >= 3 && lits_below(longs[i], n)
}

/// No two literals of a stored binary or long clause share a variable.
pub open spec fn clauses_distinct(bins: Seq<(Lit, Lit)>, longs: Seq<Seq<Lit>>) -> bool {
    &&& forall|i: int| 0 <= i < bins.len() ==> (#[trigger] bins[i]).0.var() != bins[i].1.var()
    &&& forall|i: int| 0 <= i < longs.len() ==> distinct_vars(#[trigger] longs[i])
}

/// The reason names stored clauses and variables of the solver only.
pub open spec fn reason_shape(reason: PropReason, n: int, bins: int, longs: int) -> bool {
    match reason {
        PropReason::Unit => true,
        PropReason::Binary(other) => other.var() < n,
        PropReason::Long(ClauseRef::Binary(i)) => i < bins,
        PropReason::Long(ClauseRef::Long(i)) => i < longs,
    }
}

/// Every node of the graph has a reason in range.
pub open spec fn graph_wf(graph: Seq<PropNode>, n: int, bins: int, longs: int) -> bool {
    &&& graph.len() == n
    &&& forall|v: int| 0 <= v < n ==> reason_shape((#[trigger] graph[v]).reason, n, bins, longs)
}

/// The level starts increase strictly and lie on the trail, and the number
/// of propagated literals is at most the trail's length.
pub open spec fn queue_wf(len: int, pos: int, starts: Seq<usize>) -> bool {
    &&& 0 <= pos <= len
    &&& forall|j: int| 0 <= j < starts.len() ==> #[trigger] starts[j] < len
    &&& forall|i: int, j: int|
        0 <= i < j < starts.len() ==> #[trigger] starts[i] < #[trigger] starts[j]
}

/// The trail, the assignment and the recorded places agree: the literals on
/// the trail are the true ones, each variable occurs once, and `place` finds
/// it.
pub open spec fn trail_ok(asg: Seq<Option<bool>>, trail: Seq<Lit>, place: Seq<int>) -> bool {
    &&& forall|k: int| 0 <= k < trail.len() ==> is_true(asg, #[trigger] trail[k])
    &&& forall|k: int| 0 <= k < trail.len() ==> place[(#[trigger] trail[k]).var()] == k
    &&& forall|v: int|
        0 <= v < asg.len() && (#[trigger] asg[v]) is Some ==> 0 <= place[v] < trail.len()
            && trail[place[v]].var() == v
}

/// The level recorded for each literal on the trail is that of its position.
pub open spec fn levels_ok(starts: Seq<usize>, trail: Seq<Lit>, graph: Seq<PropNode>) -> bool {
    forall|k: int|
        0 <= k < trail.len() ==> at_level(
            starts,
            k,
            graph[(#[trigger] trail[k]).var()].level as int,
        )
}

/// The node `node` explains the literal `lit` at position `k` of the trail:
/// every other literal of the reason clause is false and stands earlier on
/// the trail; a literal without a reason is a decision or stands at level 0.
pub open spec fn reason_ok(
    asg: Seq<Option<bool>>,
    longs: Seq<Seq<Lit>>,
    starts: Seq<usize>,
    place: Seq<int>,
    lit: Lit,
    k: int,
    node: PropNode,
) -> bool {
    match node.reason {
        PropReason::Unit => node.level == 0 || (node.level <= starts.len() && starts[node.level
            - 1] == k),
        PropReason::Binary(other) => is_false(asg, other) && place[other.var()] < k,
        PropReason::Long(ClauseRef::Long(c)) => {
            &&& c < longs.len()
            &&& longs[c as int][0] == lit
            &&& forall|j: int|
                1 <= j < longs[c as int].len() ==> is_false(asg, #[trigger] longs[c as int][j])
                    && place[longs[c as int][j].var()] < k
        },
        PropReason::Long(ClauseRef::Binary(_)) => false,
    }
}

/// Every reason on the trail explains its literal.
pub open spec fn reasons_ok(
    asg: Seq<Option<bool>>,
    longs: Seq<Seq<Lit>>,
    starts: Seq<usize>,
    place: Seq<int>,
    trail: Seq<Lit>,
    graph: Seq<PropNode>,
) -> bool {
    forall|k: int|
        0 <= k < trail.len() ==> reason_ok(
            asg,
            longs,
            starts,
            place,
            #[trigger] trail[k],
            k,
            graph[trail[k].var()],
        )
}

/// The watch `w`, attached to the literal with encoding `code`, watches a
/// clause on the negation of that literal, and blocks with a literal of that
/// clause.
pub open spec fn watch_ok(
    bins: Seq<(Lit, Lit)>,
    longs: Seq<Seq<Lit>>,
    n: int,
    code: int,
    w: Watch,
) -> bool {
    &&& w.blocking.var() < n
    &&& match w.cref {
        ClauseRef::Binary(i) => {
            &&& i < bins.len()
            &&& (bins[i as int].0 == lit_of(code).neg() && bins[i as int].1 == w.blocking) || (
            bins[i as int].1 == lit_of(code).neg() && bins[i as int].0 == w.blocking)
        },
        ClauseRef::Long(i) => {
            &&& i < longs.len()
            &&& longs[i as int][0] == lit_of(code).neg() || longs[i as int][1] == lit_of(
                code,
            ).neg()
            &&& longs[i as int].contains(w.blocking)
        },
    }
}

/// The watch lists `lists` fit the stored clauses, and no list watches a
/// clause twice.
pub open spec fn watches_ok(
    bins: Seq<(Lit, Lit)>,
    longs: Seq<Seq<Lit>>,
    n: int,
    lists: Seq<Seq<Watch>>,
) -> bool {
    &&& lists.len() == 2 * n
    &&& forall|c: int, j: int|
        0 <= c < lists.len() && 0 <= j < lists[c].len() ==> watch_ok(
            bins,
            longs,
            n,
            c,
            #[trigger] lists[c][j],
        )
    &&& forall|c: int, a: int, b: int|
        0 <= c < lists.len() && 0 <= a < b < lists[c].len() ==> (#[trigger] lists[c][a]).cref != (
        #[trigger] lists[c][b]).cref
}

/// No variable is marked.
pub open spec fn unmarked(seen: Seq<bool>) -> bool {
    forall|v: int| 0 <= v < seen.len() ==> !#[trigger] seen[v]
}

impl State {
    /// The number of variables.
    pub open spec fn vars(self) -> int {
        self.asg.len() as int
    }

    /// The present decision level.
    pub open spec fn level(self) -> int {
        self.starts.len() as int
    }

    /// The decision level recorded for the variable of `lit`.
    pub open spec fn lv(self, lit: Lit) -> int {
        self.graph[lit.var()].level as int
    }

    /// The tables have matching sizes, and every index stored in the clauses,
    /// the graph and the trail is in range.
    pub open spec fn tables_wf(self) -> bool {
        &&& self.seen.len() == self.vars()
        &&& self.place.len() == self.vars()
        &&& self.watches.len() == 2 * self.vars()
        &&& self.vars() <= Lit::max_index() + 1
        &&& self.starts.len() <= usize::MAX
        &&& self.bins.len() <= usize::MAX
        &&& self.longs.len() <= usize::MAX
        &&& db_wf(self.units, self.bins, self.longs, self.vars())
        &&& graph_wf(self.graph, self.vars(), self.bins.len() as int, self.longs.len() as int)
        &&& lits_below(self.trail, self.vars())
    }

    /// The tables are well-formed, and so are the trail's counters.
    pub open spec fn wf(self) -> bool {
        &&& self.tables_wf()
        &&& queue_wf(self.trail.len() as int, self.pos, self.starts)
    }

    /// What is not propagated yet belongs to the present level.
    pub open spec fn pending_ok(self) -> bool {
        self.starts.len() > 0 ==> self.starts.last() <= self.pos
    }

    /// As `core_ok`, but the present level may have been opened a moment ago,
    /// with its decision not on the trail yet.
    pub open spec fn core_open(self) -> bool {
        &&& self.tables_wf()
        &&& queue_wf(self.trail.len() as int + 1, self.pos, self.starts)
        &&& self.pos <= self.trail.len()
        &&& clauses_distinct(self.bins, self.longs)
        &&& trail_ok(self.asg, self.trail, self.place)
        &&& levels_ok(self.starts, self.trail, self.graph)
        &&& reasons_ok(self.asg, self.longs, self.starts, self.place, self.trail, self.graph)
        &&& self.pending_ok()
    }

    /// What holds of the tables between the steps of the search, but for the
    /// watch lists and the analyzer's marks.
    pub open spec fn core_ok(self) -> bool {
        &&& self.core_open()
        &&& queue_wf(self.trail.len() as int, self.pos, self.starts)
    }

    /// What holds of the state between the steps of the search.
    pub open spec fn inv(self) -> bool {
        &&& self.core_ok()
        &&& unmarked(self.seen)
        &&& watches_ok(self.bins, self.longs, self.vars(), self.watches)
    }

    /// The state before the search: nothing is assigned, watched or marked.
    pub open spec fn fresh(self) -> bool {
        &&& self.wf()
        &&& clauses_distinct(self.bins, self.longs)
        &&& self.trail.len() == 0
        &&& self.starts.len() == 0
        &&& self.pos == 0
        &&& forall|v: int| 0 <= v < self.vars() ==> (#[trigger] self.asg[v]) is None
        &&& forall|c: int| 0 <= c < self.watches.len() ==> (#[trigger] self.watches[c]).len() == 0
        &&& unmarked(self.seen)
    }
}

} // verus!
