//! The solver: its state, and the loop that decides, propagates and learns.

use crate::assign::Assignment;
use crate::cdcl::{level_of_assigned, AnalyzeConflict};
use crate::cnf::{distinct_vars, CnfFormula};
use crate::db::{bins_of, longs_of, units_of, ClauseDb};
use crate::graph::{PropGraph, PropReason};
use crate::lit::Lit;
use crate::measure::{extend_keeps, value_bound, value_bounded};
use crate::model::holds;
use crate::moves::trail_bounded;
use crate::prop::PropQueue;
use crate::state::{is_true, lits_below, same_lits, State};
use crate::watch::Watchlists;
use core::ops::Not;
use vstd::prelude::*;

verus! {

/// A reference to a stored clause: its kind, and its index among the clauses
/// of that kind.
#[derive(Debug, Clone, Copy, PartialEq, Eq, Structural)]
pub enum ClauseRef {
    Binary(usize),
    Long(usize),
}

/// What is known of a formula's satisfiability.
#[derive(Debug, Clone, Copy, PartialEq, Eq, Structural)]
pub enum SolveState {
    Unknown,
    Sat,
    Unsat,
}

impl Default for SolveState {
    fn default() -> (state: SolveState)
        ensures
            state == SolveState::Unknown,
    {
        SolveState::Unknown
    }
}

/// A solver for one formula: the clauses, the tables of the search, and the
/// verdict.
pub struct Solver {
    pub(crate) assignment: Assignment,
    pub(crate) clause_db: ClauseDb,
    pub(crate) max_lit_index: usize,
    pub(crate) default_polarity: bool,
    pub(crate) watch_lists: Watchlists,
    pub(crate) prop_graph: PropGraph,
    pub(crate) prop_queue: PropQueue,
    pub(crate) analyze_conflict: AnalyzeConflict,
    pub(crate) state: SolveState,
    /// For each assigned variable, where its literal stands on the trail.
    pub(crate) place: Ghost<Seq<int>>,
}

impl View for Solver {
    type V = State;

    open(crate) spec fn view(&self) -> State {
        State {
            asg: self.assignment@,
            units: self.clause_db.units(),
            bins: self.clause_db.bins(),
            longs: self.clause_db.longs(),
            watches: self.watch_lists@,
            graph: self.prop_graph@,
            trail: self.prop_queue.trail(),
            pos: self.prop_queue.done(),
            starts: self.prop_queue.starts(),
            seen: self.analyze_conflict.seen@,
            place: self.place@,
        }
    }
}

impl Default for Solver {
    /// A solver without clauses or variables that decides negatively.
    fn default() -> (solver: Solver)
        ensures
            solver.ready(),
            solver.polarity() == false,
            solver@.vars() == 0,
            solver@.units.len() == 0,
            solver@.bins.len() == 0,
            solver@.longs.len() == 0,
    {
        Solver::new(false)
    }
}

/// The clauses of a partition come from the formula: they keep its bound on
/// the variables and have no variable twice.
pub proof fn partition_keeps(clauses: Seq<Seq<Lit>>, n: int)
    requires
        forall|i: int| 0 <= i < clauses.len() ==> lits_below(#[trigger] clauses[i], n),
        forall|i: int| 0 <= i < clauses.len() ==> distinct_vars(#[trigger] clauses[i]),
    ensures
        lits_below(units_of(clauses), n),
        forall|k: int|
            0 <= k < bins_of(clauses).len() ==> (#[trigger] bins_of(clauses)[k]).0.var() < n
                && bins_of(clauses)[k].1.var() < n && bins_of(clauses)[k].0.var() != bins_of(
                clauses,
            )[k].1.var(),
        forall|k: int|
            0 <= k < longs_of(clauses).len() ==> (#[trigger] longs_of(clauses)[k]).len() >= 3
                && lits_below(longs_of(clauses)[k], n) && distinct_vars(longs_of(clauses)[k]),
    decreases clauses.len(),
{
    if clauses.len() > 0 {
        let front = clauses.drop_last();
        let last = clauses.last();
        assert forall|i: int| 0 <= i < front.len() implies lits_below(#[trigger] front[i], n) by {
            assert(front[i] == clauses[i]);
        }
        assert forall|i: int| 0 <= i < front.len() implies distinct_vars(#[trigger] front[i]) by {
            assert(front[i] == clauses[i]);
        }
        partition_keeps(front, n);
        assert(lits_below(last, n) && distinct_vars(last));
        assert forall|k: int| 0 <= k < bins_of(clauses).len() implies (#[trigger] bins_of(
            clauses,
        )[k]).0.var() < n && bins_of(clauses)[k].1.var() < n && bins_of(clauses)[k].0.var()
            != bins_of(clauses)[k].1.var() by {
            if last.len() == 2 && k == bins_of(front).len() {
                assert(last[0].var() != last[1].var());
                assert(last[0].var() < n && last[1].var() < n);
            } else {
                assert(bins_of(clauses)[k] == bins_of(front)[k]);
            }
        }
        assert forall|k: int| 0 <= k < longs_of(clauses).len() implies (#[trigger] longs_of(
            clauses,
        )[k]).len() >= 3 && lits_below(longs_of(clauses)[k], n) && distinct_vars(
            longs_of(clauses)[k],
        ) by {
            if last.len() >= 3 && k == longs_of(front).len() {
            } else {
                assert(longs_of(clauses)[k] == longs_of(front)[k]);
            }
        }
        if last.len() == 1 {
            assert(last[0].var() < n);
        }
    }
}

/// Some literal of `clause` is true under `asg`.
pub open spec fn clause_true(asg: Seq<Option<bool>>, clause: Seq<Lit>) -> bool {
    exists|j: int| 0 <= j < clause.len() && is_true(asg, #[trigger] clause[j])
}

/// The literals of `clause` that do not belong to the variable `v`, in
/// order.
pub open spec fn antecedents(clause: Seq<Lit>, v: int) -> Seq<Lit>
    decreases clause.len(),
{
    if clause.len() == 0 {
        Seq::empty()
    } else if clause.last().var() != v {
        antecedents(clause.drop_last(), v).push(clause.last())
    } else {
        antecedents(clause.drop_last(), v)
    }
}

impl State {
    /// Every variable has a value.
    pub open spec fn total(self) -> bool {
        forall|v: int| 0 <= v < self.vars() ==> (#[trigger] self.asg[v]) is Some
    }

    /// Every unit clause is true and was asserted at level 0.
    pub open spec fn units_hold(self) -> bool {
        forall|i: int|
            0 <= i < self.units.len() ==> is_true(self.asg, #[trigger] self.units[i]) && self.lv(
                self.units[i],
            ) == 0
    }

    /// Every binary and every long clause has a true literal.
    pub open spec fn watched_sat(self) -> bool {
        &&& forall|i: int|
            0 <= i < self.bins.len() ==> is_true(self.asg, (#[trigger] self.bins[i]).0) || is_true(
                self.asg,
                self.bins[i].1,
            )
        &&& forall|i: int| 0 <= i < self.longs.len() ==> clause_true(self.asg, #[trigger] self.longs[i])
    }

    /// The state holds the clauses of `old` still, the long ones with their
    /// literals in some order, and has the variables of `old`.
    pub open spec fn keeps_clauses(self, old: State) -> bool {
        &&& self.vars() == old.vars()
        &&& old.units.len() <= self.units.len()
        &&& forall|i: int| 0 <= i < old.units.len() ==> #[trigger] self.units[i] == old.units[i]
        &&& old.bins.len() <= self.bins.len()
        &&& forall|i: int| 0 <= i < old.bins.len() ==> #[trigger] self.bins[i] == old.bins[i]
        &&& old.longs.len() <= self.longs.len()
        &&& forall|i: int|
            0 <= i < old.longs.len() ==> same_lits(old.longs[i], #[trigger] self.longs[i])
    }

    /// The assignment makes every clause of `old` true.
    pub open spec fn satisfies(self, old: State) -> bool {
        &&& forall|i: int| 0 <= i < old.units.len() ==> is_true(self.asg, #[trigger] old.units[i])
        &&& forall|i: int|
            0 <= i < old.bins.len() ==> is_true(self.asg, (#[trigger] old.bins[i]).0) || is_true(
                self.asg,
                old.bins[i].1,
            )
        &&& forall|i: int| 0 <= i < old.longs.len() ==> clause_true(self.asg, #[trigger] old.longs[i])
    }

    /// The explanation handed out for the variable of `lit`: nothing for a
    /// decision or a fact, and else the other literals of the reason clause,
    /// the one of a binary reason or those of a long reason in their order.
    pub open spec fn explanation(self, lit: Lit) -> Option<Seq<Lit>> {
        match self.graph[lit.var()].reason {
            PropReason::Unit => None,
            PropReason::Binary(other) => Some(seq![other]),
            PropReason::Long(ClauseRef::Binary(_)) => None,
            PropReason::Long(ClauseRef::Long(c)) => Some(
                antecedents(self.longs[c as int], lit.var()),
            ),
        }
    }

    /// `keeps_clauses` composes.
    pub proof fn keeps_trans(self, mid: State, old: State)
        requires
            self.keeps_clauses(mid),
            mid.keeps_clauses(old),
        ensures
            self.keeps_clauses(old),
    {
        assert forall|i: int| 0 <= i < old.units.len() implies #[trigger] self.units[i]
            == old.units[i] by {
            assert(mid.units[i] == old.units[i]);
        }
        assert forall|i: int| 0 <= i < old.bins.len() implies #[trigger] self.bins[i]
            == old.bins[i] by {
            assert(mid.bins[i] == old.bins[i]);
        }
        assert forall|i: int| 0 <= i < old.longs.len() implies same_lits(
            old.longs[i],
            #[trigger] self.longs[i],
        ) by {
            assert(same_lits(old.longs[i], mid.longs[i]));
            assert(same_lits(mid.longs[i], self.longs[i]));
        }
    }

    /// A state in which every clause is true satisfies the clauses it has
    /// kept.
    pub proof fn sat_of_kept(self, old: State)
        requires
            self.keeps_clauses(old),
            self.units_hold(),
            self.watched_sat(),
        ensures
            self.satisfies(old),
    {
        assert forall|i: int| 0 <= i < old.units.len() implies is_true(
            self.asg,
            #[trigger] old.units[i],
        ) by {
            assert(self.units[i] == old.units[i]);
        }
        assert forall|i: int| 0 <= i < old.bins.len() implies is_true(
            self.asg,
            (#[trigger] old.bins[i]).0,
        ) || is_true(self.asg, old.bins[i].1) by {
            assert(self.bins[i] == old.bins[i]);
        }
        assert forall|i: int| 0 <= i < old.longs.len() implies clause_true(
            self.asg,
            #[trigger] old.longs[i],
        ) by {
            assert(same_lits(old.longs[i], self.longs[i]));
            assert(clause_true(self.asg, self.longs[i]));
            let j = choose|j: int|
                0 <= j < self.longs[i].len() && is_true(self.asg, #[trigger] self.longs[i][j]);
            assert(self.longs[i].contains(self.longs[i][j]));
            assert(old.longs[i].contains(self.longs[i][j]));
            let t = choose|t: int| 0 <= t < old.longs[i].len() && old.longs[i][t] == self.longs[i][j];
            assert(is_true(self.asg, old.longs[i][t]));
        }
    }

    /// A state that has grown by propagation keeps its clauses, and its unit
    /// clauses stay true.
    pub proof fn grown_keeps(self, old: State)
        requires
            self.grows_from(old),
            old.tables_wf(),
            old.units_hold(),
        ensures
            self.keeps_clauses(old),
            self.units_hold(),
    {
        assert forall|t: int| 0 <= t < self.units.len() implies is_true(
            self.asg,
            #[trigger] self.units[t],
        ) && self.lv(self.units[t]) == 0 by {
            assert(is_true(old.asg, old.units[t]));
            assert(old.units[t].var() < old.vars());
        }
    }

    /// Going back to an earlier level leaves the unit clauses true.
    pub proof fn cut_keeps_units(self, level: int)
        requires
            self.core_ok(),
            self.units_hold(),
            0 <= level <= self.level(),
        ensures
            self.cut(level).units_hold(),
    {
        if level < self.starts.len() {
            assert forall|i: int| 0 <= i < self.units.len() implies is_true(
                self.cut(level).asg,
                #[trigger] self.units[i],
            ) by {
                assert(is_true(self.asg, self.units[i]));
                level_of_assigned(self, self.units[i].var());
            }
        }
    }
}

impl Solver {
    /// The solver holds no assignment, watch or mark yet, its verdict is
    /// open, and its tables are sized for the variables seen so far.
    pub open(crate) spec fn ready(&self) -> bool {
        &&& self@.fresh()
        &&& self.state == SolveState::Unknown
        &&& self.max_lit_index <= Lit::max_index()
        &&& if self@.vars() == 0 {
            self.max_lit_index == 0 && self@.units.len() == 0 && self@.bins.len() == 0
                && self@.longs.len() == 0
        } else {
            self@.vars() == self.max_lit_index + 1
        }
    }

    /// `self` is what solving `start` gives: the verdict is `Unsat` where no
    /// assignment makes every clause of `start` true, and `Sat` where one
    /// does; in that case every variable has a value, and every clause of
    /// `start` and every binary and long clause held at the end has a true
    /// literal. The clauses of `start` are kept, the long ones with their
    /// literals in some order, and the trail, the levels and the reasons are
    /// in order. The state and the verdict are those that the search gives
    /// step by step, so they depend on the clauses of `start` and its default
    /// polarity alone. Every value is accounted for: it belongs to a unit
    /// clause, to a decision of the default polarity, or was forced by a
    /// clause held, which is then its reason. The clauses held at the end
    /// mention no variable that those of `start` do not.
    pub open spec fn answers(&self, start: &Solver) -> bool {
        &&& self@.inv()
        &&& self@.keeps_clauses(start@)
        &&& self.polarity() == start.polarity()
        &&& self.verdict() == if start@.unsatisfiable() {
            SolveState::Unsat
        } else {
            SolveState::Sat
        }
        &&& self.verdict() == SolveState::Sat ==> self@.total() && self@.satisfies(start@)
            && self@.watched_sat()
        &&& (self@, self.verdict()) == start@.solved(start.polarity())
        &&& self@.accounted(start.polarity())
        &&& self@.mentions_within(start@)
    }

    /// The polarity given to a variable that the solver decides on.
    pub open(crate) spec fn polarity(&self) -> bool {
        self.default_polarity
    }

    /// The verdict.
    pub open(crate) spec fn verdict(&self) -> SolveState {
        self.state
    }

    /// The verdict.
    pub fn state(&self) -> (state: SolveState)
        ensures
            state == self.verdict(),
    {
        self.state
    }

    /// The number of variables.
    pub fn var_count(&self) -> (count: usize)
        ensures
            count == self@.vars(),
    {
        self.assignment.assignment.len()
    }

    /// The truth value of `lit` under the present assignment, or `None`
    /// while its variable has no value.
    pub fn value(&self, lit: &Lit) -> (value: Option<bool>)
        requires
            lit.var() < self@.vars(),
        ensures
            value == lit.value_under(self@.asg),
    {
        self.assignment.value(lit)
    }

    /// The true literal of every variable that has a value, by variable
    /// index.
    pub fn model(&self) -> (model: Vec<Lit>)
        requires
            self@.vars() <= Lit::max_index() + 1,
        ensures
            forall|k: int| 0 <= k < model@.len() ==> is_true(self@.asg, #[trigger] model@[k]),
            forall|a: int, b: int|
                0 <= a < b < model@.len() ==> (#[trigger] model@[a]).var() < (
                #[trigger] model@[b]).var(),
            forall|v: int|
                0 <= v < self@.vars() && (#[trigger] self@.asg[v]) is Some ==> exists|k: int|
                    0 <= k < model@.len() && (#[trigger] model@[k]).var() == v,
    {
        let mut model: Vec<Lit> = Vec::new();
        let mut index: usize = 0;
        while index < self.assignment.assignment.len()
            invariant
                index <= self@.vars(),
                self@.vars() <= Lit::max_index() + 1,
                forall|k: int|
                    0 <= k < model@.len() ==> is_true(self@.asg, #[trigger] model@[k])
                        && model@[k].var() < index,
                forall|a: int, b: int|
                    0 <= a < b < model@.len() ==> (#[trigger] model@[a]).var() < (
                    #[trigger] model@[b]).var(),
                forall|v: int|
                    0 <= v < index && (#[trigger] self@.asg[v]) is Some ==> exists|k: int|
                        0 <= k < model@.len() && (#[trigger] model@[k]).var() == v,
            decreases self@.vars() - index,
        {
            let ghost before = model@;
            match self.assignment.assignment[index] {
                Some(value) => {
                    let lit = Lit::from_index(index, value);
                    model.push(lit);
                    proof {
                        assert forall|v: int|
                            0 <= v < index + 1 && (#[trigger] self@.asg[v]) is Some implies exists|
                            k: int,
                        |
                            0 <= k < model@.len() && (#[trigger] model@[k]).var() == v by {
                            if v < index {
                                let k = choose|k: int|
                                    0 <= k < before.len() && (#[trigger] before[k]).var() == v;
                                assert(model@[k].var() == v);
                            } else {
                                assert(model@[before.len() as int].var() == v);
                            }
                        }
                    }
                },
                None => {},
            }
            index += 1;
        }
        model
    }

    /// A solver without clauses or variables that decides with the given
    /// polarity.
    pub fn new(decision_default_polarity: bool) -> (solver: Solver)
        ensures
            solver.ready(),
            solver.polarity() == decision_default_polarity,
            solver@.vars() == 0,
            solver@.units.len() == 0,
            solver@.bins.len() == 0,
            solver@.longs.len() == 0,
    {
        Solver {
            assignment: Assignment::new(),
            clause_db: ClauseDb::new(),
            max_lit_index: 0,
            default_polarity: decision_default_polarity,
            watch_lists: Watchlists::new(),
            prop_graph: PropGraph::new(),
            prop_queue: PropQueue::new(),
            analyze_conflict: AnalyzeConflict::new(),
            state: SolveState::Unknown,
            place: Ghost(Seq::empty()),
        }
    }

    /// Adds the clauses of `formula`, and sizes the tables for the largest
    /// variable index seen so far.
    pub fn add_formula(self, formula: &CnfFormula) -> (solver: Solver)
        requires
            self.ready(),
        ensures
            solver.ready(),
            solver.polarity() == self.polarity(),
            solver@.units == self@.units + units_of(formula@),
            solver@.bins == self@.bins + bins_of(formula@),
            solver@.longs == self@.longs + longs_of(formula@),
            solver@.vars() == 1 + if self@.vars() > formula.max_index() + 1 {
                self@.vars() - 1
            } else {
                formula.max_index()
            },
    {
        let mut solver = self;
        let formula_max = formula.get_max_lit_index();
        if formula_max > solver.max_lit_index {
            solver.max_lit_index = formula_max;
        }
        let var_count = solver.max_lit_index + 1;
        solver.assignment.resize(var_count);
        solver.watch_lists.resize(var_count);
        solver.prop_graph.resize(var_count);
        solver.analyze_conflict.resize(var_count);
        solver.clause_db.add_formula(formula);
        proof {
            assert(solver.clause_db.binary_clauses.len() == solver@.bins.len());
            assert(solver.clause_db.long_clauses.len() == solver@.longs.len());
            use_type_invariant(formula);
            solver.place@ = Seq::new(var_count as nat, |v: int| 0int);
            let n = var_count as int;
            assert forall|i: int| 0 <= i < formula@.len() implies lits_below(
                #[trigger] formula@[i],
                n,
            ) by {
                assert forall|j: int| 0 <= j < formula@[i].len() implies (
                #[trigger] formula@[i][j]).var() < n by {
                    assert(formula.clauses@[i]@[j].var() <= formula.max_lit_index);
                }
            }
            assert forall|i: int| 0 <= i < formula@.len() implies distinct_vars(
                #[trigger] formula@[i],
            ) by {
                assert(distinct_vars(formula.clauses@[i]@));
            }
            partition_keeps(formula@, n);
        }
        solver
    }

    /// Decides the formula: watches the clauses, asserts the unit clauses,
    /// and then propagates, decides and learns from conflicts until every
    /// variable has a value and no clause is false, or a conflict is found
    /// that does not depend on any decision. The verdict is `Unsat` in the
    /// second case and where two unit clauses contradict each other; in the
    /// first it is the outcome of a last check of the binary and long
    /// clauses.
    pub fn solve(self) -> (solved: Solver)
        requires
            self.ready(),
        ensures
            solved.answers(&self),
    {
        let mut solver = self;
        let ghost start = solver@;
        solver.generate_watch();
        let ghost watched = solver@;
        proof {
            solver@.same_clauses_follow(start);
            solver@.same_clauses_mention(start);
        }
        let mut i: usize = 0;
        let mut clash = false;
        while i < solver.clause_db.assign_clauses.len() && !clash
            invariant
                !clash ==> solver@.units_asserted(i as int) == watched.units_asserted(0),
                solver@.accounted(self.default_polarity),
                solver@.mentions_within(start),
                clash ==> watched.units_asserted(0) == (solver@, true),
                solver@.tidy(0),
                solver@.sound(),
                solver@.follows_from(start),
                solver@.pos == 0,
                solver@.level() == 0,
                solver@.keeps_clauses(start),
                solver@.units == start.units,
                i <= solver@.units.len(),
                solver.state == SolveState::Unknown,
                solver.default_polarity == self.default_polarity,
                !clash ==> forall|t: int|
                    0 <= t < i ==> is_true(solver@.asg, #[trigger] solver@.units[t]) && solver@.lv(
                        solver@.units[t],
                    ) == 0,
                clash ==> start.unsatisfiable(),
            decreases solver@.units.len() - i,
        {
            let lit = solver.clause_db.assign_clauses[i];
            let ghost before = solver@;
            proof {
                assert(before.units[i as int].var() < before.vars());
            }
            match solver.assignment.value(&lit) {
                None => {
                    proof {
                        before.assigned_keeps_sem(lit, PropReason::Unit, 0);
                        assert(before.units.contains(lit));
                        before.accounted_assigned(lit, PropReason::Unit, self.default_polarity);
                        before.assigned(lit, PropReason::Unit).same_clauses_mention(before);
                        before.assigned(lit, PropReason::Unit).mentions_trans(before, start);
                        before.unit_sound(i as int);
                        before.assigned(lit, PropReason::Unit).same_clauses_follow(before);
                        before.assigned(lit, PropReason::Unit).follows_trans(before, start);
                    }
                    solver.add_assign(&lit, PropReason::Unit);
                    proof {
                        assert forall|t: int| 0 <= t < i + 1 implies is_true(
                            solver@.asg,
                            #[trigger] solver@.units[t],
                        ) && solver@.lv(solver@.units[t]) == 0 by {
                            if t < i {
                                assert(is_true(before.asg, before.units[t]));
                            }
                        }
                    }
                },
                Some(true) => {
                    proof {
                        level_of_assigned(before, lit.var());
                    }
                },
                Some(false) => {
                    proof {
                        level_of_assigned(before, lit.var());
                        assert forall|m: Seq<bool>| !start.models(m) by {
                            if start.models(m) {
                                assert(before.models(m));
                                assert(holds(m, before.units[i as int]));
                                before.fact_excludes(m, lit);
                            }
                        }
                    }
                    clash = true;
                },
            }
            i += 1;
        }
        if clash {
            solver.state = SolveState::Unsat;
            return solver;
        }
        proof {
            assert(start.tables_wf());
        }
        let mut finished = false;
        let mut refuted = false;
        let ghost asserted = solver@;
        let ghost polarity = self.default_polarity;
        proof {
            value_bounded(solver@.starts, solver@.trail.len() as int, solver@.vars());
        }
        while !finished
            invariant
                !finished ==> solver@.search(polarity) == asserted.search(polarity),
                finished ==> asserted.search(polarity) == (solver@, refuted),
                polarity == self.default_polarity,
                solver@.inv(),
                solver@.accounted(polarity),
                solver@.mentions_within(start),
                !finished ==> solver@.tidy(solver@.pos) && solver@.sound(),
                solver@.follows_from(start),
                refuted ==> start.unsatisfiable(),
                solver@.keeps_clauses(start),
                solver@.units_hold(),
                solver.state == SolveState::Unknown,
                solver.default_polarity == self.default_polarity,
                finished && !refuted ==> solver@.total() && solver@.nothing_missed(),
                solver@.worth() <= value_bound(solver@.vars()),
            decreases value_bound(solver@.vars()) - solver@.worth(),
                if finished {
                    0int
                } else {
                    1int
                },
        {
            match solver.round(Ghost(start)) {
                Some(conflict) => {
                    finished = true;
                    refuted = conflict;
                },
                None => {},
            }
        }
        if refuted {
            solver.state = SolveState::Unsat;
        } else {
            let ghost last = solver@;
            proof {
                last.total_means_sat();
            }
            let satisfied = solver.check_satisfied();
            proof {
                last.sat_of_kept(start);
                last.reading_models(start);
            }
        }
        solver
    }

    /// One round of the search: propagates, and then decides or learns.
    /// Returns `Some` where the search is over, with whether a conflict at
    /// level 0 ended it, and `None` where it goes on.
    fn round(&mut self, Ghost(start): Ghost<State>) -> (end: Option<bool>)
        requires
            old(self)@.tidy(old(self)@.pos),
            old(self)@.sound(),
            old(self)@.follows_from(start),
            old(self)@.keeps_clauses(start),
            old(self)@.units_hold(),
            old(self)@.accounted(old(self).default_polarity),
            old(self)@.mentions_within(start),
        ensures
            final(self)@.accounted(old(self).default_polarity),
            final(self)@.mentions_within(start),
            old(self)@.search(old(self).default_polarity) == (match end {
                Some(conflict) => (final(self)@, conflict),
                None => final(self)@.search(old(self).default_polarity),
            }),
            final(self)@.inv(),
            end is None ==> final(self)@.tidy(final(self)@.pos) && final(self)@.sound()
                && old(self)@.worth() < final(self)@.worth(),
            end is Some ==> old(self)@.worth() <= final(self)@.worth(),
            end == Some(true) ==> start.unsatisfiable(),
            end == Some(false) ==> final(self)@.total() && final(self)@.nothing_missed(),
            final(self)@.follows_from(start),
            final(self)@.keeps_clauses(start),
            final(self)@.units_hold(),
            final(self)@.vars() == old(self)@.vars(),
            final(self)@.worth() <= value_bound(final(self)@.vars()),
            final(self).state == old(self).state,
            final(self).default_polarity == old(self).default_polarity,
    {
        let ghost round = self@;
        let ghost n = round.vars();
        proof {
            trail_bounded(round.asg, round.trail, round.place, n);
        }
        let outcome = self.propagate();
        let ghost grown = self@;
        proof {
            trail_bounded(grown.asg, grown.trail, grown.place, n);
            value_bounded(grown.starts, grown.trail.len() as int, n);
            extend_keeps(round.starts, round.trail.len() as int, grown.trail.len() as int, n);
            grown.grown_keeps(round);
            grown.keeps_trans(round, start);
            grown.grown_follows(round);
            grown.follows_trans(round, start);
            grown.accounted_grows(round, self.default_polarity);
            grown.grown_mentions(round);
            grown.mentions_trans(round, start);
        }
        match outcome {
            Ok(_) => {
                if !self.make_decision() {
                    Some(false)
                } else {
                    proof {
                        self@.keeps_trans(grown, start);
                        self@.same_clauses_follow(grown);
                        self@.follows_trans(grown, start);
                        self@.same_clauses_mention(grown);
                        self@.mentions_trans(grown, start);
                        grown.opened().accounted_kept(grown, self.default_polarity);
                        grown.opened().accounted_assigned(
                            self@.trail.last(),
                            PropReason::Unit,
                            self.default_polarity,
                        );
                    }
                    None
                }
            },
            Err(conflict) => {
                if self.resolve_conflict(conflict) {
                    proof {
                        self@.keeps_trans(grown, start);
                        self@.follows_trans(grown, start);
                        self@.mentions_trans(grown, start);
                    }
                    None
                } else {
                    proof {
                        assert forall|m: Seq<bool>| !start.models(m) by {
                            if start.models(m) {
                                assert(grown.models(m));
                            }
                        }
                    }
                    Some(true)
                }
            },
        }
    }

    /// Whether every binary and every long clause has a true literal; the
    /// verdict becomes `Sat` if so and `Unsat` if not.
    pub fn check_satisfied(&mut self) -> (satisfied: bool)
        requires
            old(self)@.tables_wf(),
        ensures
            final(self)@ == old(self)@,
            satisfied == old(self)@.watched_sat(),
            final(self).verdict() == if satisfied {
                SolveState::Sat
            } else {
                SolveState::Unsat
            },
            final(self).polarity() == old(self).polarity(),
    {
        let mut satisfied = true;
        let mut i: usize = 0;
        while satisfied && i < self.clause_db.binary_clauses.len()
            invariant
                self@.tables_wf(),
                i <= self@.bins.len(),
                satisfied ==> forall|t: int|
                    0 <= t < i ==> is_true(self@.asg, (#[trigger] self@.bins[t]).0) || is_true(
                        self@.asg,
                        self@.bins[t].1,
                    ),
                !satisfied ==> !self@.watched_sat(),
            decreases self@.bins.len() - i + if satisfied { 1int } else { 0int },
        {
            let bin = self.clause_db.binary_clauses[i];
            proof {
                assert(self@.bins[i as int] == bin);
            }
            if !self.assignment.is_true(&bin.0) && !self.assignment.is_true(&bin.1) {
                satisfied = false;
            } else {
                i += 1;
            }
        }
        let mut c: usize = 0;
        while satisfied && c < self.clause_db.long_clauses.len()
            invariant
                self@.tables_wf(),
                c <= self@.longs.len(),
                satisfied ==> forall|t: int|
                    0 <= t < self@.bins.len() ==> is_true(self@.asg, (#[trigger] self@.bins[t]).0)
                        || is_true(self@.asg, self@.bins[t].1),
                satisfied ==> forall|t: int|
                    0 <= t < c ==> clause_true(self@.asg, #[trigger] self@.longs[t]),
                !satisfied ==> !self@.watched_sat(),
            decreases self@.longs.len() - c + if satisfied { 1int } else { 0int },
        {
            let len = self.clause_db.long_len(c);
            let mut flag = false;
            let mut j: usize = 0;
            while !flag && j < len
                invariant
                    self@.tables_wf(),
                    c < self@.longs.len(),
                    len == self@.longs[c as int].len(),
                    j <= len,
                    flag ==> clause_true(self@.asg, self@.longs[c as int]),
                    !flag ==> forall|t: int|
                        0 <= t < j ==> !is_true(self@.asg, #[trigger] self@.longs[c as int][t]),
                decreases len - j + if flag { 0int } else { 1int },
            {
                let lit = self.clause_db.long_lit(c, j);
                if self.assignment.is_true(&lit) {
                    flag = true;
                } else {
                    j += 1;
                }
            }
            if !flag {
                satisfied = false;
            } else {
                c += 1;
            }
        }
        if satisfied {
            self.state = SolveState::Sat;
        } else {
            self.state = SolveState::Unsat;
        }
        satisfied
    }

    /// Why the variable of `lit` has its value, in a solver whose verdict
    /// is `Sat`: `None` for a decision or a fact, and else the antecedents,
    /// the other literals of the clause that forced it, which are false.
    pub fn get_prop_reason(&self, lit: &Lit) -> (reason: Option<Vec<Lit>>)
        requires
            self@.tables_wf(),
            lit.var() < self@.vars(),
        ensures
            self.verdict() != SolveState::Sat ==> reason is None,
            self.verdict() == SolveState::Sat ==> self@.explanation(*lit) == match reason {
                Some(lits) => Some(lits@),
                None => None,
            },
    {
        match self.state {
            SolveState::Sat => match self.prop_graph.get_node(lit).reason {
                PropReason::Unit => None,
                PropReason::Binary(l) => {
                    let mut res: Vec<Lit> = Vec::new();
                    res.push(l);
                    assert(res@ =~= seq![l]);
                    Some(res)
                },
                PropReason::Long(r) => match r {
                    ClauseRef::Binary(_) => None,
                    ClauseRef::Long(index) => {
                        let mut res: Vec<Lit> = Vec::new();
                        let len = self.clause_db.long_len(index);
                        let ghost clause = self@.longs[index as int];
                        let mut j: usize = 0;
                        while j < len
                            invariant
                                index < self@.longs.len(),
                                clause == self@.longs[index as int],
                                len == clause.len(),
                                j <= len,
                                res@ == antecedents(clause.take(j as int), lit.var()),
                            decreases len - j,
                        {
                            let ele = self.clause_db.long_lit(index, j);
                            proof {
                                assert(clause.take(j + 1).drop_last() == clause.take(j as int));
                            }
                            if ele.index() != lit.index() {
                                res.push(ele);
                            }
                            j += 1;
                        }
                        proof {
                            assert(clause.take(len as int) == clause);
                        }
                        Some(res)
                    },
                },
            },
            _ => None,
        }
    }
}

} // verus!