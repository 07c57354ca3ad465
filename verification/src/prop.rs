//! The propagation trail, and unit propagation over the watch lists.

use crate::assign::dropped;
use crate::cdcl::Conflict;
use crate::graph::{PropNode, PropReason};
use crate::lit::Lit;
use crate::moves::trail_bounded;
use crate::solver::{ClauseRef, Solver};
use crate::state::{at_level, is_false, is_true, reason_ok, reason_shape, State};
use crate::attach::{entries, entries_of_update};
use crate::walk::{first_unfalse, Clash, Step};
use crate::watch::Watch;
use crate::watching::watch_complete;
use core::ops::Not;
use vstd::prelude::*;

verus! {

/// The trail: every literal assigned so far in the order of assignment, how
/// many of them have been propagated, and where each decision level begins.
pub struct PropQueue {
    pub(crate) trail: Vec<Lit>,
    pub(crate) pos: usize,
    pub(crate) level_with_trail_len: Vec<usize>,
}

impl PropQueue {
    /// The literals on the trail, oldest first.
    pub open(crate) spec fn trail(&self) -> Seq<Lit> {
        self.trail@
    }

    /// How many literals of the trail have been handed out.
    pub open(crate) spec fn done(&self) -> int {
        self.pos as int
    }

    /// For each decision level above 0, the length the trail had when the
    /// level was opened.
    pub open(crate) spec fn starts(&self) -> Seq<usize> {
        self.level_with_trail_len@
    }

    /// An empty trail at level 0.
    pub fn new() -> (queue: PropQueue)
        ensures
            queue.trail() == Seq::<Lit>::empty(),
            queue.done() == 0,
            queue.starts() == Seq::<usize>::empty(),
    {
        PropQueue { trail: Vec::new(), pos: 0, level_with_trail_len: Vec::new() }
    }

    /// Hands out the oldest literal that was not handed out yet.
    pub fn pop_queue(&mut self) -> (next: Option<Lit>)
        ensures
            final(self).trail() == old(self).trail(),
            final(self).starts() == old(self).starts(),
            old(self).done() < old(self).trail().len() ==> next == Some(
                old(self).trail()[old(self).done()],
            ) && final(self).done() == old(self).done() + 1,
            old(self).done() >= old(self).trail().len() ==> next is None && final(self).done()
                == old(self).done(),
    {
        if self.pos < self.trail.len() {
            let lit = self.trail[self.pos];
            self.pos += 1;
            Some(lit)
        } else {
            None
        }
    }

    /// Appends `lit` to the trail.
    pub fn push_back(&mut self, lit: &Lit)
        ensures
            final(self).trail() == old(self).trail().push(*lit),
            final(self).done() == old(self).done(),
            final(self).starts() == old(self).starts(),
    {
        self.trail.push(*lit);
    }

    /// Opens a decision level that begins at the present end of the trail.
    pub(crate) fn new_decision_level(&mut self)
        ensures
            final(self).trail() == old(self).trail(),
            final(self).done() == old(self).done(),
            final(self).starts() == old(self).starts().push(old(self).trail().len() as usize),
    {
        self.level_with_trail_len.push(self.trail.len());
    }

    /// The present decision level.
    pub(crate) fn current_level(&self) -> (level: usize)
        ensures
            level == self.starts().len(),
    {
        self.level_with_trail_len.len()
    }
}

impl From<&[Lit]> for PropQueue {
    /// A trail that holds `value`, with nothing handed out, at level 0.
    fn from(value: &[Lit]) -> (queue: PropQueue)
        ensures
            queue.trail() == value@,
            queue.done() == 0,
            queue.starts() == Seq::<usize>::empty(),
    {
        PropQueue {
            trail: vstd::slice::slice_to_vec(value),
            pos: 0,
            level_with_trail_len: Vec::new(),
        }
    }
}

impl vstd::std_specs::convert::FromSpecImpl<&[Lit]> for PropQueue {
    open spec fn obeys_from_spec() -> bool {
        false
    }

    open spec fn from_spec(value: &[Lit]) -> PropQueue {
        arbitrary()
    }
}

impl Default for PropQueue {
    fn default() -> (queue: PropQueue)
        ensures
            queue.trail() == Seq::<Lit>::empty(),
            queue.done() == 0,
            queue.starts() == Seq::<usize>::empty(),
    {
        PropQueue::new()
    }
}

/// What became of a watch on a long clause when its literal turned false.
pub enum Visit {
    /// The watch stays as it is.
    Keep,
    /// The watch stays, with a new blocking literal.
    Update(Watch),
    /// The clause is watched on another literal now; the watch leaves the
    /// list.
    Moved,
    /// Every literal of the clause is false; the watch stays.
    Conflict(Conflict),
}

impl Visit {
    /// The same, with the clause of a conflict as a sequence.
    pub open spec fn step(self) -> Step {
        match self {
            Visit::Keep => Step::Keep,
            Visit::Update(w) => Step::Update(w),
            Visit::Moved => Step::Moved,
            Visit::Conflict(conflict) => Step::Stop(conflict.clash()),
        }
    }
}

impl Solver {
    /// The first position from 2 on at which the long clause `index` holds a
    /// literal that is not false.
    fn find_unfalse(&self, index: usize) -> (found: Option<usize>)
        requires
            self@.tables_wf(),
            index < self@.longs.len(),
        ensures
            first_unfalse(self@.asg, self@.longs[index as int], 2) == (match found {
                Some(k) => k as int,
                None => self@.longs[index as int].len() as int,
            }),
            found matches Some(k) ==> 2 <= k < self@.longs[index as int].len() && !is_false(
                self@.asg,
                self@.longs[index as int][k as int],
            ),
            forall|j: int|
                2 <= j < (match found {
                    Some(k) => k as int,
                    None => self@.longs[index as int].len() as int,
                }) ==> is_false(self@.asg, #[trigger] self@.longs[index as int][j]),
    {
        let len = self.clause_db.long_len(index);
        let mut k: usize = 2;
        while k < len
            invariant
                2 <= k,
                len == self@.longs[index as int].len(),
                self@.tables_wf(),
                index < self@.longs.len(),
                forall|j: int| 2 <= j < k ==> is_false(self@.asg, #[trigger] self@.longs[index as int][j]),
                first_unfalse(self@.asg, self@.longs[index as int], 2) == first_unfalse(
                    self@.asg,
                    self@.longs[index as int],
                    k as int,
                ),
            decreases len - k,
        {
            let candidate = self.clause_db.long_lit(index, k);
            if !self.assignment.is_false(&candidate) {
                return Some(k);
            }
            k += 1;
        }
        None
    }

    /// Looks at a binary clause again, now that `lit` is true and the watch
    /// `watch`, at position `at` of the detached list `local`, has come up.
    fn visit_binary(
        &mut self,
        lit: Lit,
        watch: Watch,
        Ghost(local): Ghost<Seq<Watch>>,
        Ghost(at): Ghost<int>,
        Ghost(from): Ghost<int>,
    ) -> (visit: Visit)
        requires
            old(self)@.scanning(lit, local, at),
            old(self)@.sound(),
            old(self)@.forced_from(from),
            0 <= from,
            0 <= at < local.len(),
            local[at] == watch,
            watch.cref is Binary,
        ensures
            (final(self)@, visit.step()) == old(self)@.visit(lit, watch),
            entries(final(self)@.watches) == entries(old(self)@.watches) + if visit is Moved {
                1int
            } else {
                0int
            },
            final(self)@.watches[lit.spec_code() as int] == old(self)@.watches[lit.spec_code() as int],
            final(self)@.forced_from(from),
            final(self)@.sound(),
            final(self)@.grows_from(old(self)@),
            final(self)@.pos == old(self)@.pos,
            final(self)@.vars() == old(self)@.vars(),
            match visit {
                Visit::Keep => final(self)@.scanning(lit, local, at + 1),
                Visit::Update(w) => final(self)@.scanning(lit, local.update(at, w), at + 1),
                Visit::Moved => final(self)@.scanning(lit, local.remove(at), at),
                Visit::Conflict(conflict) => {
                    &&& final(self)@.scanning(lit, local, at)
                    &&& final(self)@.conflict_ok(conflict.lits())
                    &&& final(self)@.from_db(conflict.lits())
                    &&& conflict.clash().stored(final(self)@)
                },
            },
            final(self).state == old(self).state,
            final(self).default_polarity == old(self).default_polarity,
            final(self).max_lit_index == old(self).max_lit_index,
            final(self).analyze_conflict == old(self).analyze_conflict,
    {
        let ghost mid = self@;
        proof {
            mid.scan_facts(lit, local, at);
            mid.bin_stored(lit, local, at);
        }
        match self.assignment.value(&watch.blocking) {
            Some(false) => {
                proof {
                    mid.bin_conflict(lit, local, at);
                    assert(Conflict::Binary(lit.neg(), watch.blocking).lits()
                        =~= seq![lit.neg(), watch.blocking]);
                }
                Visit::Conflict(Conflict::Binary(lit.not(), watch.blocking))
            },
            None => {
                proof {
                    mid.bin_forced(lit, local, at);
                    mid.bin_forced_sound(lit, local, at);
                    mid.forced_grows(watch.blocking, PropReason::Binary(lit.neg()), from);
                }
                self.add_assign(&watch.blocking, PropReason::Binary(lit.not()));
                Visit::Keep
            },
            Some(true) => {
                proof {
                    mid.passed_over(lit, local, at);
                }
                Visit::Keep
            },
        }
    }

    /// Looks at the long clause `index` again, now that `lit` is true and the
    /// watch `watch`, at position `at` of the detached list `local`, has
    /// come up.
    fn visit_long(
        &mut self,
        lit: Lit,
        watch: Watch,
        index: usize,
        Ghost(local): Ghost<Seq<Watch>>,
        Ghost(at): Ghost<int>,
        Ghost(from): Ghost<int>,
    ) -> (visit: Visit)
        requires
            old(self)@.scanning(lit, local, at),
            old(self)@.sound(),
            old(self)@.forced_from(from),
            0 <= from,
            0 <= at < local.len(),
            local[at] == watch,
            watch.cref == ClauseRef::Long(index),
        ensures
            (final(self)@, visit.step()) == old(self)@.visit(lit, watch),
            entries(final(self)@.watches) == entries(old(self)@.watches) + if visit is Moved {
                1int
            } else {
                0int
            },
            final(self)@.watches[lit.spec_code() as int] == old(self)@.watches[lit.spec_code() as int],
            final(self)@.forced_from(from),
            final(self)@.sound(),
            final(self)@.grows_from(old(self)@),
            final(self)@.pos == old(self)@.pos,
            final(self)@.vars() == old(self)@.vars(),
            match visit {
                Visit::Keep => final(self)@.scanning(lit, local, at + 1),
                Visit::Update(w) => final(self)@.scanning(lit, local.update(at, w), at + 1),
                Visit::Moved => final(self)@.scanning(lit, local.remove(at), at),
                Visit::Conflict(conflict) => {
                    &&& final(self)@.scanning(lit, local, at)
                    &&& final(self)@.conflict_ok(conflict.lits())
                    &&& final(self)@.from_db(conflict.lits())
                    &&& conflict.clash().stored(final(self)@)
                },
            },
            final(self).state == old(self).state,
            final(self).default_polarity == old(self).default_polarity,
            final(self).max_lit_index == old(self).max_lit_index,
            final(self).analyze_conflict == old(self).analyze_conflict,
    {
        let ghost start = self@;
        proof {
            start.scan_facts(lit, local, at);
        }
        if self.assignment.is_true(&watch.blocking) {
            proof {
                start.passed_over(lit, local, at);
            }
            return Visit::Keep;
        }
        if self.clause_db.long_lit(index, 0) == lit.not() {
            proof {
                start.front_swapped(lit, local, at, index as int);
                start.swap_sound(index as int, 0, 1);
                start.with_swap(index as int, 0, 1).forced_kept(start, from);
            }
            self.clause_db.swap_long(index, 0, 1);
            assert(self@ == start.with_swap(index as int, 0, 1));
        }
        let ghost mid = self@;
        proof {
            mid.scan_facts(lit, local, at);
        }
        let first = self.clause_db.long_lit(index, 0);
        let new_watch = Watch::new(watch.cref, first);
        if first != watch.blocking && self.assignment.is_true(&first) {
            proof {
                mid.reblocked(lit, local, at, index as int);
            }
            return Visit::Update(new_watch);
        }
        match self.find_unfalse(index) {
            Some(k) => {
                let target = self.clause_db.long_lit(index, k);
                proof {
                    mid.rewatched_scans(lit, local, at, index as int, k as int);
                    mid.rewatched_sound(index as int, k as int);
                    mid.rewatched(index as int, k as int).grows_trans(mid, start);
                    mid.rewatched(index as int, k as int).forced_kept(mid, from);
                    entries_of_update(
                        mid.watches,
                        target.neg().spec_code() as int,
                        mid.watches[target.neg().spec_code() as int].push(new_watch),
                    );
                    target.neg_flips();
                    assert(target.neg().spec_code() != lit.spec_code()) by {
                        if target.neg().spec_code() == lit.spec_code() {
                            assert(target.neg() == lit);
                            assert(target == lit.neg());
                        }
                    }
                }
                self.clause_db.swap_long(index, 1, k);
                self.watch_lists.add_watch(target.not(), new_watch);
                assert(self@ == mid.rewatched(index as int, k as int));
                Visit::Moved
            },
            None => {
                if self.assignment.is_false(&first) {
                    let lits = self.clause_db.long_copy(index);
                    proof {
                        mid.long_conflict(lit, local, at, index as int);
                        assert(mid.longs[index as int] == lits@);
                    }
                    Visit::Conflict(Conflict::Long(lits))
                } else {
                    proof {
                        mid.forced_scans(lit, local, at, index as int);
                        mid.forced_sound(lit, local, at, index as int);
                        mid.assigned(first, PropReason::Long(watch.cref)).grows_trans(mid, start);
                        mid.forced_grows(first, PropReason::Long(watch.cref), from);
                    }
                    self.add_assign(&first, PropReason::Long(watch.cref));
                    Visit::Keep
                }
            },
        }
    }

    /// Unit propagation: takes the trail's literals one by one and looks at
    /// every clause watched on the negation of each, until nothing is left
    /// to propagate or a clause has every literal false. Where it ends
    /// without a conflict, no clause is false and none is unit. The state at
    /// the end and the conflict are those of `run`, which visits the watches
    /// in the order of the lists. The conflict is a stored clause of its
    /// kind, and each literal that joined the trail has a stored clause as
    /// its reason: a binary clause that holds it, or a long clause with the
    /// literal in the first place. No list holds two watches of one clause,
    /// and the lists hold as many watches as before.
    pub(crate) fn propagate(&mut self) -> (result: Result<(), Conflict>)
        requires
            old(self)@.tidy(old(self)@.pos),
            old(self)@.sound(),
        ensures
            old(self)@.run() == (
                final(self)@,
                match result {
                    Ok(_) => None,
                    Err(conflict) => Some(conflict.clash()),
                },
            ),
            result matches Err(conflict) ==> conflict.clash().stored(final(self)@),
            final(self)@.forced_from(old(self)@.trail.len() as int),
            entries(final(self)@.watches) == entries(old(self)@.watches),
            final(self)@.inv(),
            final(self)@.sound(),
            final(self)@.grows_from(old(self)@),
            watch_complete(final(self)@.bins, final(self)@.longs, final(self)@.watches),
            result is Ok ==> final(self)@.pos == final(self)@.trail.len() && final(self)@.watch_sem(
                final(self)@.pos,
            ) && final(self)@.nothing_missed(),
            result matches Err(conflict) ==> {
                &&& final(self)@.conflict_ok(conflict.lits())
                &&& final(self)@.from_db(conflict.lits())
                &&& final(self)@.pos >= 1
                &&& final(self)@.watch_sem(final(self)@.pos - 1)
                &&& final(self)@.starts.len() > 0 ==> final(self)@.starts.last() < final(self)@.pos
            },
            final(self).state == old(self).state,
            final(self).default_polarity == old(self).default_polarity,
            final(self).max_lit_index == old(self).max_lit_index,
            final(self).analyze_conflict == old(self).analyze_conflict,
    {
        let ghost from = self@.trail.len() as int;
        loop
            invariant
                self@.tidy(self@.pos),
                self@.sound(),
                self@.grows_from(old(self)@),
                self@.run() == old(self)@.run(),
                self@.forced_from(from),
                entries(self@.watches) == entries(old(self)@.watches),
                from == old(self)@.trail.len(),
                self.state == old(self).state,
                self.default_polarity == old(self).default_polarity,
                self.max_lit_index == old(self).max_lit_index,
                self.analyze_conflict == old(self).analyze_conflict,
            decreases self@.vars() - self@.pos,
        {
            proof {
                trail_bounded(self@.asg, self@.trail, self@.place, self@.vars());
            }
            let ghost before = self@;
            let lit = match self.prop_queue.pop_queue() {
                Some(lit) => lit,
                None => {
                    proof {
                        before.propagated_misses_nothing();
                    }
                    return Ok(());
                },
            };
            proof {
                before.taken_scans();
                before.taken().same_clauses_sound(before);
                assert(lit.var() < before.vars());
            }
            let mut watch_list = self.watch_lists.pop_watch_list(lit);
            let ghost whole = watch_list@;
            proof {
                assert(self@ == before.taken());
                self@.grows_trans(before, old(self)@);
                self@.forced_kept(before, from);
                entries_of_update(before.watches, lit.spec_code() as int, Seq::<Watch>::empty());
            }
            let mut i: usize = 0;
            let mut conflict: Option<Conflict> = None;
            while i < watch_list.list.len() && conflict.is_none()
                invariant
                    i <= watch_list@.len(),
                    conflict is Some ==> i >= 1,
                    self@.scanning(lit, watch_list@, if conflict is Some {
                        i - 1
                    } else {
                        i as int
                    }),
                    self@.sound(),
                    self@.grows_from(old(self)@),
                    self@.forced_from(from),
                    0 <= from,
                    entries(self@.watches) + watch_list@.len() == entries(before.watches),
                    self@.watches[lit.spec_code() as int].len() == 0,
                    self@.pos == before.pos + 1,
                    self@.vars() == before.vars(),
                    conflict is None ==> self@.scan(lit, watch_list@, i as int)
                        == before.taken().scan(lit, whole, 0),
                    conflict matches Some(c) ==> before.taken().scan(lit, whole, 0) == (
                        self@,
                        watch_list@,
                        Some(c.clash()),
                    ),
                    conflict matches Some(c) ==> self@.conflict_ok(c.lits()) && self@.from_db(
                        c.lits(),
                    ) && c.clash().stored(self@),
                    self.state == old(self).state,
                    self.default_polarity == old(self).default_polarity,
                    self.max_lit_index == old(self).max_lit_index,
                    self.analyze_conflict == old(self).analyze_conflict,
                decreases watch_list@.len() - i,
            {
                let watch = watch_list.list[i];
                let ghost mid = self@;
                i += 1;
                let visit = match watch.cref {
                    ClauseRef::Binary(_) => self.visit_binary(
                        lit,
                        watch,
                        Ghost(watch_list@),
                        Ghost(i as int - 1),
                        Ghost(from),
                    ),
                    ClauseRef::Long(index) => self.visit_long(
                        lit,
                        watch,
                        index,
                        Ghost(watch_list@),
                        Ghost(i as int - 1),
                        Ghost(from),
                    ),
                };
                proof {
                    self@.grows_trans(mid, old(self)@);
                }
                match visit {
                    Visit::Keep => {},
                    Visit::Update(w) => {
                        watch_list.list[i - 1] = w;
                    },
                    Visit::Moved => {
                        i -= 1;
                        watch_list.list.remove(i);
                    },
                    Visit::Conflict(found) => {
                        conflict = Some(found);
                    },
                }
            }
            let ghost scanned = self@;
            proof {
                if conflict is Some {
                    scanned.attached_after_conflict(
                        lit,
                        watch_list@,
                        i - 1,
                        conflict->Some_0.lits(),
                    );
                } else {
                    scanned.attached_tidy(lit, watch_list@);
                }
                scanned.attached(lit, watch_list@).grows_trans(scanned, old(self)@);
                scanned.attached(lit, watch_list@).same_clauses_sound(scanned);
                scanned.attached(lit, watch_list@).forced_kept(scanned, from);
                entries_of_update(scanned.watches, lit.spec_code() as int, watch_list@);
            }
            self.watch_lists.set_watch_list(lit, watch_list);
            assert(self@ == scanned.attached(lit, watch_list@));
            if let Some(found) = conflict {
                return Err(found);
            }
        }
    }

    /// Makes `lit` true at the present level, for the reason given, and puts
    /// it on the trail.
    pub(crate) fn add_assign(&mut self, lit: &Lit, prop_reason: PropReason)
        requires
            old(self)@.core_open(),
            lit.var() < old(self)@.vars(),
            old(self)@.asg[lit.var()] is None,
            reason_shape(
                prop_reason,
                old(self)@.vars(),
                old(self)@.bins.len() as int,
                old(self)@.longs.len() as int,
            ),
            reason_ok(
                old(self)@.asg,
                old(self)@.longs,
                old(self)@.starts,
                old(self)@.place,
                *lit,
                old(self)@.trail.len() as int,
                PropNode { reason: prop_reason, level: old(self)@.starts.len() as usize },
            ),
        ensures
            final(self)@ == old(self)@.assigned(*lit, prop_reason),
            final(self)@.core_ok(),
            final(self).state == old(self).state,
            final(self).default_polarity == old(self).default_polarity,
            final(self).max_lit_index == old(self).max_lit_index,
            final(self).analyze_conflict == old(self).analyze_conflict,
    {
        let ghost before = self@;
        let level = self.prop_queue.current_level();
        self.assignment.assign(lit);
        self.prop_queue.push_back(lit);
        self.prop_graph.update_node(lit, prop_reason, level);
        proof {
            self.place@ = self.place@.update(lit.var(), before.trail.len() as int);
            before.assigned_keeps_core(*lit, prop_reason);
        }
    }

    /// Goes back to the end of level `backtrack_level`: what was assigned
    /// above that level leaves the trail and loses its value.
    pub(crate) fn backtrack(&mut self, backtrack_level: usize)
        requires
            old(self)@.core_ok(),
            backtrack_level <= old(self)@.level(),
        ensures
            final(self)@ == old(self)@.cut(backtrack_level as int),
            final(self)@.core_ok(),
            final(self).state == old(self).state,
            final(self).default_polarity == old(self).default_polarity,
            final(self).max_lit_index == old(self).max_lit_index,
            final(self).analyze_conflict == old(self).analyze_conflict,
    {
        let ghost before = self@;
        if backtrack_level < self.prop_queue.level_with_trail_len.len() {
            let new_len = self.prop_queue.level_with_trail_len[backtrack_level];
            self.prop_queue.level_with_trail_len.truncate(backtrack_level);
            self.prop_queue.pos = new_len;
            self.assignment.unassign_from(&self.prop_queue.trail, new_len);
            self.prop_queue.trail.truncate(new_len);
            proof {
                let cut = before.cut(backtrack_level as int);
                assert forall|v: int| 0 <= v < before.asg.len() implies self@.asg[v]
                    == cut.asg[v] by {
                    if dropped(before.trail, new_len as int, before.trail.len() as int, v) {
                        let k = choose|k: int|
                            new_len <= k < before.trail.len() && (#[trigger] before.trail[k]).var()
                                == v;
                        assert(is_true(before.asg, before.trail[k]));
                    } else if before.asg[v] is Some && new_len <= before.place[v] {
                        assert(before.trail[before.place[v]].var() == v);
                    }
                }
                assert(self@.asg =~= cut.asg);
                assert(self@.starts =~= cut.starts);
                assert(self@.trail =~= cut.trail);
            }
        }
        proof {
            before.cut_keeps_core(backtrack_level as int);
        }
    }
}

impl State {
    /// The state after `lit` has been made true at the present level for
    /// the reason given.
    pub open spec fn assigned(self, lit: Lit, reason: PropReason) -> State {
        State {
            asg: self.asg.update(lit.var(), Some(lit.positive())),
            trail: self.trail.push(lit),
            graph: self.graph.update(
                lit.var(),
                PropNode { reason, level: self.starts.len() as usize },
            ),
            place: self.place.update(lit.var(), self.trail.len() as int),
            ..self
        }
    }

    /// The state after going back to the end of level `level`: the trail
    /// ends where level `level + 1` began, and what stood after that is
    /// unassigned.
    pub open spec fn cut(self, level: int) -> State {
        if level < self.starts.len() {
            let new_len = self.starts[level] as int;
            State {
                asg: Seq::new(
                    self.asg.len(),
                    |v: int|
                        if self.asg[v] is Some && new_len <= self.place[v] {
                            None
                        } else {
                            self.asg[v]
                        },
                ),
                trail: self.trail.take(new_len),
                starts: self.starts.take(level),
                pos: new_len,
                ..self
            }
        } else {
            self
        }
    }

    /// Making an unassigned literal true with a reason that explains it
    /// keeps the trail, the levels and the reasons in order.
    pub proof fn assigned_keeps_core(self, lit: Lit, reason: PropReason)
        requires
            self.core_open(),
            lit.var() < self.vars(),
            self.asg[lit.var()] is None,
            reason_shape(reason, self.vars(), self.bins.len() as int, self.longs.len() as int),
            reason_ok(
                self.asg,
                self.longs,
                self.starts,
                self.place,
                lit,
                self.trail.len() as int,
                PropNode { reason, level: self.starts.len() as usize },
            ),
        ensures
            self.assigned(lit, reason).core_ok(),
    {
        let next = self.assigned(lit, reason);
        let len = self.trail.len() as int;
        assert forall|k: int| 0 <= k < next.trail.len() implies is_true(
            next.asg,
            #[trigger] next.trail[k],
        ) && next.place[next.trail[k].var()] == k by {
            if k < len {
                assert(is_true(self.asg, self.trail[k]));
            }
        }
        assert forall|k: int| 0 <= k < next.trail.len() implies at_level(
            next.starts,
            k,
            next.graph[(#[trigger] next.trail[k]).var()].level as int,
        ) by {
            if k < len {
                assert(is_true(self.asg, self.trail[k]));
                assert(at_level(self.starts, k, self.graph[self.trail[k].var()].level as int));
            }
        }
        assert forall|k: int| 0 <= k < next.trail.len() implies reason_ok(
            next.asg,
            next.longs,
            next.starts,
            next.place,
            #[trigger] next.trail[k],
            k,
            next.graph[next.trail[k].var()],
        ) by {
            if k < len {
                assert(is_true(self.asg, self.trail[k]));
                assert(reason_ok(
                    self.asg,
                    self.longs,
                    self.starts,
                    self.place,
                    self.trail[k],
                    k,
                    self.graph[self.trail[k].var()],
                ));
            }
        }
        assert forall|v: int|
            0 <= v < next.asg.len() && (#[trigger] next.asg[v]) is Some implies 0 <= next.place[v]
            < next.trail.len() && next.trail[next.place[v]].var() == v by {
            if v != lit.var() {
                assert(self.asg[v] is Some);
            }
        }
    }

    /// Going back to an earlier level keeps the trail, the levels and the
    /// reasons in order.
    pub proof fn cut_keeps_core(self, level: int)
        requires
            self.core_ok(),
            0 <= level <= self.level(),
        ensures
            self.cut(level).core_ok(),
    {
        if level < self.starts.len() {
            let next = self.cut(level);
            let new_len = self.starts[level] as int;
            assert forall|k: int| 0 <= k < next.trail.len() implies is_true(
                next.asg,
                #[trigger] next.trail[k],
            ) && next.place[next.trail[k].var()] == k by {
                assert(is_true(self.asg, self.trail[k]));
            }
            assert forall|k: int| 0 <= k < next.trail.len() implies at_level(
                next.starts,
                k,
                next.graph[(#[trigger] next.trail[k]).var()].level as int,
            ) by {
                assert(at_level(self.starts, k, self.graph[self.trail[k].var()].level as int));
            }
            assert forall|k: int| 0 <= k < next.trail.len() implies reason_ok(
                next.asg,
                next.longs,
                next.starts,
                next.place,
                #[trigger] next.trail[k],
                k,
                next.graph[next.trail[k].var()],
            ) by {
                assert(at_level(self.starts, k, self.graph[self.trail[k].var()].level as int));
                assert(reason_ok(
                    self.asg,
                    self.longs,
                    self.starts,
                    self.place,
                    self.trail[k],
                    k,
                    self.graph[self.trail[k].var()],
                ));
            }
        }
    }
}

/// Two states with the same assignment, places, levels and clauses back the
/// same watched literals.
pub proof fn same_sem(a: State, b: State, done: int)
    requires
        a.watch_sem(done),
        a.asg == b.asg,
        a.place == b.place,
        a.graph == b.graph,
        a.bins == b.bins,
        a.longs == b.longs,
    ensures
        b.watch_sem(done),
{
    assert forall|x: Lit, c: Seq<Lit>| a.backed(c, x) implies #[trigger] b.backed(c, x) by {
        let k = choose|k: int|
            0 <= k < c.len() && is_true(a.asg, #[trigger] c[k]) && a.lv(c[k]) <= a.lv(x);
        assert(is_true(b.asg, c[k]) && b.lv(c[k]) <= b.lv(x));
    }
    assert forall|i: int| 0 <= i < b.longs.len() implies (b.done_false(
        (#[trigger] b.longs[i])[0],
        done,
    ) ==> b.backed(b.longs[i], b.longs[i][0])) && (b.done_false(b.longs[i][1], done) ==> b.backed(
        b.longs[i],
        b.longs[i][1],
    )) by {
        let c = a.longs[i];
        if b.done_false(c[0], done) {
            assert(a.done_false(c[0], done));
        }
        if b.done_false(c[1], done) {
            assert(a.done_false(c[1], done));
        }
    }
}

/// A clause that has a true literal keeps it when a value is given to an
/// unassigned variable.
pub proof fn settled_grows(old: State, new: State, w: Watch)
    requires
        old.tables_wf(),
        old.settled(w),
        w.blocking.var() < old.vars(),
        new.longs == old.longs,
        new.asg.len() == old.asg.len(),
        forall|v: int|
            0 <= v < old.vars() && (#[trigger] old.asg[v]) is Some ==> new.asg[v] == old.asg[v],
    ensures
        new.settled(w),
{
    if let ClauseRef::Long(c) = w.cref {
        let clause = old.longs[c as int];
        let k = choose|k: int| 0 <= k < clause.len() && is_true(old.asg, #[trigger] clause[k]);
        assert(clause[k].var() < old.vars());
        assert(old.asg[clause[k].var()] is Some);
        assert(is_true(new.asg, clause[k]));
    } else {
        assert(old.asg[w.blocking.var()] is Some);
    }
}

} // verus!
