//! Watch lists: for each literal, the clauses to look at again once that
//! literal has become true.

use crate::db::ClauseDb;
use crate::lit::Lit;
use crate::solver::{ClauseRef, Solver};
use crate::state::{clauses_distinct, db_wf, lit_of, watch_ok, watches_ok, State};
use crate::attach::{
    all_watched_ok, bin_watched, entries, entries_of_all, long_watched, none_watched, watched_upto,
};
use crate::watching::watch_complete;
use core::ops::Not;
use vstd::prelude::*;

verus! {

/// A clause to look at again, and a literal of that clause: while the
/// blocking literal is true the clause is satisfied and can be passed over.
#[derive(Debug, Clone, Copy)]
pub struct Watch {
    pub cref: ClauseRef,
    pub blocking: Lit,
}

/// The watches attached to one literal.
pub struct Watchlist {
    pub(crate) list: Vec<Watch>,
}

/// One watch list for each literal, indexed by the literal's encoding.
pub struct Watchlists {
    pub(crate) lists: Vec<Watchlist>,
}

impl View for Watchlist {
    type V = Seq<Watch>;

    open(crate) spec fn view(&self) -> Seq<Watch> {
        self.list@
    }
}

impl View for Watchlists {
    type V = Seq<Seq<Watch>>;

    open(crate) spec fn view(&self) -> Seq<Seq<Watch>> {
        Seq::new(self.lists@.len(), |i: int| self.lists@[i]@)
    }
}

impl Watch {
    pub(crate) fn new(clause_ref: ClauseRef, blocking: Lit) -> (watch: Watch)
        ensures
            watch == (Watch { cref: clause_ref, blocking }),
    {
        Watch { cref: clause_ref, blocking }
    }
}

impl Watchlist {
    /// A list without watches.
    pub(crate) fn new() -> (list: Watchlist)
        ensures
            list@ == Seq::<Watch>::empty(),
    {
        Watchlist { list: Vec::new() }
    }
}

impl Watchlists {
    /// No lists at all.
    pub(crate) fn new() -> (lists: Watchlists)
        ensures
            lists@ == Seq::<Seq<Watch>>::empty(),
    {
        let lists = Watchlists { lists: Vec::new() };
        assert(lists@ == Seq::<Seq<Watch>>::empty());
        lists
    }

    /// Grows the table to two lists for each of `var_count` variables, the new
    /// ones empty, or cuts it down to its first `2 * var_count` lists.
    pub(crate) fn resize(&mut self, var_count: usize)
        requires
            2 * var_count <= usize::MAX,
        ensures
            final(self)@.len() == 2 * var_count,
            forall|code: int|
                0 <= code < 2 * var_count ==> final(self)@[code] == if code < old(self)@.len() {
                    old(self)@[code]
                } else {
                    Seq::<Watch>::empty()
                },
    {
        let len: usize = var_count * 2;
        let ghost before = self.lists@;
        self.lists.truncate(len);
        while self.lists.len() < len
            invariant
                self.lists@.len() <= len,
                len == 2 * var_count,
                before.len() <= self.lists@.len() || self.lists@.len() == len,
                forall|code: int|
                    0 <= code < self.lists@.len() ==> #[trigger] self.lists@[code]@ == if code
                        < before.len() {
                        before[code]@
                    } else {
                        Seq::<Watch>::empty()
                    },
            decreases len - self.lists.len(),
        {
            self.lists.push(Watchlist::new());
        }
        assert forall|code: int| 0 <= code < 2 * var_count implies self@[code] == if code < old(
            self,
        )@.len() {
            old(self)@[code]
        } else {
            Seq::<Watch>::empty()
        } by {
            assert(self@[code] == self.lists@[code]@);
            if code < before.len() {
                assert(old(self)@[code] == before[code]@);
            }
        }
    }

    /// Watches every binary and every long clause of `db` on its first two
    /// literals: the binary clauses first, then the long ones, each kind in
    /// the order in which it is stored, each watch at the end of its list.
    pub(crate) fn watch_db(&mut self, db: &ClauseDb, Ghost(n): Ghost<int>)
        requires
            old(self)@.len() == 2 * n,
            forall|c: int| 0 <= c < old(self)@.len() ==> (#[trigger] old(self)@[c]).len() == 0,
            db_wf(db.units(), db.bins(), db.longs(), n),
            clauses_distinct(db.bins(), db.longs()),
        ensures
            final(self)@ == all_watched(old(self)@, db.bins(), db.longs()),
            watches_ok(db.bins(), db.longs(), n, final(self)@),
            watch_complete(db.bins(), db.longs(), final(self)@),
    {
        proof {
            none_watched(db.bins(), db.longs(), n, self@);
        }
        let mut i: usize = 0;
        while i < db.binary_clauses.len()
            invariant
                i <= db.binary_clauses.len(),
                self@ == bins_watched(old(self)@, db.bins(), i as int),
                db_wf(db.units(), db.bins(), db.longs(), n),
                clauses_distinct(db.bins(), db.longs()),
                watched_upto(db.bins(), db.longs(), n, self@, i as int, 0),
            decreases db.binary_clauses.len() - i,
        {
            let clause = db.binary_clauses[i];
            proof {
                assert(db.bins()[i as int] == clause);
                bin_watched(db.units(), db.bins(), db.longs(), n, self@, i as int);
            }
            self.watch_clause(ClauseRef::Binary(i), clause.0, clause.1);
            i += 1;
        }
        let ghost half = self@;
        let mut i: usize = 0;
        while i < db.long_clauses.len()
            invariant
                i <= db.long_clauses.len(),
                half == bins_watched(old(self)@, db.bins(), db.bins().len() as int),
                self@ == longs_watched(half, db.longs(), i as int),
                db_wf(db.units(), db.bins(), db.longs(), n),
                clauses_distinct(db.bins(), db.longs()),
                watched_upto(db.bins(), db.longs(), n, self@, db.bins().len() as int, i as int),
            decreases db.long_clauses.len() - i,
        {
            proof {
                assert(db.longs()[i as int] == db.long_clauses@[i as int]@);
                long_watched(db.units(), db.bins(), db.longs(), n, self@, i as int);
            }
            let first = db.long_clauses[i][0];
            let second = db.long_clauses[i][1];
            self.watch_clause(ClauseRef::Long(i), first, second);
            i += 1;
        }
        proof {
            all_watched_ok(db.bins(), db.longs(), n, self@);
        }
    }

    /// Attaches `watch` to `lit`.
    pub(crate) fn add_watch(&mut self, lit: Lit, watch: Watch)
        requires
            lit.spec_code() < old(self)@.len(),
        ensures
            final(self)@ == old(self)@.update(
                lit.spec_code() as int,
                old(self)@[lit.spec_code() as int].push(watch),
            ),
    {
        self.lists[lit.code()].list.push(watch);
        assert(self@ =~= old(self)@.update(
            lit.spec_code() as int,
            old(self)@[lit.spec_code() as int].push(watch),
        ));
    }

    /// Watches a clause on `first` and `second`: the clause is looked at
    /// again when the negation of either has become true.
    pub(crate) fn watch_clause(&mut self, clause_ref: ClauseRef, first: Lit, second: Lit)
        requires
            first.var() * 2 + 1 < old(self)@.len(),
            second.var() * 2 + 1 < old(self)@.len(),
        ensures
            final(self)@ == watched(old(self)@, clause_ref, first, second),
    {
        self.add_watch(first.not(), Watch { cref: clause_ref, blocking: second });
        self.add_watch(second.not(), Watch { cref: clause_ref, blocking: first });
    }

    /// Detaches the list of `lit` and leaves an empty one in its place.
    pub(crate) fn pop_watch_list(&mut self, lit: Lit) -> (list: Watchlist)
        requires
            lit.spec_code() < old(self)@.len(),
        ensures
            list@ == old(self)@[lit.spec_code() as int],
            final(self)@ == old(self)@.update(lit.spec_code() as int, Seq::<Watch>::empty()),
    {
        let mut list = Watchlist::new();
        core::mem::swap(&mut self.lists[lit.code()], &mut list);
        assert(self@ =~= old(self)@.update(lit.spec_code() as int, Seq::<Watch>::empty()));
        list
    }

    /// Puts `watch_list` in the place of the list of `lit`.
    pub(crate) fn set_watch_list(&mut self, lit: Lit, watch_list: Watchlist)
        requires
            lit.spec_code() < old(self)@.len(),
        ensures
            final(self)@ == old(self)@.update(lit.spec_code() as int, watch_list@),
    {
        self.lists[lit.code()] = watch_list;
        assert(self@ =~= old(self)@.update(lit.spec_code() as int, watch_list@));
    }
}

/// `lists` after the first `upto` of the binary clauses `bins` have been
/// watched, one after the other, each on its two literals.
pub open spec fn bins_watched(lists: Seq<Seq<Watch>>, bins: Seq<(Lit, Lit)>, upto: int) -> Seq<
    Seq<Watch>,
>
    decreases upto,
{
    if upto <= 0 {
        lists
    } else {
        watched(
            bins_watched(lists, bins, upto - 1),
            ClauseRef::Binary((upto - 1) as usize),
            bins[upto - 1].0,
            bins[upto - 1].1,
        )
    }
}

/// `lists` after the first `upto` of the long clauses `longs` have been
/// watched, one after the other, each on its first two literals.
pub open spec fn longs_watched(lists: Seq<Seq<Watch>>, longs: Seq<Seq<Lit>>, upto: int) -> Seq<
    Seq<Watch>,
>
    decreases upto,
{
    if upto <= 0 {
        lists
    } else {
        watched(
            longs_watched(lists, longs, upto - 1),
            ClauseRef::Long((upto - 1) as usize),
            longs[upto - 1][0],
            longs[upto - 1][1],
        )
    }
}

/// `lists` after every binary clause and then every long clause has been
/// watched: the clause with index `i` has the watch with the second literal
/// as its blocking literal on the negation of its first literal, and the
/// watch with the first on the negation of the second.
pub open spec fn all_watched(
    lists: Seq<Seq<Watch>>,
    bins: Seq<(Lit, Lit)>,
    longs: Seq<Seq<Lit>>,
) -> Seq<Seq<Watch>> {
    longs_watched(bins_watched(lists, bins, bins.len() as int), longs, longs.len() as int)
}

/// `lists` after a clause has been watched on `first` and `second`.
pub open spec fn watched(
    lists: Seq<Seq<Watch>>,
    clause_ref: ClauseRef,
    first: Lit,
    second: Lit,
) -> Seq<Seq<Watch>> {
    let once = lists.update(
        first.neg().spec_code() as int,
        lists[first.neg().spec_code() as int].push(Watch { cref: clause_ref, blocking: second }),
    );
    once.update(
        second.neg().spec_code() as int,
        once[second.neg().spec_code() as int].push(Watch { cref: clause_ref, blocking: first }),
    )
}

/// Watching a clause on its first two literals keeps the watch lists in
/// order, where no list watches that clause yet.
pub proof fn watch_added(
    bins: Seq<(Lit, Lit)>,
    longs: Seq<Seq<Lit>>,
    n: int,
    lists: Seq<Seq<Watch>>,
    cref: ClauseRef,
    first: Lit,
    second: Lit,
)
    requires
        watches_ok(bins, longs, n, lists),
        first.var() < n,
        second.var() < n,
        first.var() != second.var(),
        match cref {
            ClauseRef::Binary(i) => i < bins.len() && bins[i as int] == (first, second),
            ClauseRef::Long(i) => i < longs.len() && longs[i as int].len() >= 2
                && longs[i as int][0] == first && longs[i as int][1] == second,
        },
        forall|c: int, j: int|
            0 <= c < lists.len() && 0 <= j < lists[c].len() ==> (#[trigger] lists[c][j]).cref
                != cref,
    ensures
        watches_ok(bins, longs, n, watched(lists, cref, first, second)),
        first.neg().spec_code() != second.neg().spec_code(),
        first.neg().spec_code() < 2 * n,
        second.neg().spec_code() < 2 * n,
{
    let after = watched(lists, cref, first, second);
    let c1 = first.neg().spec_code() as int;
    let c2 = second.neg().spec_code() as int;
    assert(lit_of(c1).neg() == first);
    assert(lit_of(c2).neg() == second);
    if let ClauseRef::Long(i) = cref {
        assert(longs[i as int].contains(longs[i as int][0]));
        assert(longs[i as int].contains(longs[i as int][1]));
    }
    assert forall|c: int, j: int| 0 <= c < after.len() && 0 <= j < after[c].len() implies watch_ok(
        bins,
        longs,
        n,
        c,
        #[trigger] after[c][j],
    ) by {
        if j < lists[c].len() {
            assert(after[c][j] == lists[c][j]);
        }
    }
    assert forall|c: int, a: int, b: int|
        0 <= c < after.len() && 0 <= a < b < after[c].len() implies (#[trigger] after[c][a]).cref
        != (#[trigger] after[c][b]).cref by {
        assert(after[c][a] == lists[c][a]);
        if b < lists[c].len() {
            assert(after[c][b] == lists[c][b]);
        }
    }
}

impl Solver {
    /// Watches every binary and every long clause on its first two literals:
    /// the binary clauses first, then the long ones, each kind in the order
    /// in which it is stored, each watch at the end of its list.
    pub(crate) fn generate_watch(&mut self)
        requires
            old(self)@.fresh(),
        ensures
            final(self)@ == (State { watches: final(self)@.watches, ..old(self)@ }),
            watches_ok(
                final(self)@.bins,
                final(self)@.longs,
                final(self)@.vars(),
                final(self)@.watches,
            ),
            watch_complete(final(self)@.bins, final(self)@.longs, final(self)@.watches),
            final(self)@.watches == all_watched(
                old(self)@.watches,
                old(self)@.bins,
                old(self)@.longs,
            ),
            entries(final(self)@.watches) == 2 * (old(self)@.bins.len() + old(self)@.longs.len()),
            final(self).state == old(self).state,
            final(self).default_polarity == old(self).default_polarity,
            final(self).max_lit_index == old(self).max_lit_index,
            final(self).analyze_conflict == old(self).analyze_conflict,
    {
        let ghost n = self@.vars();
        proof {
            entries_of_all(
                self@.units,
                self@.bins,
                self@.longs,
                n,
                self@.watches,
            );
        }
        self.watch_lists.watch_db(&self.clause_db, Ghost(n));
    }
}

} // verus!
