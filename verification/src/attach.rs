//! Watching the stored clauses one after the other: what holds of the
//! watch lists after each clause.

use crate::lit::Lit;
use crate::solver::ClauseRef;
use crate::state::{clauses_distinct, db_wf, watches_ok};
use crate::watch::{all_watched, bins_watched, longs_watched, watch_added, watched, Watch};
use crate::watching::{has_watch, watch_complete, watched_has_watch, watched_keeps_watch};
use vstd::prelude::*;

verus! {

/// The lists `lists` are in order and watch the first `b` binary clauses and
/// the first `l` long clauses, and no others.
pub closed spec fn watched_upto(
    bins: Seq<(Lit, Lit)>,
    longs: Seq<Seq<Lit>>,
    n: int,
    lists: Seq<Seq<Watch>>,
    b: int,
    l: int,
) -> bool {
    &&& 0 <= b <= bins.len()
    &&& 0 <= l <= longs.len()
    &&& watches_ok(bins, longs, n, lists)
    &&& forall|t: int|
        0 <= t < b ==> has_watch(
            lists[(#[trigger] bins[t]).0.neg().spec_code() as int],
            ClauseRef::Binary(t as usize),
        ) && has_watch(lists[bins[t].1.neg().spec_code() as int], ClauseRef::Binary(t as usize))
    &&& forall|t: int|
        0 <= t < l ==> has_watch(
            lists[(#[trigger] longs[t])[0].neg().spec_code() as int],
            ClauseRef::Long(t as usize),
        ) && has_watch(lists[longs[t][1].neg().spec_code() as int], ClauseRef::Long(t as usize))
    &&& forall|c: int, j: int|
        0 <= c < lists.len() && 0 <= j < lists[c].len() ==> match (#[trigger] lists[c][j]).cref {
            ClauseRef::Binary(x) => x < b,
            ClauseRef::Long(x) => x < l,
        }
}

/// Empty lists watch no clause.
pub proof fn none_watched(bins: Seq<(Lit, Lit)>, longs: Seq<Seq<Lit>>, n: int, lists: Seq<Seq<Watch>>)
    requires
        lists.len() == 2 * n,
        forall|c: int| 0 <= c < lists.len() ==> (#[trigger] lists[c]).len() == 0,
    ensures
        watched_upto(bins, longs, n, lists, 0, 0),
{
}

/// Lists that watch every clause are in order and complete.
pub proof fn all_watched_ok(
    bins: Seq<(Lit, Lit)>,
    longs: Seq<Seq<Lit>>,
    n: int,
    lists: Seq<Seq<Watch>>,
)
    requires
        watched_upto(bins, longs, n, lists, bins.len() as int, longs.len() as int),
    ensures
        watches_ok(bins, longs, n, lists),
        watch_complete(bins, longs, lists),
{
}

/// The clauses watched so far stay watched when one more clause is.
proof fn others_stay(
    units: Seq<Lit>,
    bins: Seq<(Lit, Lit)>,
    longs: Seq<Seq<Lit>>,
    n: int,
    lists: Seq<Seq<Watch>>,
    b: int,
    l: int,
    cref: ClauseRef,
    first: Lit,
    second: Lit,
)
    requires
        db_wf(units, bins, longs, n),
        watched_upto(bins, longs, n, lists, b, l),
        first.neg().spec_code() < lists.len(),
        second.neg().spec_code() < lists.len(),
    ensures
        forall|t: int|
            0 <= t < b ==> has_watch(
                watched(lists, cref, first, second)[(#[trigger] bins[t]).0.neg().spec_code() as int],
                ClauseRef::Binary(t as usize),
            ) && has_watch(
                watched(lists, cref, first, second)[bins[t].1.neg().spec_code() as int],
                ClauseRef::Binary(t as usize),
            ),
        forall|t: int|
            0 <= t < l ==> has_watch(
                watched(lists, cref, first, second)[(#[trigger] longs[t])[0].neg().spec_code() as int],
                ClauseRef::Long(t as usize),
            ) && has_watch(
                watched(lists, cref, first, second)[longs[t][1].neg().spec_code() as int],
                ClauseRef::Long(t as usize),
            ),
{
    let after = watched(lists, cref, first, second);
    assert forall|t: int| 0 <= t < b implies has_watch(
        after[(#[trigger] bins[t]).0.neg().spec_code() as int],
        ClauseRef::Binary(t as usize),
    ) && has_watch(after[bins[t].1.neg().spec_code() as int], ClauseRef::Binary(t as usize)) by {
        let pair = bins[t];
        assert(pair.0.var() < n && pair.1.var() < n);
        watched_keeps_watch(
            lists,
            cref,
            first,
            second,
            pair.0.neg().spec_code() as int,
            ClauseRef::Binary(t as usize),
        );
        watched_keeps_watch(
            lists,
            cref,
            first,
            second,
            pair.1.neg().spec_code() as int,
            ClauseRef::Binary(t as usize),
        );
    }
    assert forall|t: int| 0 <= t < l implies has_watch(
        after[(#[trigger] longs[t])[0].neg().spec_code() as int],
        ClauseRef::Long(t as usize),
    ) && has_watch(after[longs[t][1].neg().spec_code() as int], ClauseRef::Long(t as usize)) by {
        let clause = longs[t];
        assert(clause[0].var() < n && clause[1].var() < n);
        watched_keeps_watch(
            lists,
            cref,
            first,
            second,
            clause[0].neg().spec_code() as int,
            ClauseRef::Long(t as usize),
        );
        watched_keeps_watch(
            lists,
            cref,
            first,
            second,
            clause[1].neg().spec_code() as int,
            ClauseRef::Long(t as usize),
        );
    }
}

/// The watches of the lists after one more clause is watched are those of
/// before and the two of that clause.
proof fn watches_after(lists: Seq<Seq<Watch>>, cref: ClauseRef, first: Lit, second: Lit)
    requires
        first.neg().spec_code() < lists.len(),
        second.neg().spec_code() < lists.len(),
    ensures
        watched(lists, cref, first, second).len() == lists.len(),
        forall|c: int, j: int|
            0 <= c < lists.len() && 0 <= j < watched(lists, cref, first, second)[c].len() ==> (
            #[trigger] watched(lists, cref, first, second)[c][j]).cref == cref || (j
                < lists[c].len() && watched(lists, cref, first, second)[c][j] == lists[c][j]),
{
    let c1 = first.neg().spec_code() as int;
    let c2 = second.neg().spec_code() as int;
    let once = lists.update(c1, lists[c1].push(Watch { cref, blocking: second }));
    let after = watched(lists, cref, first, second);
    assert(after == once.update(c2, once[c2].push(Watch { cref, blocking: first })));
    assert forall|c: int, j: int| 0 <= c < lists.len() && 0 <= j < after[c].len() implies (
    #[trigger] after[c][j]).cref == cref || (j < lists[c].len() && after[c][j] == lists[c][j]) by {
        if c == c2 {
            if j < once[c].len() {
                assert(after[c][j] == once[c][j]);
            }
        } else {
            assert(after[c] == once[c]);
        }
    }
}

/// Watching the next binary clause.
pub proof fn bin_watched(
    units: Seq<Lit>,
    bins: Seq<(Lit, Lit)>,
    longs: Seq<Seq<Lit>>,
    n: int,
    lists: Seq<Seq<Watch>>,
    b: int,
)
    requires
        db_wf(units, bins, longs, n),
        clauses_distinct(bins, longs),
        watched_upto(bins, longs, n, lists, b, 0),
        b < bins.len(),
        b <= usize::MAX,
    ensures
        watched_upto(
            bins,
            longs,
            n,
            watched(lists, ClauseRef::Binary(b as usize), bins[b].0, bins[b].1),
            b + 1,
            0,
        ),
        bins[b].0.var() * 2 + 1 < lists.len(),
        bins[b].1.var() * 2 + 1 < lists.len(),
{
    let cref = ClauseRef::Binary(b as usize);
    let first = bins[b].0;
    let second = bins[b].1;
    assert(first.var() < n && second.var() < n);
    assert forall|c: int, j: int| 0 <= c < lists.len() && 0 <= j < lists[c].len() implies (
    #[trigger] lists[c][j]).cref != cref by {}
    watch_added(bins, longs, n, lists, cref, first, second);
    watched_has_watch(lists, cref, first, second);
    others_stay(units, bins, longs, n, lists, b, 0, cref, first, second);
    watches_after(lists, cref, first, second);
}

/// Watching the next long clause, once every binary clause is watched.
pub proof fn long_watched(
    units: Seq<Lit>,
    bins: Seq<(Lit, Lit)>,
    longs: Seq<Seq<Lit>>,
    n: int,
    lists: Seq<Seq<Watch>>,
    l: int,
)
    requires
        db_wf(units, bins, longs, n),
        clauses_distinct(bins, longs),
        watched_upto(bins, longs, n, lists, bins.len() as int, l),
        l < longs.len(),
        l <= usize::MAX,
    ensures
        watched_upto(
            bins,
            longs,
            n,
            watched(lists, ClauseRef::Long(l as usize), longs[l][0], longs[l][1]),
            bins.len() as int,
            l + 1,
        ),
        longs[l].len() >= 3,
        longs[l][0].var() * 2 + 1 < lists.len(),
        longs[l][1].var() * 2 + 1 < lists.len(),
{
    let cref = ClauseRef::Long(l as usize);
    let first = longs[l][0];
    let second = longs[l][1];
    assert(longs[l].len() >= 3);
    assert(first.var() < n && second.var() < n);
    assert(first.var() != second.var());
    assert forall|c: int, j: int| 0 <= c < lists.len() && 0 <= j < lists[c].len() implies (
    #[trigger] lists[c][j]).cref != cref by {}
    watch_added(bins, longs, n, lists, cref, first, second);
    watched_has_watch(lists, cref, first, second);
    others_stay(units, bins, longs, n, lists, bins.len() as int, l, cref, first, second);
    watches_after(lists, cref, first, second);
}

/// The number of watches in all the lists together.
pub open spec fn entries(lists: Seq<Seq<Watch>>) -> int
    decreases lists.len(),
{
    if lists.len() == 0 {
        0
    } else {
        entries(lists.drop_last()) + lists.last().len()
    }
}

/// Empty lists hold no watch.
pub proof fn entries_of_empty(lists: Seq<Seq<Watch>>)
    requires
        forall|c: int| 0 <= c < lists.len() ==> (#[trigger] lists[c]).len() == 0,
    ensures
        entries(lists) == 0,
    decreases lists.len(),
{
    if lists.len() > 0 {
        entries_of_empty(lists.drop_last());
    }
}

/// A list put in the place of another changes the number of watches by the
/// difference of their lengths.
pub proof fn entries_of_update(lists: Seq<Seq<Watch>>, c: int, list: Seq<Watch>)
    requires
        0 <= c < lists.len(),
    ensures
        entries(lists.update(c, list)) == entries(lists) - lists[c].len() + list.len(),
    decreases lists.len(),
{
    let after = lists.update(c, list);
    if c == lists.len() - 1 {
        assert(after.drop_last() =~= lists.drop_last());
    } else {
        entries_of_update(lists.drop_last(), c, list);
        assert(after.drop_last() =~= lists.drop_last().update(c, list));
    }
}

/// Watching a clause adds two watches.
pub proof fn entries_of_watched(lists: Seq<Seq<Watch>>, cref: ClauseRef, first: Lit, second: Lit)
    requires
        first.neg().spec_code() < lists.len(),
        second.neg().spec_code() < lists.len(),
    ensures
        entries(watched(lists, cref, first, second)) == entries(lists) + 2,
        watched(lists, cref, first, second).len() == lists.len(),
{
    let c1 = first.neg().spec_code() as int;
    let c2 = second.neg().spec_code() as int;
    let once = lists.update(c1, lists[c1].push(Watch { cref, blocking: second }));
    entries_of_update(lists, c1, lists[c1].push(Watch { cref, blocking: second }));
    entries_of_update(once, c2, once[c2].push(Watch { cref, blocking: first }));
}

/// Watching the first `upto` binary clauses adds two watches for each.
pub proof fn entries_of_bins(
    units: Seq<Lit>,
    bins: Seq<(Lit, Lit)>,
    longs: Seq<Seq<Lit>>,
    n: int,
    lists: Seq<Seq<Watch>>,
    upto: int,
)
    requires
        db_wf(units, bins, longs, n),
        lists.len() == 2 * n,
        0 <= upto <= bins.len(),
    ensures
        entries(bins_watched(lists, bins, upto)) == entries(lists) + 2 * upto,
        bins_watched(lists, bins, upto).len() == lists.len(),
    decreases upto,
{
    if upto > 0 {
        entries_of_bins(units, bins, longs, n, lists, upto - 1);
        let pair = bins[upto - 1];
        assert(pair.0.var() < n && pair.1.var() < n);
        pair.0.neg_flips();
        pair.1.neg_flips();
        entries_of_watched(
            bins_watched(lists, bins, upto - 1),
            ClauseRef::Binary((upto - 1) as usize),
            pair.0,
            pair.1,
        );
    }
}

/// Watching the first `upto` long clauses adds two watches for each.
pub proof fn entries_of_longs(
    units: Seq<Lit>,
    bins: Seq<(Lit, Lit)>,
    longs: Seq<Seq<Lit>>,
    n: int,
    lists: Seq<Seq<Watch>>,
    upto: int,
)
    requires
        db_wf(units, bins, longs, n),
        lists.len() == 2 * n,
        0 <= upto <= longs.len(),
    ensures
        entries(longs_watched(lists, longs, upto)) == entries(lists) + 2 * upto,
        longs_watched(lists, longs, upto).len() == lists.len(),
    decreases upto,
{
    if upto > 0 {
        entries_of_longs(units, bins, longs, n, lists, upto - 1);
        let clause = longs[upto - 1];
        assert(clause.len() >= 3);
        assert(clause[0].var() < n && clause[1].var() < n);
        clause[0].neg_flips();
        clause[1].neg_flips();
        entries_of_watched(
            longs_watched(lists, longs, upto - 1),
            ClauseRef::Long((upto - 1) as usize),
            clause[0],
            clause[1],
        );
    }
}

/// With every clause watched from empty lists, there are two watches for
/// each binary and each long clause, and none for a unit clause.
pub proof fn entries_of_all(
    units: Seq<Lit>,
    bins: Seq<(Lit, Lit)>,
    longs: Seq<Seq<Lit>>,
    n: int,
    lists: Seq<Seq<Watch>>,
)
    requires
        db_wf(units, bins, longs, n),
        lists.len() == 2 * n,
        forall|c: int| 0 <= c < lists.len() ==> (#[trigger] lists[c]).len() == 0,
    ensures
        entries(all_watched(lists, bins, longs)) == 2 * (bins.len() + longs.len()),
{
    entries_of_empty(lists);
    entries_of_bins(units, bins, longs, n, lists, bins.len() as int);
    entries_of_longs(
        units,
        bins,
        longs,
        n,
        bins_watched(lists, bins, bins.len() as int),
        longs.len() as int,
    );
}

} // verus!
