//! Why the search ends: the trail, read as a number, grows with every round.

use crate::state::State;
use vstd::prelude::*;

verus! {

/// The digit of position `k` of a trail of length `len` whose levels begin
/// at `starts`: 0 beyond the trail, 1 for a decision, 2 for an implied
/// literal.
pub open spec fn digit(starts: Seq<usize>, len: int, k: int) -> int {
    if k >= len {
        0
    } else if exists|j: int| 0 <= j < starts.len() && #[trigger] starts[j] == k {
        1
    } else {
        2
    }
}

/// The first `k` digits of the trail, read as a number in base 3.
pub open spec fn trail_value(starts: Seq<usize>, len: int, k: int) -> int
    decreases k,
{
    if k <= 0 {
        0
    } else {
        3 * trail_value(starts, len, k - 1) + digit(starts, len, k - 1)
    }
}

/// The largest number of `k` digits in base 3.
pub open spec fn value_bound(k: int) -> int
    decreases k,
{
    if k <= 0 {
        0
    } else {
        3 * value_bound(k - 1) + 2
    }
}

impl State {
    /// The trail of the state, read as a number.
    pub open spec fn worth(self) -> int {
        trail_value(self.starts, self.trail.len() as int, self.vars())
    }
}

/// No trail is worth more than the bound.
pub proof fn value_bounded(starts: Seq<usize>, len: int, k: int)
    ensures
        0 <= trail_value(starts, len, k) <= value_bound(k),
    decreases k,
{
    if k > 0 {
        value_bounded(starts, len, k - 1);
    }
}

/// Of two trails that agree before position `s`, the one with the larger
/// digit at `s` is worth more, whatever follows.
pub proof fn value_grows(
    starts: Seq<usize>,
    len: int,
    starts2: Seq<usize>,
    len2: int,
    s: int,
    n: int,
)
    requires
        0 <= s < n,
        forall|k: int| 0 <= k < s ==> digit(starts, len, k) == digit(starts2, len2, k),
        digit(starts, len, s) < digit(starts2, len2, s),
    ensures
        trail_value(starts, len, n) < trail_value(starts2, len2, n),
    decreases n,
{
    same_prefix(starts, len, starts2, len2, s);
    if n > s + 1 {
        value_grows(starts, len, starts2, len2, s, n - 1);
    }
}

/// Trails that agree before position `s` are worth the same up to there.
pub proof fn same_prefix(starts: Seq<usize>, len: int, starts2: Seq<usize>, len2: int, s: int)
    requires
        forall|k: int| 0 <= k < s ==> digit(starts, len, k) == digit(starts2, len2, k),
    ensures
        trail_value(starts, len, s) == trail_value(starts2, len2, s),
    decreases s,
{
    if s > 0 {
        same_prefix(starts, len, starts2, len2, s - 1);
    }
}

/// A trail that has only grown is worth no less.
pub proof fn extend_keeps(starts: Seq<usize>, len: int, grown: int, n: int)
    requires
        0 <= len <= grown <= n,
    ensures
        trail_value(starts, len, n) <= trail_value(starts, grown, n),
{
    if len < grown {
        value_grows(starts, len, starts, grown, len, n);
    }
}

/// A decision at the end of a trail that has only grown makes the trail
/// worth more.
pub proof fn decide_grows(starts: Seq<usize>, len: int, grown: int, n: int)
    requires
        forall|j: int| 0 <= j < starts.len() ==> #[trigger] starts[j] < len,
        0 <= len <= grown < n,
        grown <= usize::MAX,
    ensures
        trail_value(starts, len, n) < trail_value(starts.push(grown as usize), grown + 1, n),
{
    let opened = starts.push(grown as usize);
    assert forall|k: int| 0 <= k < len implies digit(starts, len, k) == digit(
        opened,
        grown + 1,
        k,
    ) by {
        if exists|j: int| 0 <= j < starts.len() && #[trigger] starts[j] == k {
            let j = choose|j: int| 0 <= j < starts.len() && #[trigger] starts[j] == k;
            assert(opened[j] == k);
        }
        if exists|j: int| 0 <= j < opened.len() && #[trigger] opened[j] == k {
            let j = choose|j: int| 0 <= j < opened.len() && #[trigger] opened[j] == k;
            assert(j < starts.len());
            assert(starts[j] == k);
        }
    }
    assert(digit(starts, len, len) == 0);
    assert(digit(opened, grown + 1, len) >= 1);
    value_grows(starts, len, opened, grown + 1, len, n);
}

/// Going back to the end of level `back` and putting an implied literal
/// where the decision of the next level stood makes the trail worth more.
pub proof fn learn_grows(starts: Seq<usize>, len: int, back: int, n: int)
    requires
        forall|j: int| 0 <= j < starts.len() ==> #[trigger] starts[j] < len,
        forall|i: int, j: int|
            0 <= i < j < starts.len() ==> #[trigger] starts[i] < #[trigger] starts[j],
        0 <= back < starts.len(),
        len <= n,
    ensures
        trail_value(starts, len, n) < trail_value(starts.take(back), starts[back] + 1, n),
{
    let cut = starts.take(back);
    let s = starts[back] as int;
    assert forall|k: int| 0 <= k < s implies digit(starts, len, k) == digit(cut, s + 1, k) by {
        if exists|j: int| 0 <= j < starts.len() && #[trigger] starts[j] == k {
            let j = choose|j: int| 0 <= j < starts.len() && #[trigger] starts[j] == k;
            if j >= back {
                if j > back {
                    assert(starts[back] < starts[j]);
                }
            }
            assert(cut[j] == k);
        }
        if exists|j: int| 0 <= j < cut.len() && #[trigger] cut[j] == k {
            let j = choose|j: int| 0 <= j < cut.len() && #[trigger] cut[j] == k;
            assert(starts[j] == k);
        }
    }
    assert(digit(starts, len, s) == 1);
    assert(digit(cut, s + 1, s) == 2) by {
        if exists|j: int| 0 <= j < cut.len() && #[trigger] cut[j] == s {
            let j = choose|j: int| 0 <= j < cut.len() && #[trigger] cut[j] == s;
            assert(starts[j] < starts[back]);
        }
    }
    value_grows(starts, len, cut, s + 1, s, n);
}

} // verus!
