//! A formula in conjunctive normal form: the clauses handed to the solver.

use crate::lit::Lit;
use core::ops::Not;
use std::collections::HashSet;
use vstd::prelude::*;

verus! {

/// Whether some literal of `clause` occurs together with its negation.
pub open spec fn tautology(clause: Seq<Lit>) -> bool {
    exists|i: int, j: int|
        #![trigger clause[i], clause[j]]
        0 <= i < clause.len() && 0 <= j < clause.len() && clause[i] == clause[j].neg()
}

/// `clause` with every repeated occurrence of a literal removed; the first
/// occurrences keep their order.
pub open spec fn dedup(clause: Seq<Lit>) -> Seq<Lit>
    decreases clause.len(),
{
    if clause.len() == 0 {
        Seq::empty()
    } else if clause.drop_last().contains(clause.last()) {
        dedup(clause.drop_last())
    } else {
        dedup(clause.drop_last()).push(clause.last())
    }
}

/// The largest of `floor` and the variable indices of `clause`.
pub open spec fn max_var(clause: Seq<Lit>, floor: int) -> int
    decreases clause.len(),
{
    if clause.len() == 0 {
        floor
    } else if clause.last().var() > max_var(clause.drop_last(), floor) {
        clause.last().var()
    } else {
        max_var(clause.drop_last(), floor)
    }
}

/// No two literals of `clause` share a variable.
pub open spec fn distinct_vars(clause: Seq<Lit>) -> bool {
    forall|a: int, b: int|
        #![trigger clause[a], clause[b]]
        0 <= a < b < clause.len() ==> clause[a].var() != clause[b].var()
}

/// The literals that the numbers of `numbers` other than 0 stand for, in
/// order.
pub open spec fn lits_of_numbers(numbers: Seq<isize>) -> Seq<Lit>
    decreases numbers.len(),
{
    if numbers.len() == 0 {
        Seq::empty()
    } else if numbers.last() == 0 {
        lits_of_numbers(numbers.drop_last())
    } else {
        lits_of_numbers(numbers.drop_last()).push(Lit::of_number(numbers.last() as int))
    }
}

/// Every number of `numbers` other than 0 names a variable that a literal
/// can carry.
pub open spec fn numbers_in_range(numbers: Seq<isize>) -> bool {
    forall|i: int|
        0 <= i < numbers.len() ==> -Lit::max_index() - 1 <= #[trigger] numbers[i] <= Lit::max_index()
            + 1
}

/// The clauses of a formula, in the order in which they were added. Each
/// stored clause is free of repeated literals and of complementary pairs.
pub struct CnfFormula {
    pub(crate) max_lit_index: usize,
    pub(crate) clauses: Vec<Vec<Lit>>,
}

impl View for CnfFormula {
    type V = Seq<Seq<Lit>>;

    open(crate) spec fn view(&self) -> Seq<Seq<Lit>> {
        Seq::new(self.clauses@.len(), |i: int| self.clauses@[i]@)
    }
}

impl CnfFormula {
    /// The largest variable index among the stored literals, 0 for a formula
    /// without literals.
    pub open(crate) spec fn max_index(&self) -> int {
        self.max_lit_index as int
    }

    #[verifier::type_invariant]
    pub open(crate) spec fn well_formed(&self) -> bool {
        &&& self.max_lit_index <= Lit::max_index()
        &&& forall|i: int, j: int|
            #![trigger self.clauses@[i]@[j]]
            0 <= i < self.clauses@.len() && 0 <= j < self.clauses@[i]@.len()
                ==> self.clauses@[i]@[j].var() <= self.max_lit_index
        &&& forall|i: int|
            #![trigger self.clauses@[i]]
            0 <= i < self.clauses@.len() ==> distinct_vars(self.clauses@[i]@)
    }

    /// A formula without clauses.
    pub fn new() -> (formula: CnfFormula)
        ensures
            formula@ == Seq::<Seq<Lit>>::empty(),
            formula.max_index() == 0,
    {
        CnfFormula { max_lit_index: 0, clauses: Vec::new() }
    }

    /// The clauses in insertion order, each as its literals in order.
    pub fn iter(&self) -> (clauses: Vec<Vec<Lit>>)
        ensures
            clauses@.len() == self@.len(),
            forall|i: int| 0 <= i < self@.len() ==> #[trigger] clauses@[i]@ == self@[i],
    {
        let mut out: Vec<Vec<Lit>> = Vec::new();
        let mut i: usize = 0;
        while i < self.clauses.len()
            invariant
                i <= self.clauses.len(),
                out@.len() == i,
                forall|k: int| 0 <= k < i ==> #[trigger] out@[k]@ == self.clauses@[k]@,
            decreases self.clauses.len() - i,
        {
            out.push(vstd::slice::slice_to_vec(self.clauses[i].as_slice()));
            i += 1;
        }
        out
    }

    /// Adds `clause` with its repeated literals removed, unless it holds a
    /// literal together with its negation: such a clause is always true and
    /// is dropped.
    pub fn add_clause(&mut self, clause: &[Lit])
        ensures
            tautology(clause@) ==> final(self)@ == old(self)@,
            tautology(clause@) ==> final(self).max_index() == old(self).max_index(),
            !tautology(clause@) ==> final(self)@ == old(self)@.push(dedup(clause@)),
            !tautology(clause@) ==> final(self).max_index() == max_var(
                clause@,
                old(self).max_index(),
            ),
    {
        proof {
            use_type_invariant(&*self);
        }
        if let Some(checked) = Self::check_clause(clause) {
            let mut max: usize = self.max_lit_index;
            let mut i: usize = 0;
            while i < checked.len()
                invariant
                    i <= checked.len(),
                    max == max_var(checked@.take(i as int), self.max_lit_index as int),
                    self.max_lit_index <= max <= Lit::max_index(),
                    forall|k: int| 0 <= k < i ==> checked@[k].var() <= max,
                decreases checked.len() - i,
            {
                let index = checked[i].index();
                proof {
                    assert(checked@.take(i + 1).drop_last() == checked@.take(i as int));
                }
                if index > max {
                    max = index;
                }
                i += 1;
            }
            proof {
                assert(checked@.take(checked@.len() as int) == checked@);
                max_var_of_dedup(clause@, self.max_lit_index as int);
            }
            let ghost before = self@;
            let mut clauses: Vec<Vec<Lit>> = Vec::new();
            core::mem::swap(&mut self.clauses, &mut clauses);
            clauses.push(checked);
            self.max_lit_index = max;
            self.clauses = clauses;
            assert(self@ == before.push(dedup(clause@)));
        }
    }

    /// Adds the clause that a line of signed numbers stands for: every
    /// number other than 0 is a literal, a variable by its one-based number
    /// and negated where the number is negative.
    pub fn add_numbers(&mut self, numbers: &[isize])
        requires
            numbers_in_range(numbers@),
        ensures
            tautology(lits_of_numbers(numbers@)) ==> final(self)@ == old(self)@,
            tautology(lits_of_numbers(numbers@)) ==> final(self).max_index()
                == old(self).max_index(),
            !tautology(lits_of_numbers(numbers@)) ==> final(self)@ == old(self)@.push(
                dedup(lits_of_numbers(numbers@)),
            ),
            !tautology(lits_of_numbers(numbers@)) ==> final(self).max_index() == max_var(
                lits_of_numbers(numbers@),
                old(self).max_index(),
            ),
    {
        let mut clause: Vec<Lit> = Vec::new();
        let mut i: usize = 0;
        while i < numbers.len()
            invariant
                i <= numbers.len(),
                numbers_in_range(numbers@),
                clause@ == lits_of_numbers(numbers@.take(i as int)),
            decreases numbers.len() - i,
        {
            let number = numbers[i];
            proof {
                assert(numbers@.take(i + 1).drop_last() == numbers@.take(i as int));
                assert(numbers@.take(i + 1).last() == number);
            }
            if number > 0 {
                clause.push(Lit::from_dimacs(number as usize, true));
            } else if number < 0 {
                clause.push(Lit::from_dimacs((0 - number) as usize, false));
            }
            i += 1;
        }
        proof {
            assert(numbers@.take(numbers@.len() as int) == numbers@);
        }
        self.add_clause(clause.as_slice());
    }

    /// The literals of `clause` without repetitions, or `None` where the
    /// clause holds a literal together with its negation.
    pub fn check_clause(clause: &[Lit]) -> (checked: Option<Vec<Lit>>)
        ensures
            checked is None <==> tautology(clause@),
            checked matches Some(literals) ==> literals@ == dedup(clause@) && distinct_vars(
                literals@,
            ),
    {
        broadcast use vstd::std_specs::hash::group_hash_axioms;

        let mut check: HashSet<usize> = HashSet::new();
        let mut res: Vec<Lit> = Vec::new();
        let mut i: usize = 0;
        while i < clause.len()
            invariant
                i <= clause.len(),
                forall|x: Lit|
                    #![trigger res@.contains(x)]
                    #![trigger check@.contains(x.spec_code())]
                    check@.contains(x.spec_code()) <==> res@.contains(x),
                res@ == dedup(clause@.take(i as int)),
                distinct_vars(res@),
                forall|x: Lit|
                    #![trigger res@.contains(x)]
                    #![trigger clause@.take(i as int).contains(x)]
                    res@.contains(x) <==> clause@.take(i as int).contains(x),
                forall|a: int, b: int|
                    #![trigger clause@[a], clause@[b]]
                    0 <= a < i && 0 <= b < i ==> clause@[a] != clause@[b].neg(),
            decreases clause.len() - i,
        {
            let ele = clause[i];
            let ghost front = clause@.take(i as int);
            proof {
                assert(clause@.take(i + 1).drop_last() == front);
                assert(clause@.take(i + 1).last() == ele);
            }
            if check.contains(&ele.not().code()) {
                proof {
                    assert(res@.contains(ele.neg()));
                }
                proof {
                    let a = choose|a: int| 0 <= a < front.len() && front[a] == ele.neg();
                    assert(clause@[a] == clause@[i as int].neg());
                }
                return None;
            }
            let ghost old_res = res@;
            let ghost old_check = check@;
            proof {
                assert(!res@.contains(ele.neg()));
            }
            if !check.contains(&ele.code()) {
                proof {
                    assert(!res@.contains(ele));
                    assert forall|a: int| 0 <= a < res@.len() implies res@[a].var() != ele.var() by {
                        assert(res@.contains(res@[a]));
                    }
                }
                check.insert(ele.code());
                res.push(ele);
                proof {
                    assert forall|x: Lit|
                        #![trigger res@.contains(x)]
                        #![trigger check@.contains(x.spec_code())]
                        check@.contains(x.spec_code()) <==> res@.contains(x) by {
                        if x == ele {
                            assert(res@[old_res.len() as int] == x);
                        } else {
                            assert(x.spec_code() != ele.spec_code());
                            if old_res.contains(x) {
                                let m = choose|m: int| 0 <= m < old_res.len() && old_res[m] == x;
                                assert(res@[m] == x);
                            }
                            if res@.contains(x) {
                                let m = choose|m: int| 0 <= m < res@.len() && res@[m] == x;
                                assert(old_res[m] == x);
                            }
                        }
                    }
                }
            } else {
                proof {
                    assert(res@.contains(ele));
                }
            }
            proof {
                let next = clause@.take(i + 1);
                assert forall|x: Lit| res@.contains(x) <==> next.contains(x) by {
                    if next.contains(x) {
                        let k = choose|k: int| 0 <= k < next.len() && next[k] == x;
                        if k < i {
                            assert(front[k] == x);
                            assert(front.contains(x));
                            assert(old_res.contains(x));
                            let m = choose|m: int| 0 <= m < old_res.len() && old_res[m] == x;
                            assert(res@[m] == x);
                        } else if old_res.contains(ele) {
                            let m = choose|m: int| 0 <= m < old_res.len() && old_res[m] == ele;
                            assert(res@[m] == x);
                        } else {
                            assert(res@[old_res.len() as int] == x);
                        }
                    }
                    if res@.contains(x) {
                        let k = choose|k: int| 0 <= k < res@.len() && res@[k] == x;
                        if k < old_res.len() {
                            assert(old_res[k] == x);
                            assert(old_res.contains(x));
                            let m = choose|m: int| 0 <= m < front.len() && front[m] == x;
                            assert(next[m] == x);
                        } else {
                            assert(next[i as int] == x);
                        }
                    }
                }
                assert forall|a: int, b: int|
                    #![trigger clause@[a], clause@[b]]
                    0 <= a < i + 1 && 0 <= b < i + 1 implies clause@[a] != clause@[b].neg() by {
                    if a == i && b < i {
                        assert(front[b] == clause@[b]);
                        assert(front.contains(clause@[b]));
                        assert(clause@[b] != ele.neg());
                    }
                    if b == i && a < i {
                        assert(front[a] == clause@[a]);
                        assert(front.contains(clause@[a]));
                    }
                }
            }
            i += 1;
        }
        proof {
            assert(clause@.take(clause@.len() as int) == clause@);
        }
        Some(res)
    }

    /// The largest variable index among the stored literals.
    pub(crate) fn get_max_lit_index(&self) -> (max: usize)
        ensures
            max == self.max_index(),
            max <= Lit::max_index(),
    {
        proof {
            use_type_invariant(self);
        }
        self.max_lit_index
    }
}

impl Default for CnfFormula {
    fn default() -> (formula: CnfFormula)
        ensures
            formula@ == Seq::<Seq<Lit>>::empty(),
            formula.max_index() == 0,
    {
        CnfFormula::new()
    }
}

/// Removing repetitions does not change the largest variable index.
pub proof fn max_var_of_dedup(clause: Seq<Lit>, floor: int)
    ensures
        max_var(dedup(clause), floor) == max_var(clause, floor),
        forall|k: int| 0 <= k < clause.len() ==> clause[k].var() <= max_var(clause, floor),
        floor <= max_var(clause, floor),
    decreases clause.len(),
{
    if clause.len() > 0 {
        let front = clause.drop_last();
        max_var_of_dedup(front, floor);
        if front.contains(clause.last()) {
            let k = choose|k: int| 0 <= k < front.len() && front[k] == clause.last();
            assert(front[k].var() <= max_var(front, floor));
        } else {
            assert(dedup(clause).drop_last() == dedup(front));
        }
        assert forall|k: int| 0 <= k < clause.len() implies clause[k].var() <= max_var(
            clause,
            floor,
        ) by {
            if k < front.len() {
                assert(front[k] == clause[k]);
            }
        }
    }
}

} // verus!
