//! The clause database: unit, binary and long clauses, each kind in its own
//! collection.

use crate::cnf::CnfFormula;
use crate::lit::Lit;
use crate::solver::ClauseRef;
use vstd::prelude::*;

verus! {

/// The literals of the one-literal clauses among `clauses`, in order.
pub open spec fn units_of(clauses: Seq<Seq<Lit>>) -> Seq<Lit>
    decreases clauses.len(),
{
    if clauses.len() == 0 {
        Seq::empty()
    } else if clauses.last().len() == 1 {
        units_of(clauses.drop_last()).push(clauses.last()[0])
    } else {
        units_of(clauses.drop_last())
    }
}

/// The two-literal clauses among `clauses`, in order, each as a pair.
pub open spec fn bins_of(clauses: Seq<Seq<Lit>>) -> Seq<(Lit, Lit)>
    decreases clauses.len(),
{
    if clauses.len() == 0 {
        Seq::empty()
    } else if clauses.last().len() == 2 {
        bins_of(clauses.drop_last()).push((clauses.last()[0], clauses.last()[1]))
    } else {
        bins_of(clauses.drop_last())
    }
}

/// The clauses of three or more literals among `clauses`, in order.
pub open spec fn longs_of(clauses: Seq<Seq<Lit>>) -> Seq<Seq<Lit>>
    decreases clauses.len(),
{
    if clauses.len() == 0 {
        Seq::empty()
    } else if clauses.last().len() >= 3 {
        longs_of(clauses.drop_last()).push(clauses.last())
    } else {
        longs_of(clauses.drop_last())
    }
}

/// `clause` with the literals at positions `a` and `b` exchanged.
pub open spec fn swapped(clause: Seq<Lit>, a: int, b: int) -> Seq<Lit> {
    clause.update(a, clause[b]).update(b, clause[a])
}

/// Clauses by arity. A unit clause is a bare literal, a binary clause a pair,
/// and a long clause a sequence whose first two literals are the watched ones.
pub struct ClauseDb {
    pub(crate) assign_clauses: Vec<Lit>,
    pub(crate) binary_clauses: Vec<(Lit, Lit)>,
    pub(crate) long_clauses: Vec<Vec<Lit>>,
}

impl ClauseDb {
    /// The unit clauses, in insertion order.
    pub open(crate) spec fn units(&self) -> Seq<Lit> {
        self.assign_clauses@
    }

    /// The binary clauses, in insertion order.
    pub open(crate) spec fn bins(&self) -> Seq<(Lit, Lit)> {
        self.binary_clauses@
    }

    /// The long clauses, in insertion order.
    pub open(crate) spec fn longs(&self) -> Seq<Seq<Lit>> {
        Seq::new(self.long_clauses@.len(), |i: int| self.long_clauses@[i]@)
    }

    /// A database without clauses.
    pub(crate) fn new() -> (db: ClauseDb)
        ensures
            db.units() == Seq::<Lit>::empty(),
            db.bins() == Seq::<(Lit, Lit)>::empty(),
            db.longs() == Seq::<Seq<Lit>>::empty(),
    {
        let db = ClauseDb {
            assign_clauses: Vec::new(),
            binary_clauses: Vec::new(),
            long_clauses: Vec::new(),
        };
        assert(db.longs() == Seq::<Seq<Lit>>::empty());
        db
    }

    /// Stores every clause of `formula`, each with the clauses of its arity.
    /// A clause without literals is not stored.
    pub(crate) fn add_formula(&mut self, formula: &CnfFormula)
        ensures
            final(self).units() == old(self).units() + units_of(formula@),
            final(self).bins() == old(self).bins() + bins_of(formula@),
            final(self).longs() == old(self).longs() + longs_of(formula@),
    {
        let mut i: usize = 0;
        while i < formula.clauses.len()
            invariant
                i <= formula.clauses.len(),
                self.units() == old(self).units() + units_of(formula@.take(i as int)),
                self.bins() == old(self).bins() + bins_of(formula@.take(i as int)),
                self.longs() == old(self).longs() + longs_of(formula@.take(i as int)),
            decreases formula.clauses.len() - i,
        {
            proof {
                assert(formula@.take(i + 1).drop_last() == formula@.take(i as int));
                assert(formula@.take(i + 1).last() == formula.clauses@[i as int]@);
            }
            self.add_clause(formula.clauses[i].as_slice());
            i += 1;
        }
        proof {
            assert(formula@.take(formula@.len() as int) == formula@);
        }
    }

    /// Exchanges the literals at positions `a` and `b` of the long clause
    /// `index`.
    pub(crate) fn swap_long(&mut self, index: usize, a: usize, b: usize)
        requires
            index < old(self).longs().len(),
            a < old(self).longs()[index as int].len(),
            b < old(self).longs()[index as int].len(),
        ensures
            final(self).units() == old(self).units(),
            final(self).bins() == old(self).bins(),
            final(self).longs() == old(self).longs().update(
                index as int,
                swapped(old(self).longs()[index as int], a as int, b as int),
            ),
    {
        let first = self.long_clauses[index][a];
        let second = self.long_clauses[index][b];
        let clause = &mut self.long_clauses[index];
        clause[a] = second;
        clause[b] = first;
        assert(self.longs() =~= old(self).longs().update(
            index as int,
            swapped(old(self).longs()[index as int], a as int, b as int),
        ));
    }

    /// The literal at position `at` of the long clause `index`.
    pub(crate) fn long_lit(&self, index: usize, at: usize) -> (lit: Lit)
        requires
            index < self.longs().len(),
            at < self.longs()[index as int].len(),
        ensures
            lit == self.longs()[index as int][at as int],
    {
        self.long_clauses[index][at]
    }

    /// A copy of the literals of the long clause `index`.
    pub(crate) fn long_copy(&self, index: usize) -> (lits: Vec<Lit>)
        requires
            index < self.longs().len(),
        ensures
            lits@ == self.longs()[index as int],
    {
        vstd::slice::slice_to_vec(self.long_clauses[index].as_slice())
    }

    /// The number of literals of the long clause `index`.
    pub(crate) fn long_len(&self, index: usize) -> (len: usize)
        requires
            index < self.longs().len(),
        ensures
            len == self.longs()[index as int].len(),
    {
        self.long_clauses[index].len()
    }

    /// Stores `clause` with the clauses of its arity, and returns a reference
    /// to it where it is binary or long.
    pub(crate) fn add_clause(&mut self, clause: &[Lit]) -> (cref: Option<ClauseRef>)
        ensures
            final(self).units() == if clause@.len() == 1 {
                old(self).units().push(clause@[0])
            } else {
                old(self).units()
            },
            final(self).bins() == if clause@.len() == 2 {
                old(self).bins().push((clause@[0], clause@[1]))
            } else {
                old(self).bins()
            },
            final(self).longs() == if clause@.len() >= 3 {
                old(self).longs().push(clause@)
            } else {
                old(self).longs()
            },
            cref == if clause@.len() == 2 {
                Some(ClauseRef::Binary(old(self).bins().len() as usize))
            } else if clause@.len() >= 3 {
                Some(ClauseRef::Long(old(self).longs().len() as usize))
            } else {
                None
            },
    {
        let ghost longs = self.longs();
        if clause.len() == 0 {
            assert(self.longs() == longs);
            None
        } else if clause.len() == 1 {
            self.assign_clauses.push(clause[0]);
            assert(self.longs() == longs);
            None
        } else if clause.len() == 2 {
            self.binary_clauses.push((clause[0], clause[1]));
            assert(self.longs() == longs);
            Some(ClauseRef::Binary(self.binary_clauses.len() - 1))
        } else {
            self.long_clauses.push(vstd::slice::slice_to_vec(clause));
            assert(self.longs() == longs.push(clause@));
            Some(ClauseRef::Long(self.long_clauses.len() - 1))
        }
    }
}

} // verus!
