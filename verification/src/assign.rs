//! The assignment table: the current partial truth assignment.

use crate::lit::Lit;
use vstd::prelude::*;

verus! {

/// For each variable its truth value, or `None` while it is unassigned.
pub struct Assignment {
    pub(crate) assignment: Vec<Option<bool>>,
}

impl View for Assignment {
    type V = Seq<Option<bool>>;

    open(crate) spec fn view(&self) -> Seq<Option<bool>> {
        self.assignment@
    }
}

impl Assignment {
    /// A table without variables.
    pub(crate) fn new() -> (table: Assignment)
        ensures
            table@ == Seq::<Option<bool>>::empty(),
    {
        Assignment { assignment: Vec::new() }
    }

    /// Makes `lit` true.
    pub(crate) fn assign(&mut self, lit: &Lit)
        requires
            lit.var() < old(self)@.len(),
        ensures
            final(self)@ == old(self)@.update(lit.var(), Some(lit.positive())),
    {
        self.assignment[lit.index()] = Some(lit.is_positive());
    }

    /// Leaves the variable of `lit` without a value.
    pub(crate) fn unassign(&mut self, lit: &Lit)
        requires
            lit.var() < old(self)@.len(),
        ensures
            final(self)@ == old(self)@.update(lit.var(), None),
    {
        self.assignment[lit.index()] = None;
    }

    /// Leaves without a value the variable of every literal of `lits` from
    /// position `from` on.
    pub(crate) fn unassign_from(&mut self, lits: &Vec<Lit>, from: usize)
        requires
            from <= lits.len(),
            forall|k: int| from <= k < lits.len() ==> (#[trigger] lits@[k]).var() < old(self)@.len(),
        ensures
            final(self)@.len() == old(self)@.len(),
            forall|v: int|
                0 <= v < old(self)@.len() ==> #[trigger] final(self)@[v] == if dropped(
                    lits@,
                    from as int,
                    lits@.len() as int,
                    v,
                ) {
                    None
                } else {
                    old(self)@[v]
                },
    {
        let mut i: usize = from;
        while i < lits.len()
            invariant
                from <= i <= lits.len(),
                self@.len() == old(self)@.len(),
                forall|k: int|
                    from <= k < lits.len() ==> (#[trigger] lits@[k]).var() < old(self)@.len(),
                forall|v: int|
                    0 <= v < old(self)@.len() ==> #[trigger] self@[v] == if dropped(
                        lits@,
                        from as int,
                        i as int,
                        v,
                    ) {
                        None
                    } else {
                        old(self)@[v]
                    },
            decreases lits.len() - i,
        {
            let lit = lits[i];
            let ghost before = self@;
            self.unassign(&lit);
            proof {
                assert forall|v: int| 0 <= v < old(self)@.len() implies #[trigger] self@[v]
                    == if dropped(lits@, from as int, i + 1, v) {
                    None
                } else {
                    old(self)@[v]
                } by {
                    if dropped(lits@, from as int, i as int, v) {
                        let k = choose|k: int| from <= k < i && lits@[k].var() == v;
                        assert(from <= k < i + 1 && lits@[k].var() == v);
                    }
                    if v == lit.var() {
                        assert(from <= i < i + 1 && lits@[i as int].var() == v);
                    }
                }
            }
            i += 1;
        }
    }

    /// Grows the table to `var_count` unassigned variables, or cuts it down
    /// to its first `var_count` variables.
    pub(crate) fn resize(&mut self, var_count: usize)
        ensures
            final(self)@.len() == var_count,
            forall|v: int|
                0 <= v < var_count ==> final(self)@[v] == if v < old(self)@.len() {
                    old(self)@[v]
                } else {
                    None
                },
    {
        self.assignment.truncate(var_count);
        while self.assignment.len() < var_count
            invariant
                self.assignment@.len() <= var_count,
                old(self)@.len() <= self.assignment@.len() || self.assignment@.len() == var_count,
                forall|v: int|
                    0 <= v < self.assignment@.len() ==> self.assignment@[v] == if v < old(
                        self,
                    )@.len() {
                        old(self)@[v]
                    } else {
                        None
                    },
            decreases var_count - self.assignment.len(),
        {
            self.assignment.push(None);
        }
    }

    /// The truth value of `lit`, or `None` while its variable is unassigned.
    pub(crate) fn value(&self, lit: &Lit) -> (value: Option<bool>)
        requires
            lit.var() < self@.len(),
        ensures
            value == lit.value_under(self@),
    {
        match self.assignment[lit.index()] {
            Some(assign) => Some(assign == lit.is_positive()),
            None => None,
        }
    }

    pub(crate) fn is_true(&self, lit: &Lit) -> (holds: bool)
        requires
            lit.var() < self@.len(),
        ensures
            holds == (lit.value_under(self@) == Some(true)),
    {
        match self.value(lit) {
            Some(value) => value,
            None => false,
        }
    }

    pub(crate) fn is_false(&self, lit: &Lit) -> (fails: bool)
        requires
            lit.var() < self@.len(),
        ensures
            fails == (lit.value_under(self@) == Some(false)),
    {
        match self.value(lit) {
            Some(value) => !value,
            None => false,
        }
    }

    pub(crate) fn is_none(&self, lit: &Lit) -> (open: bool)
        requires
            lit.var() < self@.len(),
        ensures
            open == (lit.value_under(self@) is None),
    {
        self.value(lit).is_none()
    }
}

/// Whether the variable `v` belongs to one of the literals of `lits` at the
/// positions from `from` up to `to`.
pub open spec fn dropped(lits: Seq<Lit>, from: int, to: int, v: int) -> bool {
    exists|k: int| from <= k < to && (#[trigger] lits[k]).var() == v
}

} // verus!
