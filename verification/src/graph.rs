//! The implication graph: for each variable, why and at which decision level
//! it was last assigned.

use crate::lit::Lit;
use crate::solver::ClauseRef;
use vstd::prelude::*;

verus! {

/// Why a literal was made true.
#[derive(Debug, Clone, Copy, PartialEq, Eq, Structural)]
pub enum PropReason {
    /// A decision, or a fact that holds without antecedents.
    Unit,
    /// A binary clause; the field is its other literal, which is false.
    Binary(Lit),
    /// A long clause whose first literal is the forced one.
    Long(ClauseRef),
}

/// One node of the implication graph.
#[derive(Debug, Clone, Copy)]
pub struct PropNode {
    pub reason: PropReason,
    pub level: usize,
}

/// One node for each variable.
pub struct PropGraph(pub(crate) Vec<PropNode>);

impl View for PropGraph {
    type V = Seq<PropNode>;

    open(crate) spec fn view(&self) -> Seq<PropNode> {
        self.0@
    }
}

impl PropGraph {
    /// A graph without variables.
    pub(crate) fn new() -> (graph: PropGraph)
        ensures
            graph@ == Seq::<PropNode>::empty(),
    {
        PropGraph(Vec::new())
    }

    /// Grows the graph to `var_count` nodes, the new ones without antecedents
    /// at level 0, or cuts it down to its first `var_count` nodes.
    pub(crate) fn resize(&mut self, var_count: usize)
        ensures
            final(self)@.len() == var_count,
            forall|v: int|
                0 <= v < var_count ==> final(self)@[v] == if v < old(self)@.len() {
                    old(self)@[v]
                } else {
                    PropNode { reason: PropReason::Unit, level: 0 }
                },
    {
        self.0.truncate(var_count);
        while self.0.len() < var_count
            invariant
                self.0@.len() <= var_count,
                old(self)@.len() <= self.0@.len() || self.0@.len() == var_count,
                forall|v: int|
                    0 <= v < self.0@.len() ==> self.0@[v] == if v < old(self)@.len() {
                        old(self)@[v]
                    } else {
                        PropNode { reason: PropReason::Unit, level: 0 }
                    },
            decreases var_count - self.0.len(),
        {
            self.0.push(PropNode { reason: PropReason::Unit, level: 0 });
        }
    }

    /// Records why and at which level the variable of `lit` was assigned.
    pub(crate) fn update_node(&mut self, lit: &Lit, reason: PropReason, level: usize)
        requires
            lit.var() < old(self)@.len(),
        ensures
            final(self)@ == old(self)@.update(lit.var(), PropNode { reason, level }),
    {
        self.0[lit.index()] = PropNode { reason, level };
    }

    /// The node of the variable of `lit`.
    pub(crate) fn get_node(&self, lit: &Lit) -> (node: &PropNode)
        requires
            lit.var() < self@.len(),
        ensures
            *node == self@[lit.var()],
    {
        &self.0[lit.index()]
    }
}

} // verus!
