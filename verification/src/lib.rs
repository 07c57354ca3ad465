//! A conflict-driven clause-learning SAT solver, verified with Verus.
//!
//! A formula in conjunctive normal form is collected in a
//! [`cnf::CnfFormula`], handed to a [`solver::Solver`] and solved. The
//! solver takes in the clauses that have a literal; its verdict is `Sat`
//! exactly where some assignment makes every clause that it holds true,
//! and then it holds such an assignment.
//!
//! The data: literals ([`lit`]), the clause database ([`db`]), the
//! assignment table ([`assign`]), the watch lists ([`watch`]), the trail
//! ([`prop`]) and the implication graph ([`graph`]). The search: unit
//! propagation ([`prop`]), the decision rule ([`decision`]), conflict
//! analysis ([`cdcl`]) and learning ([`learn`]), driven by
//! [`solver::Solver::solve`].
//!
//! What the steps compute, as functions of the state: the watch lists at
//! the start ([`watch`]), propagation ([`walk`]), the learned clause
//! ([`uip`]) and the search as a whole ([`search`]).
//!
//! The proofs: [`state`] says what holds of the tables between the steps,
//! [`attach`], [`moves`], [`scan`] and [`watching`] that propagation misses
//! no clause, [`model`], [`explain`] and [`sound`] that what is derived
//! follows from the clauses, [`cone`] that the learned clause stands on the
//! first unique implication point, [`account`] and [`mention`] where each
//! value comes from, [`measure`] that the search ends, and [`laws`] what
//! follows for the solver as a whole.

use vstd::prelude::*;

pub mod account;
pub mod assign;
pub mod attach;
pub mod cdcl;
pub mod cnf;
pub mod cone;
pub mod db;
pub mod decision;
pub mod explain;
pub mod graph;
pub mod laws;
pub mod learn;
pub mod lit;
pub mod measure;
pub mod mention;
pub mod model;
pub mod moves;
pub mod prop;
pub mod scan;
pub mod search;
pub mod solver;
pub mod sound;
pub mod state;
pub mod uip;
pub mod walk;
pub mod watch;
pub mod watching;

verus! {

/// Sum of two machine words that fits in a machine word.
pub fn add(left: usize, right: usize) -> (sum: usize)
    requires
        left + right <= usize::MAX,
    ensures
        sum == left + right,
{
    left + right
}

} // verus!
