//! A small propositional satisfiability library.
//!
//! A `Formula` is a recursive expression tree over boolean variables.
//! `Formula::get_cnf` converts it, by the Tseytin transformation, into an
//! equisatisfiable `Conjunction` (conjunctive normal form) of linear size,
//! and `Solver` decides satisfiability of that conjunction by backtracking
//! search, producing a witnessing `Assignments` map when one exists.

pub mod assignments;
pub mod cnf;
pub mod encoding;
pub mod formula;
pub mod names;
pub mod semantics;
pub mod solver;
