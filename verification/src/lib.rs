//! A DPLL (Davis-Putnam-Logemann-Loveland) decision procedure for
//! propositional formulas in conjunctive normal form.
//!
//! The solver keeps a dense partial assignment, a reverse index from each
//! variable to the clauses that mention it, and an undo log of assignment
//! groups, so that one decision together with all of its unit-propagated
//! consequences can be reversed in a single step.

pub mod formula;
pub mod parser;
pub mod solver;
