//! Trait resolution by unification and clause search.
//!
//! Given the clauses that a program's interfaces and implementations amount
//! to, and a set of assumptions, [`prove::prove`] finds every way in which a
//! goal holds: each solution is a substitution for the goal's existential
//! variables, stated in an environment that orders all variables by
//! universe. [`model`] says, as mathematics, which solutions the search
//! yields; [`constraints`] says what holds of every one of them;
//! [`chaining`] shows, of the example program, that clauses chain to any
//! depth.
pub mod chaining;
pub mod constraints;
pub mod db;
pub mod env;
pub mod formula;
pub mod grammar;
pub mod model;
pub mod prove;
pub mod prove_eq;
pub mod prove_formula;
pub mod prove_normalize;
pub mod solutions;
pub mod substitution;
pub mod visit;
