//! From a formula of linear temporal logic in negation normal form to a
//! generalized Buchi automaton, by the on-the-fly tableau construction.
//!
//! [`LtlFormula`] is the formula, [`OnTheFlyLtl`] the builder. After
//! [`OnTheFlyLtl::create_graph`] the states of the automaton are the nodes that
//! [`OnTheFlyLtl::states`] gives: the names in `incoming` of a state name the
//! states that have an edge to it, and the marker [`node_name::INIT`] among
//! them makes the state initial.

pub mod ltl_formula;
pub mod node_name;
pub mod structural_key;
pub mod adjoin;
pub mod lists;
pub mod tableau;
pub mod laws;
pub mod automaton;
pub mod closure;
pub mod name_supply;
pub mod ltl_buchi;

pub use ltl_formula::LtlFormula;
pub use ltl_buchi::BuildError;
pub use ltl_buchi::Node;
pub use ltl_buchi::OnTheFlyLtl;
