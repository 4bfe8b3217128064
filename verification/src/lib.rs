//! Generation of randomized arithmetic expressions that evaluate, in exact
//! integer arithmetic, to a requested answer, and their rendering as typeset
//! equations.

pub mod assigner;
pub mod catalog;
pub mod equation;
pub mod evaluation;
pub mod formatter;
pub mod node;
pub mod numeric;
pub mod random;
pub mod shaper;
pub mod split;

pub use equation::get_equation;
