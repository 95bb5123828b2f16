//! An online linearizability checker for a single shared register.
//!
//! Timed operation spans observed on several nodes are fed in one at a time;
//! the checker keeps every hypothesis about the register's linear history
//! that the spans seen so far still allow, and tells whether any is left.
//!
//! - [`operation`]: the spans that are fed.
//! - [`hypothesis`]: a hypothesis as a mathematical value, and the steps it
//!   can take.
//! - [`possibility`]: a hypothesis as data.
//! - [`search`]: what the search after a feed leaves, stated over paths.
//! - [`frontier`]: what holds while the search is under way.
//! - [`linearizer`]: the checker.
//! - [`text`]: decimal numbers for the diagnostic renderings.

pub mod frontier;
pub mod hypothesis;
pub mod linearizer;
pub mod operation;
pub mod possibility;
pub mod search;
pub mod text;

pub use hypothesis::{PossibilityView, RegisterState};
pub use linearizer::Linearizer;
pub use operation::{Node, OpInputs, OpResult, OpSpan, Timestamp, Value};
pub use possibility::Possibility;
