//! Permission analysis over the borrow facts of a function body.
//!
//! For every point of a function's control-flow graph the library says which
//! of the capabilities read, write and drop each memory path holds, pairs the
//! capabilities that method calls expect with the ones their receivers have,
//! and turns the changes between points into steps attached to source spans.
//!
//! - [`place`] interns places as paths; [`facts`] holds what a host knows of
//!   borrows, liveness, moves and control flow.
//! - [`output`] derives the permission facts with the Datalog engine behind
//!   [`relation`]; [`context`] states what the derived facts are, and
//!   [`permissions`] reads the capabilities of a path at a point from them.
//! - [`boundary`] judges method calls, and [`regions`] says where in the
//!   source a loan refines.
//! - [`stepper`] compares two points, [`flow`] and [`visit`] walk the syntax
//!   tree, and [`steps`] makes the steps that are shown. [`sinking`] proves
//!   that the walk attributes every change once, to the innermost node that
//!   claims it.
//! - [`span`] has the spans, and the merging of spans into runs.
//!
//! The analysis is verified with Verus; only what [`relation`] says of the
//! Datalog engine is taken on trust.

pub mod boundary;
pub mod context;
pub mod facts;
pub mod flow;
pub mod output;
pub mod permissions;
pub mod place;
pub mod regions;
pub mod sinking;
pub mod relation;
pub mod span;
pub mod stepper;
pub mod steps;
pub mod visit;
