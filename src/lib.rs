//! Evaluation of binding box trees, declarative constraints over an
//! object-centric event log, with the indexed log they are evaluated on.

pub mod binding;
pub mod constraint;
pub mod constraint_checker;
pub mod expand;
pub mod filter;
pub mod ocel;
pub mod text;
pub mod tree;
