//! Steady-state throughput planning for small production networks.
//!
//! The crate reads an indentation-structured description of a production
//! chain (resource flows wired through processing units), builds a linear
//! model of it, and solves for the unique steady-state activity of every
//! unit and the net rate of every resource line.  All quantities are
//! exact rationals, so a returned solution satisfies every balance
//! equation exactly.
//!
//! The pipeline is `clean::clean` (comment and whitespace stripping),
//! `node::Node::from_bytes` (the indentation parser),
//! `design::Design::from_data` (the design builder, consulting a
//! `catalog::Catalog`), and `design::Design::analyze` (the balance
//! solver).

pub mod catalog;
pub mod clean;
pub mod design;
pub mod errors;
pub mod modifier;
pub mod node;
pub mod parse;
pub mod rat;
pub mod solver;
pub mod text;
pub mod unitcalc;

pub use catalog::Catalog;
pub use design::Design;
pub use errors::AnalyzeError;
pub use errors::InputError;
pub use node::Node;
pub use parse::ParseError;
pub use rat::Rat;
