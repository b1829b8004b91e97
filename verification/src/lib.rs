//! Reversible schema migrations kept as a linked chain: the chain itself, the
//! path between two of its positions, the statement groups of a script, and
//! the decisions of a transactional run that moves a database along a path.

pub mod applier;
pub mod chain;
pub mod commands;
pub mod directive;
pub mod errors;
pub mod files;
pub mod graph;
pub mod model;
pub mod path;
pub mod run;
pub mod statements;
pub mod text;
