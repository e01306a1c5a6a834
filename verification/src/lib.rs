//! Mutation testing with the place capability graph: mutants of a function's MIR that a
//! borrow checker should refuse, and the record of what it made of them.

pub mod body_test;
pub mod driver;
pub mod graph;
pub mod mir;
pub mod mutator;
pub mod pcg;
pub mod results;
pub mod text;
pub mod visualization;
