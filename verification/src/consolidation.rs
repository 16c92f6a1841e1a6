//! The tables of a network made ready for the linear program.
pub mod demand;
pub mod links;
