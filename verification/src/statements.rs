//! What the operations of the library do, said of their inputs and results in plain terms.
pub mod coalitions;
pub mod demands;
pub mod edges;
pub mod inputs;
pub mod link_values;
pub mod matrices;
pub mod numbers;
pub mod program;
pub mod rows;
pub mod walks;
