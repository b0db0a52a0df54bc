pub mod alignment;
pub mod engine;
pub mod minimax;
pub mod model;
pub mod search;
