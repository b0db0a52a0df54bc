//! A connect-four (7x6, four-in-a-row) engine: a bit-packed board with
//! reversible move application, a bit-parallel win detector, incremental
//! position hashing, a heuristic evaluator, a negamax/alpha-beta search with
//! a transposition table, and a perft harness.  Every state component is
//! specified as a function of the move sequence played, and push followed by
//! undo is proved to restore the state exactly.

pub mod api;
