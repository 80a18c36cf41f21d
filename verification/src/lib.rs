//! A transactional REPL core: a dependency-tracking call graph with
//! bidirectional invalidation closure, and the pure decision logic of the
//! fork ping-pong session protocol (command dispatch, history, verdicts,
//! wire messages).

pub mod callgraph;
pub mod graph_model;
pub mod repl;
pub mod session;
