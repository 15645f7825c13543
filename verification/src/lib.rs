pub mod clause;
pub mod clause_tools;
pub mod cnf;
pub mod decision;
pub mod formula;
pub mod formula_node;
pub mod instance;
pub mod invariants;
pub mod justification;
pub mod laws;
pub mod literal;
pub mod model;
pub mod normal;
pub mod parser;
pub mod operators;
pub mod proof_log;
pub mod render;
pub mod sat;
pub mod sat_results;
pub mod solver;
pub mod state;
pub mod stats;
pub mod text;
pub mod tools;
pub mod vsids;
pub mod watch;
