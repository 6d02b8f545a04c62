//! Reconstruction of a hidden room graph from label traces, with the
//! simulator and bisimulation checker that decide when a guess is right.

pub mod problem;
pub mod table;
pub mod pairing;
pub mod plan;
pub mod plan_text;
pub mod refine;
pub mod graph;
pub mod rng;
pub mod bisim;
pub mod random_graph;
pub mod search_state;
pub mod error;
pub mod oracle;
pub mod search_cost;
pub mod csp;
pub mod walk_identify;
pub mod soundness;
pub mod rewrite_identify;
pub mod first_visits;
pub mod room_numbers;
pub mod rewrite_rounds;
pub mod label_balance;
pub mod assembly;
