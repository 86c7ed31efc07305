//! Verified core of a Rust analysis platform: abstract-state lattices and
//! contracts for unsafe APIs, alias graphs with drop/liveness tracking,
//! ownership layouts, control-flow ordering and command-line handling.
pub mod abstract_state;
pub mod state_lattice;
pub mod text;
pub mod contract;
pub mod value_graph;
pub mod callback;
pub mod args;
pub mod cargo_rap;
pub mod ownership;
pub mod ty_layout;
pub mod heap_item;
pub mod alias;
pub mod safedrop_graph;
pub mod corner;
pub mod inter_record;
pub mod dot;
pub mod kinds;
pub mod call_graph;
pub mod order;
pub mod mir_model;
pub mod mop_check;
pub mod safedrop_check;
pub mod isolation;
pub mod ty_kind;
pub mod body_visitor;
pub mod call_report;
pub mod bv_term;
pub mod intra_flow;
