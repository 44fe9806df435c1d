//! Witnos: a living verification contract between a human and a coding
//! agent, and the fail-closed gate that decides when the agent may stop.

pub mod seqs;
pub mod text;
pub mod types;
pub mod gate;
pub mod contract;
pub mod store;
pub mod laws;
pub mod desk;
pub mod pty;
pub mod text_set;
pub mod registry;
pub mod marker;
pub mod server;
pub mod human;
pub mod client;
pub mod hooks;
pub mod setup;
