//! The Bomberman arena: its wire protocol and its simulation.
pub mod proto;
pub mod server;
pub mod protocol;
pub mod sim;
