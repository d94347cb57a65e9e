//! What the server decides without touching a socket: its configuration
//! defaults and their translation into rules, and how it measures a tick.
pub mod config;
pub mod metrics;
pub mod registry;
