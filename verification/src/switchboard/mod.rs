//! The switchboard: endpoint registration, intents, and channel planning.

pub mod client;
pub mod keys;
pub mod messaging;
pub mod protocol;
pub mod service;
pub mod solver;
