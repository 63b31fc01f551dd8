//! A small RESP-style protocol core: the protocol value model with its exact
//! wire encoding, an incremental frame parser that tolerates partial input,
//! command interpretation, and a key-value store with lazy read-time expiry.

pub mod command;
pub mod laws;
pub mod parser;
pub mod session;
pub mod store;
pub mod value;
