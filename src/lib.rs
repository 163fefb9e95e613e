//! Rendezvous relay: pairs two connections that present the same session
//! identifier and splices their byte streams until one side ends or the
//! session idles out.
//!
//! The library holds the decisions: which token gates access, what a
//! handshake admits, how the pairing table matches arrivals, and how the relay
//! reacts to each frame and tick. The program around it performs the I/O.

pub mod key;
pub mod pairing;
pub mod relay;
