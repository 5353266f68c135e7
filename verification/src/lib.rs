//! Verified core of a language-server-protocol (LSP) client layer.
//!
//! The library is organised around a sans-I/O design: every protocol
//! decision — framing bytes on the wire, correlating request ids with
//! responses, the client lifecycle state machine, and the per-language
//! client registry — is ordinary verified code over plain values.  An
//! embedding program performs the process spawning and stream I/O and
//! feeds the raw bytes and events back into this core.

pub mod chat;
pub mod client;
pub mod correlator;
pub mod filesystem;
pub mod framer;
pub mod json;
pub mod manager;
pub mod messages;
pub mod servers;
pub mod state;
pub mod terminal;
pub mod text;
