//! The connection fabric and message relay core of a peer-to-peer overlay
//! node.
//!
//! Peers are named by DIDs: twenty-byte addresses derived from a key. Every
//! message travels inside a signed payload whose routing envelope records
//! the path hop by hop on the way out and walks it backwards, cursor by
//! cursor, on the way home. A per-node swarm owns the direct connections,
//! keyed by peer DID with at most one live slot each, tracks in-flight
//! offers on a pending list, and drives registration from a queue of
//! transport events. The three-step offer/answer handshake wires two swarms
//! together.
//!
//! Payloads cross the wire as canonical JSON; the encoder and decoder here
//! are proved exact inverses, and the decoder accepts nothing but the
//! canonical form.

pub mod did;
pub mod errors;
pub mod relay;
pub mod wire;
pub mod utils;
pub mod transport;
pub mod session;
pub mod message;
pub mod payload;
pub mod swarm;
pub mod config;
