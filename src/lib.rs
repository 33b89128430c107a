//! Peer-to-peer group chat core: a byte-level wire codec for chat messages,
//! histories and rendezvous tickets, the message relay's fan-out state, the
//! in-memory history store, and the bootstrap history download.
pub mod varint;
pub mod wire;
pub mod ticket;
pub mod text;
pub mod relay;
pub mod history;
