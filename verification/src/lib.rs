//! Verified core of a domain-aware reverse proxy for a Minecraft-style game
//! protocol.
//!
//! The proxy looks at the first frame a client sends, without consuming it,
//! and relays the connection to a local backend only when the frame asks for
//! the configured domain. Peers that keep sending unreadable frames or asking
//! for other domains collect strikes and end up on a file-backed blacklist.
//!
//! Everything in this crate is decision logic with machine-checked
//! contracts. Sockets, files, the file watcher and logging belong to the
//! program that embeds it.
//!
//! - [`varint`] and [`frame`] decode the handshake frame from the peeked
//!   bytes.
//! - [`domain`] normalises the requested domain and routes by it.
//! - [`handler`] concludes how a connection ends and settles that with the
//!   peer's strikes.
//! - [`address`] holds peer addresses, [`notation`] reads and writes them as
//!   text, and [`roundtrip`] proves that what is written reads back.
//! - [`strikes`] counts failures per peer and tells when a ban is due.
//! - [`blacklist`] is the set of banned peers, loaded from its file.
//! - [`config`] is what the proxy is told at startup.

pub mod address;
pub mod blacklist;
pub mod config;
pub mod domain;
pub mod frame;
pub mod handler;
pub mod notation;
pub mod roundtrip;
pub mod strikes;
pub mod varint;
