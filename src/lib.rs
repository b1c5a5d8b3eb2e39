//! Reverse proxy and load balancer core for Minecraft: Bedrock Edition.
//!
//! The library holds the protocol codecs and the decision logic of the
//! proxy; sockets, timers and files are driven by the program around it.
//!
//! - `wire`, `frame`, `message`, `online`: the RakNet datatypes, frames and messages.
//! - `decimal`, `motd`: the MOTD and its semicolon-delimited payload.
//! - `haproxy`: the PROXY protocol version 2 header.
//! - `server`, `balancer`, `backend`: server records, health, load balancing and reloads.
//! - `session`, `proxy`, `spy`: the session table, datagram dispatch and disconnect detection.
//! - `prober`, `snapshot`: the offline probe, and snapshots for recovery after a restart.

pub mod backend;
pub mod balancer;
pub mod decimal;
pub mod frame;
pub mod haproxy;
pub mod message;
pub mod motd;
pub mod online;
pub mod prober;
pub mod proxy;
pub mod server;
pub mod session;
pub mod snapshot;
pub mod spy;
pub mod wire;
