//! Simple HTTP+JSON based RPC
//!
//! `rpc` used client-server model:
//! server exposes routes, and client calls them.
//! Each route is composed from request direction (client -> server)
//! and response direction (server -> client).
//! Each direction can be unary or streaming.
pub mod client;
pub mod server;
pub mod streaming;
pub mod unary;
