//! The connection, fan-out and webhook core of a Pusher-compatible WebSocket server.
pub mod json;
pub mod ordered;
pub mod text;
pub mod transport;
pub mod user;
pub mod webhook;
pub mod ws;
