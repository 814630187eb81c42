//! Per-core WebSocket transport.
pub mod buffer;
pub mod conn;
pub mod fanout;
pub mod frame;
pub mod handshake;
pub mod pump;
pub mod rest;
pub mod timer;
pub mod tls;
pub mod worker;
