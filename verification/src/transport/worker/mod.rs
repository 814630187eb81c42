//! The per-core worker: connection table, admission, inbound frames, broadcast
//! delivery and the decisions of the event loop.
pub mod deliver;
pub mod due;
pub mod entry;
pub mod establish;
pub mod events;
pub mod head;
pub mod index;
pub mod mail;
pub mod open;
pub mod path;
pub mod shed;
pub mod state;
pub mod table;
