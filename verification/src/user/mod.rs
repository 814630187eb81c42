//! Signed-in users.
pub mod registry;
