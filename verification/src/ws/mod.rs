//! What a client may ask of its connection.
pub mod rate;
pub mod signin;
