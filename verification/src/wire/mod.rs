//! The messages that server and client exchange, and the bytes that carry them.

pub mod codec;
pub mod component;
pub mod message;
