//! A verified library for the streaming-quotes protocol.
pub mod address;
pub mod client;
pub mod command;
pub mod keepalive;
pub mod quotes;
pub mod readback;
pub mod registry;
pub mod session;
pub mod text;
