//! A text chat relay: the registry of connected clients, the fan-out of one
//! line to every other client, and the life cycle of a connection.

pub mod identity;
pub mod wire;
pub mod registry;
pub mod broadcast;
pub mod lifecycle;
