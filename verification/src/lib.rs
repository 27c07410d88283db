//! A fully connected set of peers relays one token along a randomly chosen
//! chain. A peer that receives a `Ping` answers its sender with a `Pong`,
//! which removes the sender from the shared registry, and forwards the token
//! to a peer that is still registered. A peer that finds nobody left removes
//! itself, and the relay ends with an empty registry.

pub mod config;
pub mod message;
pub mod registry;
pub mod server;
pub mod simulation;
