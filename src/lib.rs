//! Authoritative movement synchronisation for a small multiplayer game.
//!
//! The server owns every player's position, integrates movement from the
//! latest input each tick and broadcasts full snapshots; clients mirror the
//! server's entities and merge snapshots without ever going back to an older
//! frame.

pub mod motion;
pub mod components;
pub mod protocol;
pub mod server;
pub mod client;
pub mod role;
