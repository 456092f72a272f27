//! The messages exchanged between clients and the server, and the transport
//! events that reach either side.

use crate::motion::{Heading, Position};
use vstd::prelude::*;

verus! {

/// Sent by a client.
#[derive(Clone, Copy, Debug, PartialEq, Eq, Structural)]
pub enum ClientMessage {
    /// Asks to enter the session.
    Join,
    /// The current raw movement intent.
    Direction(Heading),
}

/// Sent by the server to a single client.
#[derive(Clone, Copy, Debug, PartialEq, Eq, Structural)]
pub enum ServerMessage {
    /// Acknowledges a join and tells the client its own handle.
    Joined(u32),
}

/// One player as a snapshot lists it: id, movement intent and position.
pub type PlayerSnapshot = (u32, Heading, Position);

/// A full snapshot of the server's players at one frame.
#[derive(Debug)]
pub struct GameStateMessage {
    pub frame: u32,
    pub players: Vec<PlayerSnapshot>,
    /// Handles that joined since the previous snapshot.
    pub new_players: Vec<u32>,
}

/// What a snapshot holds, as mathematical values.
pub struct GameStateView {
    pub frame: u32,
    pub players: Seq<PlayerSnapshot>,
    pub new_players: Seq<u32>,
}

impl View for GameStateMessage {
    type V = GameStateView;

    open spec fn view(&self) -> GameStateView {
        GameStateView { frame: self.frame, players: self.players@, new_players: self.new_players@ }
    }
}

/// What the transport reports about a connection.
#[derive(Clone, Copy, Debug, PartialEq, Eq, Structural)]
pub enum ConnectionEvent {
    Connected(u32),
    Disconnected(u32),
    /// A packet that no registered channel took.
    Packet(u32),
    Error(u32),
}

} // verus!
