//! Small values attached to the entities of either role.

use crate::motion::Heading;
use vstd::prelude::*;

verus! {

/// Marks the entity that the local client controls.
#[derive(Clone, Copy, Debug, PartialEq, Eq, Structural)]
pub struct Player;

/// The last movement intent received for an entity.
#[derive(Clone, Copy, Debug, PartialEq, Eq, Structural)]
pub struct PlayerMovement(pub Heading);

/// The connection handle that drives a server-side player.
#[derive(Clone, Copy, Debug, PartialEq, Eq, Structural)]
pub struct ControllingHandle(pub u32);

/// Which role this process plays.
#[derive(Clone, Copy, Debug, PartialEq, Eq, Structural)]
pub struct IsServer(pub bool);

} // verus!
