//! The authoritative server: players, their inputs, integration and
//! snapshots.

use crate::components::{ControllingHandle, PlayerMovement};
use crate::motion::{Heading, Position, advance, advanced, diagonal_step, square};
use crate::protocol::{ClientMessage, ConnectionEvent, GameStateMessage, PlayerSnapshot, ServerMessage};
use vstd::prelude::*;

verus! {

/// A player as the server holds it.
#[derive(Clone, Copy, Debug, PartialEq, Eq, Structural)]
pub struct PlayerEntity {
    pub handle: ControllingHandle,
    pub movement: PlayerMovement,
    pub translation: Position,
}

/// The frame counter and the handles that joined since the last snapshot.
#[derive(Debug)]
pub struct NetworkBroadcast {
    pub frame: u32,
    pub new_players: Vec<u32>,
}

/// Everything the server keeps between ticks.
#[derive(Debug)]
pub struct ServerWorld {
    pub players: Vec<PlayerEntity>,
    pub broadcast: NetworkBroadcast,
}

/// The server's state as mathematical values.
pub struct ServerView {
    pub players: Seq<PlayerEntity>,
    pub frame: u32,
    pub new_players: Seq<u32>,
}

impl View for ServerWorld {
    type V = ServerView;

    open spec fn view(&self) -> ServerView {
        ServerView {
            players: self.players@,
            frame: self.broadcast.frame,
            new_players: self.broadcast.new_players@,
        }
    }
}

pub open spec fn has_handle(ps: Seq<PlayerEntity>, h: u32) -> bool {
    exists|i: int| 0 <= i < ps.len() && ps[i].handle.0 == h
}

pub open spec fn handles_unique(ps: Seq<PlayerEntity>) -> bool {
    forall|i: int, j: int|
        0 <= i < ps.len() && 0 <= j < ps.len() && i != j ==> ps[i].handle.0 != ps[j].handle.0
}

/// A freshly joined player: no movement, at the origin.
pub open spec fn fresh_player(h: u32) -> PlayerEntity {
    PlayerEntity {
        handle: ControllingHandle(h),
        movement: PlayerMovement(Heading { x: 0, y: 0 }),
        translation: Position { x: 0, y: 0, z: 0 },
    }
}

/// The position in `ps` of the player driven by `h`, if there is one.
pub open spec fn index_of_handle(ps: Seq<PlayerEntity>, h: u32) -> int {
    choose|i: int| 0 <= i < ps.len() && ps[i].handle.0 == h
}

/// The `(id, movement, position)` triple that a snapshot lists for `p`.
pub open spec fn snapshot_of(p: PlayerEntity) -> PlayerSnapshot {
    (p.handle.0, p.movement.0, p.translation)
}

/// Each client message answered with `Joined`, in order.
pub open spec fn responses(inbox: Seq<(u32, ClientMessage)>) -> Seq<(u32, ServerMessage)>
    decreases inbox.len(),
{
    if inbox.len() == 0 {
        Seq::empty()
    } else {
        let prev = responses(inbox.drop_last());
        let (h, m) = inbox.last();
        match m {
            ClientMessage::Join => prev.push((h, ServerMessage::Joined(h))),
            ClientMessage::Direction(_) => prev,
        }
    }
}

pub open spec fn headings_wf(inbox: Seq<(u32, ClientMessage)>) -> bool {
    forall|k: int|
        0 <= k < inbox.len() ==> ((#[trigger] inbox[k]).1 matches ClientMessage::Direction(d) ==> d.wf())
}

impl ServerView {
    /// Handles are unique among players and every stored heading is valid.
    pub open spec fn wf(self) -> bool {
        &&& handles_unique(self.players)
        &&& forall|i: int| 0 <= i < self.players.len() ==> (#[trigger] self.players[i]).movement.0.wf()
    }

    /// After a `Join` from `h`: a player for `h` exists, created only if
    /// there was none, and a created one is announced in the next snapshot.
    pub open spec fn joined(self, h: u32) -> ServerView {
        if has_handle(self.players, h) {
            self
        } else {
            ServerView {
                players: self.players.push(fresh_player(h)),
                frame: self.frame,
                new_players: self.new_players.push(h),
            }
        }
    }

    /// After a `Direction(d)` from `h`: the player driven by `h` now moves along `d`.
    pub open spec fn steered(self, h: u32, d: Heading) -> ServerView {
        ServerView {
            players: Seq::new(
                self.players.len(),
                |i: int|
                    if self.players[i].handle.0 == h {
                        PlayerEntity { movement: PlayerMovement(d), ..self.players[i] }
                    } else {
                        self.players[i]
                    },
            ),
            ..self
        }
    }

    /// After `h` disconnected: its player is gone.
    pub open spec fn disconnected(self, h: u32) -> ServerView {
        if has_handle(self.players, h) {
            ServerView { players: self.players.remove(index_of_handle(self.players, h)), ..self }
        } else {
            self
        }
    }

    pub open spec fn received(self, h: u32, m: ClientMessage) -> ServerView {
        match m {
            ClientMessage::Join => self.joined(h),
            ClientMessage::Direction(d) => self.steered(h, d),
        }
    }

    /// After each message of `inbox`, in order.
    pub open spec fn received_all(self, inbox: Seq<(u32, ClientMessage)>) -> ServerView
        decreases inbox.len(),
    {
        if inbox.len() == 0 {
            self
        } else {
            self.received_all(inbox.drop_last()).received(inbox.last().0, inbox.last().1)
        }
    }

    pub open spec fn on_event(self, e: ConnectionEvent) -> ServerView {
        match e {
            ConnectionEvent::Disconnected(h) => self.disconnected(h),
            _ => self,
        }
    }

    /// After each transport event of `events`, in order.
    pub open spec fn after_events(self, events: Seq<ConnectionEvent>) -> ServerView
        decreases events.len(),
    {
        if events.len() == 0 {
            self
        } else {
            self.after_events(events.drop_last()).on_event(events.last())
        }
    }

    /// After one integration tick with straight step `step`.
    pub open spec fn integrated(self, step: nat) -> ServerView {
        ServerView {
            players: Seq::new(
                self.players.len(),
                |i: int|
                    PlayerEntity {
                        translation: advanced(
                            self.players[i].translation,
                            self.players[i].movement.0,
                            step,
                        ),
                        ..self.players[i]
                    },
            ),
            ..self
        }
    }
}

impl ServerWorld {
    /// No players, frame zero.
    pub fn new() -> (r: ServerWorld)
        ensures
            r@.players.len() == 0,
            r@.frame == 0,
            r@.new_players.len() == 0,
            r@.wf(),
    {
        ServerWorld { players: Vec::new(), broadcast: NetworkBroadcast { frame: 0, new_players: Vec::new() } }
    }

    /// Where in `players` the player driven by `h` stands, if anywhere.
    pub fn find_handle(&self, h: u32) -> (r: Option<usize>)
        requires
            self@.wf(),
        ensures
            r is None <==> !has_handle(self@.players, h),
            r matches Some(i) ==> i == index_of_handle(self@.players, h) && i < self@.players.len()
                && self@.players[i as int].handle.0 == h,
    {
        let mut i: usize = 0;
        while i < self.players.len()
            invariant
                i <= self.players@.len(),
                self@.wf(),
                forall|k: int| 0 <= k < i ==> self.players@[k].handle.0 != h,
            decreases self.players@.len() - i,
        {
            if self.players[i].handle.0 == h {
                let ghost j = index_of_handle(self@.players, h);
                assert(self@.players[j].handle.0 == h);
                assert(j == i as int) by {
                    if j != i as int {
                        assert(self@.players[j].handle.0 != self@.players[i as int].handle.0);
                    }
                }
                return Some(i);
            }
            i += 1;
        }
        None
    }

    /// Handles a `Join` from `h` and returns the acknowledgement for it.
    /// A second `Join` from the same handle creates no second player.
    pub fn on_join(&mut self, h: u32) -> (r: ServerMessage)
        requires
            old(self)@.wf(),
        ensures
            final(self)@ == old(self)@.joined(h),
            final(self)@.wf(),
            r == ServerMessage::Joined(h),
    {
        match self.find_handle(h) {
            Some(_) => {},
            None => {
                self.players.push(
                    PlayerEntity {
                        handle: ControllingHandle(h),
                        movement: PlayerMovement(Heading::zero()),
                        translation: Position::origin(),
                    },
                );
                self.broadcast.new_players.push(h);
            },
        }
        ServerMessage::Joined(h)
    }

    /// Handles a `Direction(d)` from `h`; nothing happens if `h` has no player.
    pub fn on_direction(&mut self, h: u32, d: Heading)
        requires
            old(self)@.wf(),
            d.wf(),
        ensures
            final(self)@ == old(self)@.steered(h, d),
            final(self)@.wf(),
    {
        let mut i: usize = 0;
        while i < self.players.len()
            invariant
                i <= self.players@.len(),
                self@.frame == old(self)@.frame,
                self@.new_players == old(self)@.new_players,
                self.players@.len() == old(self)@.players.len(),
                forall|k: int|
                    0 <= k < i ==> self.players@[k] == old(self)@.steered(h, d).players[k],
                forall|k: int| i <= k < self.players@.len() ==> self.players@[k] == old(self)@.players[k],
            decreases self.players@.len() - i,
        {
            if self.players[i].handle.0 == h {
                let p = self.players[i];
                self.players.set(i, PlayerEntity { movement: PlayerMovement(d), ..p });
            }
            i += 1;
        }
        assert(self@.players =~= old(self)@.steered(h, d).players);
    }

    /// Handles the disconnection of `h`: its player, if any, is removed.
    pub fn on_disconnect(&mut self, h: u32)
        requires
            old(self)@.wf(),
        ensures
            final(self)@ == old(self)@.disconnected(h),
            final(self)@.wf(),
    {
        match self.find_handle(h) {
            Some(i) => {
                self.players.remove(i);
                assert(self@ == old(self)@.disconnected(h));
                assert forall|a: int, b: int|
                    0 <= a < self@.players.len() && 0 <= b < self@.players.len() && a != b
                    implies self@.players[a].handle.0 != self@.players[b].handle.0 by {
                    let a0 = if a < i { a } else { a + 1 };
                    let b0 = if b < i { b } else { b + 1 };
                    assert(self@.players[a] == old(self)@.players[a0]);
                    assert(self@.players[b] == old(self)@.players[b0]);
                }
                assert forall|k: int| 0 <= k < self@.players.len() implies (
                #[trigger] self@.players[k]).movement.0.wf() by {
                    let k0 = if k < i { k } else { k + 1 };
                    assert(self@.players[k] == old(self)@.players[k0]);
                }
            },
            None => {},
        }
    }
}

/// Handles the messages that clients sent since the last tick, in order, and
/// returns the acknowledgements to send, each with the handle it goes to.
pub fn handle_messages(world: &mut ServerWorld, inbox: &Vec<(u32, ClientMessage)>) -> (r: Vec<
    (u32, ServerMessage),
>)
    requires
        old(world)@.wf(),
        headings_wf(inbox@),
    ensures
        final(world)@ == old(world)@.received_all(inbox@),
        final(world)@.wf(),
        r@ == responses(inbox@),
{
    let mut out: Vec<(u32, ServerMessage)> = Vec::new();
    let mut i: usize = 0;
    while i < inbox.len()
        invariant
            i <= inbox@.len(),
            headings_wf(inbox@),
            world@.wf(),
            world@ == old(world)@.received_all(inbox@.take(i as int)),
            out@ == responses(inbox@.take(i as int)),
        decreases inbox@.len() - i,
    {
        let (h, m) = inbox[i];
        assert(inbox@.take(i + 1).drop_last() =~= inbox@.take(i as int));
        match m {
            ClientMessage::Join => {
                let ack = world.on_join(h);
                out.push((h, ack));
            },
            ClientMessage::Direction(d) => {
                assert(inbox@[i as int].1 matches ClientMessage::Direction(d) ==> d.wf());
                world.on_direction(h, d);
            },
        }
        i += 1;
    }
    assert(inbox@.take(inbox@.len() as int) =~= inbox@);
    out
}

/// Handles the transport's events: a disconnected handle loses its player.
pub fn handle_packets(world: &mut ServerWorld, events: &Vec<ConnectionEvent>)
    requires
        old(world)@.wf(),
    ensures
        final(world)@ == old(world)@.after_events(events@),
        final(world)@.wf(),
{
    let mut i: usize = 0;
    while i < events.len()
        invariant
            i <= events@.len(),
            world@.wf(),
            world@ == old(world)@.after_events(events@.take(i as int)),
        decreases events@.len() - i,
    {
        assert(events@.take(i + 1).drop_last() =~= events@.take(i as int));
        match events[i] {
            ConnectionEvent::Disconnected(h) => world.on_disconnect(h),
            _ => {},
        }
        i += 1;
    }
    assert(events@.take(events@.len() as int) =~= events@);
}

/// Builds the snapshot of the current frame: every player, and the handles
/// that joined since the previous snapshot, which are then forgotten. The
/// frame counter moves on by one.
pub fn state_broadcast(world: &mut ServerWorld) -> (r: GameStateMessage)
    requires
        old(world)@.frame < u32::MAX,
    ensures
        r@.frame == old(world)@.frame,
        r@.players == old(world)@.players.map_values(|p: PlayerEntity| snapshot_of(p)),
        r@.new_players == old(world)@.new_players,
        final(world)@.frame == old(world)@.frame + 1,
        final(world)@.players == old(world)@.players,
        final(world)@.new_players.len() == 0,
{
    let mut new_players: Vec<u32> = Vec::new();
    let mut i: usize = 0;
    while i < world.broadcast.new_players.len()
        invariant
            i <= world@.new_players.len(),
            world@ == old(world)@,
            new_players@ == world@.new_players.take(i as int),
        decreases world@.new_players.len() - i,
    {
        new_players.push(world.broadcast.new_players[i]);
        assert(world@.new_players.take(i + 1) =~= world@.new_players.take(i as int).push(
            world@.new_players[i as int],
        ));
        i += 1;
    }
    assert(world@.new_players.take(i as int) =~= world@.new_players);
    let mut players: Vec<PlayerSnapshot> = Vec::new();
    let mut j: usize = 0;
    while j < world.players.len()
        invariant
            j <= world@.players.len(),
            world@ == old(world)@,
            players@ =~= world@.players.take(j as int).map_values(|p: PlayerEntity| snapshot_of(p)),
        decreases world@.players.len() - j,
    {
        let p = world.players[j];
        players.push((p.handle.0, p.movement.0, p.translation));
        assert(world@.players.take(j + 1) =~= world@.players.take(j as int).push(p));
        j += 1;
    }
    assert(world@.players.take(j as int) =~= world@.players);
    let message = GameStateMessage { frame: world.broadcast.frame, players, new_players };
    world.broadcast.new_players = Vec::new();
    world.broadcast.frame = world.broadcast.frame + 1;
    message
}

/// One integration tick: every player moves by its movement intent, `step`
/// units along a single held axis, or `diagonal_of(step)` along each axis
/// when both are held, so that no player moves farther than `step`.
pub fn compute_movement(world: &mut ServerWorld, step: u32)
    requires
        old(world)@.wf(),
    ensures
        final(world)@ == old(world)@.integrated(step as nat),
        final(world)@.wf(),
        forall|i: int|
            0 <= i < final(world)@.players.len() ==> square(
                (#[trigger] final(world)@.players[i]).translation.x - old(world)@.players[i].translation.x,
            ) + square(final(world)@.players[i].translation.y - old(world)@.players[i].translation.y)
                <= square(step as int),
{
    let diagonal = diagonal_step(step);
    let mut i: usize = 0;
    while i < world.players.len()
        invariant
            i <= world@.players.len(),
            diagonal == crate::motion::diagonal_of(step as nat),
            world@.frame == old(world)@.frame,
            world@.new_players == old(world)@.new_players,
            world@.players.len() == old(world)@.players.len(),
            old(world)@.wf(),
            forall|k: int|
                0 <= k < i ==> world@.players[k] == old(world)@.integrated(step as nat).players[k],
            forall|k: int| i <= k < world@.players.len() ==> world@.players[k] == old(world)@.players[k],
        decreases world@.players.len() - i,
    {
        let p = world.players[i];
        assert(p.movement.0.wf());
        let moved = advance(p.translation, p.movement.0, step, diagonal);
        world.players.set(i, PlayerEntity { translation: moved, ..p });
        i += 1;
    }
    assert(world@.players =~= old(world)@.integrated(step as nat).players);
    assert forall|i: int| 0 <= i < world@.players.len() implies square(
        (#[trigger] world@.players[i]).translation.x - old(world)@.players[i].translation.x,
    ) + square(world@.players[i].translation.y - old(world)@.players[i].translation.y) <= square(
        step as int,
    ) by {
        let p = old(world)@.players[i];
        crate::motion::lemma_tick_within_step(p.translation, p.movement.0, step as nat);
    }
}

/// A single message keeps the state well formed.
pub proof fn lemma_received_wf(v: ServerView, h: u32, m: ClientMessage)
    requires
        v.wf(),
        m matches ClientMessage::Direction(d) ==> d.wf(),
    ensures
        v.received(h, m).wf(),
{
    let w = v.received(h, m);
    match m {
        ClientMessage::Join => {
            if !has_handle(v.players, h) {
                assert forall|i: int, j: int|
                    0 <= i < w.players.len() && 0 <= j < w.players.len() && i != j implies w.players[i].handle.0
                    != w.players[j].handle.0 by {
                    if i == v.players.len() {
                        assert(v.players[j].handle.0 != h);
                    } else if j == v.players.len() {
                        assert(v.players[i].handle.0 != h);
                    }
                }
                assert forall|i: int| 0 <= i < w.players.len() implies (
                #[trigger] w.players[i]).movement.0.wf() by {
                    if i < v.players.len() {
                        assert(w.players[i] == v.players[i]);
                    }
                }
            }
        },
        ClientMessage::Direction(d) => {
            assert forall|i: int, j: int|
                0 <= i < w.players.len() && 0 <= j < w.players.len() && i != j implies w.players[i].handle.0
                != w.players[j].handle.0 by {
                assert(w.players[i].handle == v.players[i].handle);
                assert(w.players[j].handle == v.players[j].handle);
            }
            assert forall|i: int| 0 <= i < w.players.len() implies (
            #[trigger] w.players[i]).movement.0.wf() by {
                assert(v.players[i].movement.0.wf());
            }
        },
    }
}

/// A run of messages keeps the state well formed.
pub proof fn lemma_received_all_wf(v: ServerView, inbox: Seq<(u32, ClientMessage)>)
    requires
        v.wf(),
        headings_wf(inbox),
    ensures
        v.received_all(inbox).wf(),
    decreases inbox.len(),
{
    if inbox.len() > 0 {
        let rest = inbox.drop_last();
        assert(headings_wf(rest)) by {
            assert forall|q: int| 0 <= q < rest.len() implies (
            (#[trigger] rest[q]).1 matches ClientMessage::Direction(d) ==> d.wf()) by {
                assert(rest[q] == inbox[q]);
            }
        }
        lemma_received_all_wf(v, rest);
        assert(inbox[inbox.len() - 1] == inbox.last());
        lemma_received_wf(v.received_all(rest), inbox.last().0, inbox.last().1);
    }
}

/// No message removes a player: every handle present before is present after.
pub proof fn lemma_received_keeps_handle(v: ServerView, h: u32, m: ClientMessage, kept: u32)
    requires
        has_handle(v.players, kept),
    ensures
        has_handle(v.received(h, m).players, kept),
{
    let i = choose|i: int| 0 <= i < v.players.len() && v.players[i].handle.0 == kept;
    let w = v.received(h, m);
    match m {
        ClientMessage::Join => {
            if !has_handle(v.players, h) {
                assert(w.players[i] == v.players[i]);
            }
        },
        ClientMessage::Direction(d) => {
            assert(w.players[i].handle == v.players[i].handle);
        },
    }
}

/// A `Join` from a handle leaves exactly one player for it, whatever else
/// arrives afterwards (before any disconnection), repeated joins included.
pub proof fn lemma_join_keeps_one_player(
    v: ServerView,
    inbox: Seq<(u32, ClientMessage)>,
    k: int,
)
    requires
        v.wf(),
        headings_wf(inbox),
        0 <= k < inbox.len(),
        inbox[k].1 == ClientMessage::Join,
    ensures
        v.received_all(inbox).wf(),
        has_handle(v.received_all(inbox).players, inbox[k].0),
        forall|i: int, j: int|
            0 <= i < v.received_all(inbox).players.len() && 0 <= j < v.received_all(inbox).players.len()
                && v.received_all(inbox).players[i].handle.0 == inbox[k].0
                && v.received_all(inbox).players[j].handle.0 == inbox[k].0 ==> i == j,
    decreases inbox.len(),
{
    lemma_received_all_wf(v, inbox);
    let h = inbox[k].0;
    let rest = inbox.drop_last();
    let prev = v.received_all(rest);
    assert(inbox[inbox.len() - 1] == inbox.last());
    if k == inbox.len() - 1 {
        let w = prev.joined(h);
        if !has_handle(prev.players, h) {
            assert(w.players[prev.players.len() as int].handle.0 == h);
        }
    } else {
        assert(rest[k] == inbox[k]);
        assert(headings_wf(rest)) by {
            assert forall|q: int| 0 <= q < rest.len() implies (
            (#[trigger] rest[q]).1 matches ClientMessage::Direction(d) ==> d.wf()) by {
                assert(rest[q] == inbox[q]);
            }
        }
        lemma_join_keeps_one_player(v, rest, k);
        lemma_received_keeps_handle(prev, inbox.last().0, inbox.last().1, h);
    }
}

} // verus!
