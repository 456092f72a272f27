//! The client: its session, its mirror of the server's players, and the
//! frame-ordered merge of snapshots into that mirror.

use crate::components::{Player, PlayerMovement};
use crate::motion::{Heading, Position};
use crate::protocol::{
    ClientMessage,
    ConnectionEvent,
    GameStateMessage,
    GameStateView,
    PlayerSnapshot,
    ServerMessage,
};
use vstd::prelude::*;

verus! {

/// The server-side id that a remote entity mirrors.
#[derive(Clone, Copy, Debug, PartialEq, Eq, Structural)]
pub struct ServerEntityId(pub u32);

/// The frame of the last snapshot applied to a remote entity.
#[derive(Clone, Copy, Debug, PartialEq, Eq, Structural)]
pub struct Frame(pub u32);

/// Whether the server acknowledged this client, and the handle it assigned.
#[derive(Clone, Copy, Debug, PartialEq, Eq, Structural)]
pub struct ClientsServerState {
    pub has_joined: bool,
    pub handle: u32,
}

impl Default for ClientsServerState {
    fn default() -> (r: ClientsServerState)
        ensures
            !r.has_joined,
            r.handle == 0,
    {
        ClientsServerState { has_joined: false, handle: 0 }
    }
}

/// The client's copy of one of the server's players.
#[derive(Clone, Copy, Debug, PartialEq, Eq, Structural)]
pub struct RemoteEntity {
    pub id: ServerEntityId,
    pub frame: Frame,
    pub movement: PlayerMovement,
    pub translation: Position,
    /// `Some` on the entity that this client controls.
    pub player: Option<Player>,
}

/// Everything a client keeps between ticks.
#[derive(Debug)]
pub struct ClientWorld {
    pub session: ClientsServerState,
    pub entities: Vec<RemoteEntity>,
}

/// The client's state as mathematical values.
pub struct ClientView {
    pub session: ClientsServerState,
    pub entities: Seq<RemoteEntity>,
}

impl View for ClientWorld {
    type V = ClientView;

    open spec fn view(&self) -> ClientView {
        ClientView { session: self.session, entities: self.entities@ }
    }
}

pub open spec fn has_id(es: Seq<RemoteEntity>, id: u32) -> bool {
    exists|i: int| 0 <= i < es.len() && es[i].id.0 == id
}

pub open spec fn ids_unique(es: Seq<RemoteEntity>) -> bool {
    forall|i: int, j: int| 0 <= i < es.len() && 0 <= j < es.len() && i != j ==> es[i].id.0 != es[j].id.0
}

/// A new remote entity at the origin, with no movement.
pub open spec fn remote_entity(id: u32, frame: u32, player: Option<Player>) -> RemoteEntity {
    RemoteEntity {
        id: ServerEntityId(id),
        frame: Frame(frame),
        movement: PlayerMovement(Heading { x: 0, y: 0 }),
        translation: Position { x: 0, y: 0, z: 0 },
        player,
    }
}

/// `j` is the first position in `ps` whose id is `id`.
pub open spec fn first_match(ps: Seq<PlayerSnapshot>, id: u32, j: int) -> bool {
    &&& 0 <= j < ps.len()
    &&& ps[j].0 == id
    &&& forall|k: int| 0 <= k < j ==> ps[k].0 != id
}

/// The snapshot lists `id`.
pub open spec fn lists(ps: Seq<PlayerSnapshot>, id: u32) -> bool {
    exists|j: int| 0 <= j < ps.len() && ps[j].0 == id
}

/// The position of the first entry for `id` in `ps`.
pub open spec fn first_index(ps: Seq<PlayerSnapshot>, id: u32) -> int {
    choose|j: int| first_match(ps, id, j)
}

/// `e` after taking the state of `s` at `frame`.
pub open spec fn updated(e: RemoteEntity, frame: u32, s: PlayerSnapshot) -> RemoteEntity {
    RemoteEntity { frame: Frame(frame), movement: PlayerMovement(s.1), translation: s.2, ..e }
}

/// One entity merged with the entries `ps` of a snapshot of `frame` that are
/// still unused: an entity whose frame is newer than the snapshot is left
/// alone; otherwise the first entry for its id, if any, is applied and used
/// up. Returns the entity and the entries left.
pub open spec fn merge_entity(e: RemoteEntity, frame: u32, ps: Seq<PlayerSnapshot>) -> (
    RemoteEntity,
    Seq<PlayerSnapshot>,
) {
    if e.frame.0 > frame {
        (e, ps)
    } else if exists|j: int| first_match(ps, e.id.0, j) {
        let j = first_index(ps, e.id.0);
        (updated(e, frame, ps[j]), ps.remove(j))
    } else {
        (e, ps)
    }
}

/// The first `n` entities of `es` merged in order, and the entries left.
pub open spec fn merged_prefix(es: Seq<RemoteEntity>, frame: u32, ps: Seq<PlayerSnapshot>, n: nat) -> (
    Seq<RemoteEntity>,
    Seq<PlayerSnapshot>,
)
    decreases n,
{
    if n == 0 {
        (Seq::empty(), ps)
    } else {
        let (done, rest) = merged_prefix(es, frame, ps, (n - 1) as nat);
        let (e, left) = merge_entity(es[n - 1], frame, rest);
        (done.push(e), left)
    }
}

/// `es` after the announcement of the handles `ids` in a snapshot of `frame`:
/// each id that is neither `own` nor already mirrored gets a new entity.
pub open spec fn spawned(es: Seq<RemoteEntity>, own: u32, ids: Seq<u32>, frame: u32) -> Seq<RemoteEntity>
    decreases ids.len(),
{
    if ids.len() == 0 {
        es
    } else {
        let prev = spawned(es, own, ids.drop_last(), frame);
        let id = ids.last();
        if id == own || has_id(prev, id) {
            prev
        } else {
            prev.push(remote_entity(id, frame, None))
        }
    }
}

/// A `Join` to each peer that connected, in order.
pub open spec fn join_requests(events: Seq<ConnectionEvent>) -> Seq<(u32, ClientMessage)>
    decreases events.len(),
{
    if events.len() == 0 {
        Seq::empty()
    } else {
        let prev = join_requests(events.drop_last());
        match events.last() {
            ConnectionEvent::Connected(h) => prev.push((h, ClientMessage::Join)),
            _ => prev,
        }
    }
}

impl ClientView {
    /// No two entities mirror the same id.
    pub open spec fn wf(self) -> bool {
        ids_unique(self.entities)
    }

    /// After the server acknowledged the join with handle `h`: the session
    /// records it, and an entity controlled by this client mirrors `h`.
    pub open spec fn joined(self, h: u32) -> ClientView {
        ClientView {
            session: ClientsServerState { has_joined: true, handle: h },
            entities: if has_id(self.entities, h) {
                self.entities
            } else {
                self.entities.push(remote_entity(h, 0, Some(Player)))
            },
        }
    }

    /// After a snapshot: its new players are spawned, then every entity is
    /// merged with it in order.
    pub open spec fn after_state(self, msg: GameStateView) -> ClientView {
        let es = spawned(self.entities, self.session.handle, msg.new_players, msg.frame);
        ClientView { entities: merged_prefix(es, msg.frame, msg.players, es.len()).0, ..self }
    }

    /// After each acknowledgement of `acks`, in order.
    pub open spec fn after_acks(self, acks: Seq<ServerMessage>) -> ClientView
        decreases acks.len(),
    {
        if acks.len() == 0 {
            self
        } else {
            match acks.last() {
                ServerMessage::Joined(h) => self.after_acks(acks.drop_last()).joined(h),
            }
        }
    }

    /// After each snapshot of `msgs`, in order.
    pub open spec fn after_states(self, msgs: Seq<GameStateView>) -> ClientView
        decreases msgs.len(),
    {
        if msgs.len() == 0 {
            self
        } else {
            self.after_states(msgs.drop_last()).after_state(msgs.last())
        }
    }
}

impl ClientWorld {
    /// Not joined, nothing mirrored.
    pub fn new() -> (r: ClientWorld)
        ensures
            !r@.session.has_joined,
            r@.session.handle == 0,
            r@.entities.len() == 0,
            r@.wf(),
    {
        ClientWorld { session: ClientsServerState::default(), entities: Vec::new() }
    }

    /// Whether some entity mirrors `id`.
    pub fn mirrors(&self, id: u32) -> (r: bool)
        ensures
            r == has_id(self@.entities, id),
    {
        let mut i: usize = 0;
        while i < self.entities.len()
            invariant
                i <= self.entities@.len(),
                forall|k: int| 0 <= k < i ==> self.entities@[k].id.0 != id,
            decreases self.entities@.len() - i,
        {
            if self.entities[i].id.0 == id {
                return true;
            }
            i += 1;
        }
        false
    }

    /// Handles the server's acknowledgement `Joined(h)`.
    pub fn on_joined(&mut self, h: u32)
        requires
            old(self)@.wf(),
        ensures
            final(self)@ == old(self)@.joined(h),
            final(self)@.wf(),
    {
        self.session = ClientsServerState { has_joined: true, handle: h };
        if !self.mirrors(h) {
            self.entities.push(
                RemoteEntity {
                    id: ServerEntityId(h),
                    frame: Frame(0),
                    movement: PlayerMovement(Heading::zero()),
                    translation: Position::origin(),
                    player: Some(Player),
                },
            );
        }
    }
}

/// Two first entries for one id are the same entry.
pub proof fn lemma_first_match_unique(ps: Seq<PlayerSnapshot>, id: u32, a: int, b: int)
    requires
        first_match(ps, id, a),
        first_match(ps, id, b),
    ensures
        a == b,
{
    if a < b {
        assert(ps[a].0 != id);
    } else if b < a {
        assert(ps[b].0 != id);
    }
}

/// Where the first entry for `id` stands in `ps`, if any.
fn find_entry(ps: &Vec<PlayerSnapshot>, id: u32) -> (r: Option<usize>)
    ensures
        r is None <==> !(exists|j: int| first_match(ps@, id, j)),
        r matches Some(j) ==> j == first_index(ps@, id) && first_match(ps@, id, j as int),
{
    let mut j: usize = 0;
    while j < ps.len()
        invariant
            j <= ps@.len(),
            forall|k: int| 0 <= k < j ==> ps@[k].0 != id,
        decreases ps@.len() - j,
    {
        if ps[j].0 == id {
            assert(first_match(ps@, id, j as int));
            proof {
                lemma_first_match_unique(ps@, id, j as int, first_index(ps@, id));
            }
            return Some(j);
        }
        j += 1;
    }
    None
}

impl ClientWorld {
    /// Handles a snapshot: spawns an entity for each newly announced handle
    /// that is not this client's own and not mirrored yet, at the snapshot's
    /// frame; then, in order, every entity whose frame is not newer than the
    /// snapshot's takes the first unused entry for its id, which is used up.
    pub fn on_game_state(&mut self, msg: GameStateMessage)
        requires
            old(self)@.wf(),
        ensures
            final(self)@ == old(self)@.after_state(msg@),
            final(self)@.wf(),
    {
        let frame = msg.frame;
        let own = self.session.handle;
        let mut i: usize = 0;
        while i < msg.new_players.len()
            invariant
                i <= msg.new_players@.len(),
                own == old(self)@.session.handle,
                self@.session == old(self)@.session,
                self@.entities == spawned(old(self)@.entities, own, msg.new_players@.take(i as int), frame),
                self@.wf(),
            decreases msg.new_players@.len() - i,
        {
            let id = msg.new_players[i];
            assert(msg.new_players@.take(i + 1).drop_last() =~= msg.new_players@.take(i as int));
            if id != own && !self.mirrors(id) {
                self.entities.push(
                    RemoteEntity {
                        id: ServerEntityId(id),
                        frame: Frame(frame),
                        movement: PlayerMovement(Heading::zero()),
                        translation: Position::origin(),
                        player: None,
                    },
                );
            }
            i += 1;
        }
        assert(msg.new_players@.take(i as int) =~= msg.new_players@);
        let ghost es = self@.entities;
        let ghost ps = msg.players@;
        let mut remaining = msg.players;
        let mut k: usize = 0;
        while k < self.entities.len()
            invariant
                k <= self.entities@.len(),
                self.entities@.len() == es.len(),
                self@.session == old(self)@.session,
                ids_unique(es),
                forall|q: int| 0 <= q < es.len() ==> (#[trigger] self.entities@[q]).id == es[q].id,
                forall|q: int| k <= q < es.len() ==> self.entities@[q] == es[q],
                self.entities@.take(k as int) == merged_prefix(es, frame, ps, k as nat).0,
                remaining@ == merged_prefix(es, frame, ps, k as nat).1,
            decreases es.len() - k,
        {
            let e = self.entities[k];
            if e.frame.0 <= frame {
                match find_entry(&remaining, e.id.0) {
                    Some(j) => {
                        let s = remaining.remove(j);
                        self.entities.set(
                            k,
                            RemoteEntity {
                                frame: Frame(frame),
                                movement: PlayerMovement(s.1),
                                translation: s.2,
                                ..e
                            },
                        );
                    },
                    None => {},
                }
            }
            assert(self.entities@.take(k + 1) =~= merged_prefix(es, frame, ps, (k + 1) as nat).0);
            k += 1;
        }
        assert(self.entities@.take(k as int) =~= self.entities@);
    }
}

/// Answers the transport's events: a `Join` goes to each peer that connected.
pub fn handle_packets(events: &Vec<ConnectionEvent>) -> (r: Vec<(u32, ClientMessage)>)
    ensures
        r@ == join_requests(events@),
{
    let mut out: Vec<(u32, ClientMessage)> = Vec::new();
    let mut i: usize = 0;
    while i < events.len()
        invariant
            i <= events@.len(),
            out@ == join_requests(events@.take(i as int)),
        decreases events@.len() - i,
    {
        assert(events@.take(i + 1).drop_last() =~= events@.take(i as int));
        match events[i] {
            ConnectionEvent::Connected(h) => out.push((h, ClientMessage::Join)),
            _ => {},
        }
        i += 1;
    }
    assert(events@.take(i as int) =~= events@);
    out
}

/// Handles what the server sent since the last tick: first the
/// acknowledgements, then the snapshots, each in the order received.
pub fn handle_messages(world: &mut ClientWorld, acks: &Vec<ServerMessage>, states: Vec<GameStateMessage>)
    requires
        old(world)@.wf(),
    ensures
        final(world)@ == old(world)@.after_acks(acks@).after_states(states@.map_values(|m: GameStateMessage| m@)),
        final(world)@.wf(),
{
    let mut i: usize = 0;
    while i < acks.len()
        invariant
            i <= acks@.len(),
            world@.wf(),
            world@ == old(world)@.after_acks(acks@.take(i as int)),
        decreases acks@.len() - i,
    {
        assert(acks@.take(i + 1).drop_last() =~= acks@.take(i as int));
        match acks[i] {
            ServerMessage::Joined(h) => world.on_joined(h),
        }
        i += 1;
    }
    assert(acks@.take(i as int) =~= acks@);
    let ghost start = world@;
    let ghost all = states@;
    let ghost views = all.map_values(|m: GameStateMessage| m@);
    let mut states = states;
    let len: usize = states.len();
    assert(all.len() == len);
    let mut n: usize = 0;
    while states.len() > 0
        invariant
            n + states@.len() == all.len(),
            all.len() <= usize::MAX,
            states@ == all.skip(n as int),
            views == all.map_values(|m: GameStateMessage| m@),
            world@.wf(),
            world@ == start.after_states(views.take(n as int)),
        decreases states@.len(),
    {
        let m = states.remove(0);
        assert(m == all[n as int]);
        assert(views.take(n + 1).drop_last() =~= views.take(n as int));
        assert(views.take(n + 1).last() == m@);
        world.on_game_state(m);
        n += 1;
        assert(states@ =~= all.skip(n as int));
    }
    assert(views.take(n as int) =~= views);
}

/// The movement intent for the held keys: left and right cancel along one
/// axis, down and up along the other.
pub fn player_movement(left: bool, right: bool, down: bool, up: bool) -> (r: ClientMessage)
    ensures
        r == ClientMessage::Direction(
            Heading {
                x: ((if right { 1int } else { 0 }) - (if left { 1int } else { 0 })) as i8,
                y: ((if up { 1int } else { 0 }) - (if down { 1int } else { 0 })) as i8,
            },
        ),
        r matches ClientMessage::Direction(h) ==> h.wf(),
{
    let x: i8 = (right as i8) - (left as i8);
    let y: i8 = (up as i8) - (down as i8);
    ClientMessage::Direction(Heading { x, y })
}

/// `e` after the snapshots `msgs`, applied in the order given.
pub open spec fn replayed(e: RemoteEntity, msgs: Seq<GameStateView>) -> RemoteEntity
    decreases msgs.len(),
{
    if msgs.len() == 0 {
        e
    } else {
        merge_entity(replayed(e, msgs.drop_last()), msgs.last().frame, msgs.last().players).0
    }
}

/// A snapshot that lists an id has a first entry for it.
pub proof fn lemma_first_match_exists(ps: Seq<PlayerSnapshot>, id: u32, j: int)
    requires
        0 <= j < ps.len(),
        ps[j].0 == id,
    ensures
        exists|m: int| first_match(ps, id, m),
    decreases j,
{
    if exists|k: int| 0 <= k < j && ps[k].0 == id {
        let k = choose|k: int| 0 <= k < j && ps[k].0 == id;
        lemma_first_match_exists(ps, id, k);
    } else {
        assert(first_match(ps, id, j));
    }
}

/// Replaying keeps the entity's id and role, and never takes its frame past
/// a bound that its own frame and every snapshot listing it respect.
proof fn lemma_replayed_bounded(e: RemoteEntity, msgs: Seq<GameStateView>, f: u32)
    requires
        e.frame.0 <= f,
        forall|q: int| 0 <= q < msgs.len() && lists(msgs[q].players, e.id.0) ==> msgs[q].frame <= f,
    ensures
        replayed(e, msgs).frame.0 <= f,
        replayed(e, msgs).id == e.id,
        replayed(e, msgs).player == e.player,
    decreases msgs.len(),
{
    if msgs.len() > 0 {
        let rest = msgs.drop_last();
        assert forall|q: int| 0 <= q < rest.len() && lists(rest[q].players, e.id.0) implies rest[q].frame
            <= f by {
            assert(rest[q] == msgs[q]);
        }
        lemma_replayed_bounded(e, rest, f);
        let last = msgs[msgs.len() - 1];
        assert(last == msgs.last());
        if exists|j: int| first_match(last.players, e.id.0, j) {
            let j = choose|j: int| first_match(last.players, e.id.0, j);
            assert(lists(last.players, e.id.0));
        }
    }
}

/// Whatever the order of delivery, an entity ends up with the frame and the
/// state of the newest snapshot that lists it, provided that snapshot is not
/// older than the entity and no other snapshot listing it has the same frame.
pub proof fn lemma_newest_snapshot_wins(e: RemoteEntity, msgs: Seq<GameStateView>, k: int)
    requires
        0 <= k < msgs.len(),
        lists(msgs[k].players, e.id.0),
        e.frame.0 <= msgs[k].frame,
        forall|q: int|
            0 <= q < msgs.len() && q != k && lists(msgs[q].players, e.id.0) ==> msgs[q].frame
                < msgs[k].frame,
    ensures
        replayed(e, msgs) == updated(
            e,
            msgs[k].frame,
            msgs[k].players[first_index(msgs[k].players, e.id.0)],
        ),
    decreases msgs.len(),
{
    let id = e.id.0;
    let n = msgs.len() - 1;
    let rest = msgs.drop_last();
    let prev = replayed(e, rest);
    let last = msgs[n];
    assert(last == msgs.last());
    let f = msgs[k].frame;
    if k == n {
        assert forall|q: int| 0 <= q < rest.len() && lists(rest[q].players, id) implies rest[q].frame
            <= f by {
            assert(rest[q] == msgs[q]);
        }
        lemma_replayed_bounded(e, rest, f);
        let j = choose|j: int| 0 <= j < last.players.len() && last.players[j].0 == id;
        lemma_first_match_exists(last.players, id, j);
    } else {
        assert(rest[k] == msgs[k]);
        assert forall|q: int|
            0 <= q < rest.len() && q != k && lists(rest[q].players, id) implies rest[q].frame < f by {
            assert(rest[q] == msgs[q]);
        }
        lemma_newest_snapshot_wins(e, rest, k);
        if exists|j: int| first_match(last.players, id, j) {
            let j = choose|j: int| first_match(last.players, id, j);
            assert(lists(last.players, id));
        }
    }
}

/// Snapshots that are all older than an entity's frame leave it unchanged,
/// whatever their order.
pub proof fn lemma_stale_snapshots_ignored(e: RemoteEntity, msgs: Seq<GameStateView>)
    requires
        forall|q: int| 0 <= q < msgs.len() && lists(msgs[q].players, e.id.0) ==> msgs[q].frame < e.frame.0,
    ensures
        replayed(e, msgs) == e,
    decreases msgs.len(),
{
    if msgs.len() > 0 {
        let rest = msgs.drop_last();
        assert forall|q: int| 0 <= q < rest.len() && lists(rest[q].players, e.id.0) implies rest[q].frame
            < e.frame.0 by {
            assert(rest[q] == msgs[q]);
        }
        lemma_stale_snapshots_ignored(e, rest);
        let last = msgs[msgs.len() - 1];
        assert(last == msgs.last());
        if exists|j: int| first_match(last.players, e.id.0, j) {
            let j = choose|j: int| first_match(last.players, e.id.0, j);
            assert(lists(last.players, e.id.0));
        }
    }
}

/// Announcements keep the entities already mirrored, in place, and add
/// only entities for ids that are neither `own` nor mirrored before.
proof fn lemma_spawned(es: Seq<RemoteEntity>, own: u32, ids: Seq<u32>, frame: u32)
    requires
        ids_unique(es),
    ensures
        ids_unique(spawned(es, own, ids, frame)),
        spawned(es, own, ids, frame).len() >= es.len(),
        forall|i: int| 0 <= i < es.len() ==> spawned(es, own, ids, frame)[i] == es[i],
        forall|i: int|
            es.len() <= i < spawned(es, own, ids, frame).len() ==> spawned(es, own, ids, frame)[i].id.0
                != own,
    decreases ids.len(),
{
    if ids.len() > 0 {
        lemma_spawned(es, own, ids.drop_last(), frame);
        let prev = spawned(es, own, ids.drop_last(), frame);
        let id = ids.last();
        if !(id == own || has_id(prev, id)) {
            let next = prev.push(remote_entity(id, frame, None));
            assert forall|i: int, j: int|
                0 <= i < next.len() && 0 <= j < next.len() && i != j implies next[i].id.0
                != next[j].id.0 by {
                if i == prev.len() {
                    assert(prev[j].id.0 != id);
                } else if j == prev.len() {
                    assert(prev[i].id.0 != id);
                }
            }
        }
    }
}

/// Merging keeps the number of entities and the id of each.
proof fn lemma_merged_ids(es: Seq<RemoteEntity>, frame: u32, ps: Seq<PlayerSnapshot>, n: nat)
    requires
        n <= es.len(),
    ensures
        merged_prefix(es, frame, ps, n).0.len() == n,
        forall|i: int| 0 <= i < n ==> (#[trigger] merged_prefix(es, frame, ps, n).0[i]).id == es[i].id,
    decreases n,
{
    if n > 0 {
        lemma_merged_ids(es, frame, ps, (n - 1) as nat);
    }
}

/// A snapshot never gives this client a second entity, and in particular
/// none for its own handle when that handle is announced as new: only ids
/// other than the own handle get new entities, and all ids stay distinct.
pub proof fn lemma_no_duplicate_spawn(v: ClientView, msg: GameStateView)
    requires
        v.wf(),
    ensures
        v.after_state(msg).wf(),
        v.after_state(msg).entities.len() >= v.entities.len(),
        forall|i: int|
            0 <= i < v.entities.len() ==> (#[trigger] v.after_state(msg).entities[i]).id == v.entities[i].id,
        forall|i: int|
            v.entities.len() <= i < v.after_state(msg).entities.len() ==> (
            #[trigger] v.after_state(msg).entities[i]).id.0 != v.session.handle,
{
    let es = spawned(v.entities, v.session.handle, msg.new_players, msg.frame);
    lemma_spawned(v.entities, v.session.handle, msg.new_players, msg.frame);
    lemma_merged_ids(es, msg.frame, msg.players, es.len());
    let w = v.after_state(msg);
    assert forall|i: int, j: int|
        0 <= i < w.entities.len() && 0 <= j < w.entities.len() && i != j implies w.entities[i].id.0
        != w.entities[j].id.0 by {
        assert(w.entities[i].id == es[i].id);
        assert(w.entities[j].id == es[j].id);
    }
    assert forall|i: int| 0 <= i < v.entities.len() implies (
    #[trigger] w.entities[i]).id == v.entities[i].id by {
        assert(w.entities[i].id == es[i].id);
    }
    assert forall|i: int| v.entities.len() <= i < w.entities.len() implies (
    #[trigger] w.entities[i]).id.0 != v.session.handle by {
        assert(w.entities[i].id == es[i].id);
    }
}

/// `a` and `b` hold the same first entry for `id`, or neither holds one.
pub open spec fn agree(a: Seq<PlayerSnapshot>, b: Seq<PlayerSnapshot>, id: u32) -> bool {
    &&& (exists|j: int| first_match(a, id, j)) == (exists|j: int| first_match(b, id, j))
    &&& (exists|j: int| first_match(a, id, j)) ==> a[first_index(a, id)] == b[first_index(b, id)]
}

/// Using up an entry for one id leaves the first entry for every other id.
proof fn lemma_remove_agrees(ps: Seq<PlayerSnapshot>, j: int, y: u32)
    requires
        0 <= j < ps.len(),
        ps[j].0 != y,
    ensures
        agree(ps.remove(j), ps, y),
{
    let r = ps.remove(j);
    if exists|m: int| first_match(ps, y, m) {
        let m = first_index(ps, y);
        let m2 = if m < j { m } else { m - 1 };
        assert(r[m2] == ps[m]);
        assert forall|k: int| 0 <= k < m2 implies r[k].0 != y by {
            if k < j {
                assert(r[k] == ps[k]);
            } else {
                assert(r[k] == ps[k + 1]);
            }
        }
        assert(first_match(r, y, m2));
        lemma_first_match_unique(r, y, m2, first_index(r, y));
    }
    if exists|m: int| first_match(r, y, m) {
        let m = first_index(r, y);
        if m < j {
            assert(r[m] == ps[m]);
            lemma_first_match_exists(ps, y, m);
        } else {
            assert(r[m] == ps[m + 1]);
            lemma_first_match_exists(ps, y, m + 1);
        }
    }
}

/// With distinct ids, merging entities in order gives each the same result
/// as merging it alone with the whole snapshot.
proof fn lemma_merged_alone(es: Seq<RemoteEntity>, frame: u32, ps: Seq<PlayerSnapshot>, n: nat)
    requires
        ids_unique(es),
        n <= es.len(),
    ensures
        forall|i: int|
            0 <= i < n ==> (#[trigger] merged_prefix(es, frame, ps, n).0[i]) == merge_entity(es[i], frame, ps).0,
        forall|q: int| n <= q < es.len() ==> agree(#[trigger] merged_prefix(es, frame, ps, n).1, ps, es[q].id.0),
        merged_prefix(es, frame, ps, n).0.len() == n,
    decreases n,
{
    if n > 0 {
        lemma_merged_alone(es, frame, ps, (n - 1) as nat);
        let rest = merged_prefix(es, frame, ps, (n - 1) as nat).1;
        let e = es[n - 1];
        assert(agree(rest, ps, e.id.0));
        let left = merge_entity(e, frame, rest).1;
        assert forall|q: int| n <= q < es.len() implies agree(left, ps, es[q].id.0) by {
            let y = es[q].id.0;
            assert(agree(rest, ps, y));
            if e.frame.0 <= frame && exists|j: int| first_match(rest, e.id.0, j) {
                let j = first_index(rest, e.id.0);
                assert(y != e.id.0);
                lemma_remove_agrees(rest, j, y);
            }
        }
    }
}

/// Entities already mirrored before a snapshot are each merged with the
/// whole snapshot, as if alone.
proof fn lemma_after_state_per_entity(v: ClientView, msg: GameStateView)
    requires
        v.wf(),
    ensures
        v.after_state(msg).wf(),
        v.after_state(msg).entities.len() >= v.entities.len(),
        forall|i: int|
            0 <= i < v.entities.len() ==> (#[trigger] v.after_state(msg).entities[i]) == merge_entity(
                v.entities[i],
                msg.frame,
                msg.players,
            ).0,
{
    let es = spawned(v.entities, v.session.handle, msg.new_players, msg.frame);
    lemma_spawned(v.entities, v.session.handle, msg.new_players, msg.frame);
    lemma_merged_alone(es, msg.frame, msg.players, es.len());
    lemma_no_duplicate_spawn(v, msg);
}

/// Over any run of snapshots, an entity that the client mirrored before
/// goes through exactly the single-entity replay: combined with
/// `lemma_newest_snapshot_wins` and `lemma_stale_snapshots_ignored`, its final
/// frame and state are those of the newest snapshot listing it, whatever
/// the order of delivery.
pub proof fn lemma_client_replays_each_entity(v: ClientView, msgs: Seq<GameStateView>, i: int)
    requires
        v.wf(),
        0 <= i < v.entities.len(),
    ensures
        v.after_states(msgs).wf(),
        i < v.after_states(msgs).entities.len(),
        v.after_states(msgs).entities[i] == replayed(v.entities[i], msgs),
    decreases msgs.len(),
{
    if msgs.len() > 0 {
        let rest = msgs.drop_last();
        lemma_client_replays_each_entity(v, rest, i);
        let prev = v.after_states(rest);
        lemma_after_state_per_entity(prev, msgs.last());
    }
}

/// In a client, whatever the order in which snapshots arrive, a mirrored
/// entity ends with the frame, movement and position of the newest snapshot
/// that lists it (when that one is not older than the entity and no other
/// snapshot listing it has the same frame).
pub proof fn lemma_client_keeps_newest(v: ClientView, msgs: Seq<GameStateView>, i: int, k: int)
    requires
        v.wf(),
        0 <= i < v.entities.len(),
        0 <= k < msgs.len(),
        lists(msgs[k].players, v.entities[i].id.0),
        v.entities[i].frame.0 <= msgs[k].frame,
        forall|q: int|
            0 <= q < msgs.len() && q != k && lists(msgs[q].players, v.entities[i].id.0) ==> msgs[q].frame
                < msgs[k].frame,
    ensures
        v.after_states(msgs).entities[i] == updated(
            v.entities[i],
            msgs[k].frame,
            msgs[k].players[first_index(msgs[k].players, v.entities[i].id.0)],
        ),
{
    lemma_client_replays_each_entity(v, msgs, i);
    lemma_newest_snapshot_wins(v.entities[i], msgs, k);
}

/// In a client, snapshots older than a mirrored entity's frame never change
/// it, whatever their order.
pub proof fn lemma_client_ignores_stale(v: ClientView, msgs: Seq<GameStateView>, i: int)
    requires
        v.wf(),
        0 <= i < v.entities.len(),
        forall|q: int|
            0 <= q < msgs.len() && lists(msgs[q].players, v.entities[i].id.0) ==> msgs[q].frame
                < v.entities[i].frame.0,
    ensures
        v.after_states(msgs).entities[i] == v.entities[i],
{
    lemma_client_replays_each_entity(v, msgs, i);
    lemma_stale_snapshots_ignored(v.entities[i], msgs);
}

} // verus!
