use player_sync::client::{
    handle_messages, handle_packets, player_movement, ClientWorld, ClientsServerState, Frame,
    RemoteEntity, ServerEntityId,
};
use player_sync::components::{Player, PlayerMovement};
use player_sync::motion::{Heading, Position};
use player_sync::protocol::{ClientMessage, ConnectionEvent, GameStateMessage, ServerMessage};
use player_sync::server::{state_broadcast, ServerWorld};

fn heading(x: i32, y: i32) -> Heading {
    Heading::new(x, y).unwrap()
}

fn pos(x: i64, y: i64, z: i64) -> Position {
    Position { x, y, z }
}

fn remote(id: u32, frame: u32, p: Position) -> RemoteEntity {
    RemoteEntity {
        id: ServerEntityId(id),
        frame: Frame(frame),
        movement: PlayerMovement(heading(0, 0)),
        translation: p,
        player: None,
    }
}

#[test]
fn connect_sends_join() {
    let out = handle_packets(&vec![
        ConnectionEvent::Packet(1),
        ConnectionEvent::Connected(2),
        ConnectionEvent::Disconnected(3),
        ConnectionEvent::Connected(4),
    ]);
    assert_eq!(out, vec![(2, ClientMessage::Join), (4, ClientMessage::Join)]);
}

#[test]
fn joined_records_session_and_spawns_own_entity() {
    let mut world = ClientWorld::new();
    assert_eq!(world.session, ClientsServerState::default());
    world.on_joined(5);
    assert_eq!(world.session, ClientsServerState { has_joined: true, handle: 5 });
    assert_eq!(world.entities.len(), 1);
    assert_eq!(world.entities[0].id, ServerEntityId(5));
    assert_eq!(world.entities[0].frame, Frame(0));
    assert_eq!(world.entities[0].player, Some(Player));
    world.on_joined(5);
    assert_eq!(world.entities.len(), 1);
}

#[test]
fn join_round_trip_does_not_respawn_self() {
    let mut server = ServerWorld::new();
    let acks = player_sync::server::handle_messages(&mut server, &vec![(7, ClientMessage::Join)]);
    assert_eq!(server.players.len(), 1);
    assert_eq!(acks, vec![(7, ServerMessage::Joined(7))]);
    let snapshot = state_broadcast(&mut server);
    assert_eq!(snapshot.new_players, vec![7]);

    let mut client = ClientWorld::new();
    let acks_only: Vec<ServerMessage> = acks.iter().map(|a| a.1).collect();
    handle_messages(&mut client, &acks_only, vec![snapshot]);
    assert_eq!(client.entities.len(), 1);
    assert_eq!(client.entities[0].id, ServerEntityId(7));
    assert_eq!(client.entities[0].player, Some(Player));
    assert_eq!(client.entities[0].frame, Frame(0));
}

#[test]
fn own_handle_in_new_players_is_skipped() {
    let mut client = ClientWorld::new();
    client.on_joined(3);
    client.on_game_state(GameStateMessage { frame: 4, players: vec![], new_players: vec![3, 3] });
    assert_eq!(client.entities.len(), 1);
}

#[test]
fn late_snapshot_is_ignored() {
    let mut client = ClientWorld::new();
    client.on_joined(1);
    client.entities.push(remote(3, 5, pos(10, 0, 0)));
    client.on_game_state(GameStateMessage {
        frame: 4,
        players: vec![(3, heading(1, 0), pos(0, 0, 0))],
        new_players: vec![],
    });
    assert_eq!(client.entities[1], remote(3, 5, pos(10, 0, 0)));
}

#[test]
fn new_player_spawned_at_snapshot_frame() {
    let mut client = ClientWorld::new();
    client.on_joined(1);
    client.on_game_state(GameStateMessage {
        frame: 2,
        players: vec![(9, heading(0, 0), pos(0, 0, 0))],
        new_players: vec![9],
    });
    let nines: Vec<&RemoteEntity> = client.entities.iter().filter(|e| e.id == ServerEntityId(9)).collect();
    assert_eq!(nines.len(), 1);
    assert_eq!(nines[0].frame, Frame(2));
    assert_eq!(nines[0].player, None);
}

#[test]
fn newest_snapshot_wins_in_any_order() {
    let mut client = ClientWorld::new();
    client.on_joined(1);
    client.entities.push(remote(3, 0, pos(0, 0, 0)));
    let msg = |frame: u32, x: i64| GameStateMessage {
        frame,
        players: vec![(3, heading(1, 0), pos(x, 0, 0))],
        new_players: vec![],
    };
    handle_messages(&mut client, &vec![], vec![msg(2, 20), msg(6, 60), msg(4, 40)]);
    assert_eq!(client.entities[1].frame, Frame(6));
    assert_eq!(client.entities[1].translation, pos(60, 0, 0));
    assert_eq!(client.entities[1].movement, PlayerMovement(heading(1, 0)));
}

#[test]
fn equal_frame_snapshot_applies() {
    let mut client = ClientWorld::new();
    client.entities.push(remote(3, 5, pos(10, 0, 0)));
    client.on_game_state(GameStateMessage {
        frame: 5,
        players: vec![(3, heading(0, 1), pos(11, 12, 0))],
        new_players: vec![],
    });
    assert_eq!(client.entities[0].translation, pos(11, 12, 0));
    assert_eq!(client.entities[0].movement, PlayerMovement(heading(0, 1)));
}

#[test]
fn own_entity_is_reconciled() {
    let mut client = ClientWorld::new();
    client.on_joined(7);
    client.on_game_state(GameStateMessage {
        frame: 3,
        players: vec![(8, heading(1, 1), pos(1, 1, 0)), (7, heading(-1, 0), pos(-5, 0, 0))],
        new_players: vec![],
    });
    assert_eq!(client.entities.len(), 1);
    assert_eq!(client.entities[0].frame, Frame(3));
    assert_eq!(client.entities[0].translation, pos(-5, 0, 0));
}

#[test]
fn unknown_snapshot_entries_are_ignored() {
    let mut client = ClientWorld::new();
    client.entities.push(remote(2, 0, pos(1, 2, 3)));
    client.on_game_state(GameStateMessage {
        frame: 1,
        players: vec![(4, heading(1, 0), pos(9, 9, 9))],
        new_players: vec![],
    });
    assert_eq!(client.entities, vec![remote(2, 0, pos(1, 2, 3))]);
}

#[test]
fn player_movement_axes() {
    assert_eq!(player_movement(false, true, false, true), ClientMessage::Direction(heading(1, 1)));
    assert_eq!(player_movement(true, false, true, false), ClientMessage::Direction(heading(-1, -1)));
    assert_eq!(player_movement(true, true, false, false), ClientMessage::Direction(heading(0, 0)));
    assert_eq!(player_movement(false, false, false, true), ClientMessage::Direction(heading(0, 1)));
}
