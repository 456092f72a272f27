use player_sync::components::{ControllingHandle, PlayerMovement};
use player_sync::motion::{Heading, Position, STEP_PER_TICK};
use player_sync::protocol::{ClientMessage, ConnectionEvent, ServerMessage};
use player_sync::server::{
    compute_movement, handle_messages, handle_packets, state_broadcast, PlayerEntity, ServerWorld,
};

fn heading(x: i32, y: i32) -> Heading {
    Heading::new(x, y).unwrap()
}

#[test]
fn join_creates_one_player_and_acknowledges() {
    let mut world = ServerWorld::new();
    let acks = handle_messages(&mut world, &vec![(7, ClientMessage::Join)]);
    assert_eq!(acks, vec![(7, ServerMessage::Joined(7))]);
    assert_eq!(world.players.len(), 1);
    assert_eq!(
        world.players[0],
        PlayerEntity {
            handle: ControllingHandle(7),
            movement: PlayerMovement(heading(0, 0)),
            translation: Position { x: 0, y: 0, z: 0 },
        }
    );
    assert_eq!(world.broadcast.new_players, vec![7]);
}

#[test]
fn second_join_keeps_single_player() {
    let mut world = ServerWorld::new();
    let acks = handle_messages(&mut world, &vec![(4, ClientMessage::Join), (4, ClientMessage::Join)]);
    assert_eq!(acks, vec![(4, ServerMessage::Joined(4)), (4, ServerMessage::Joined(4))]);
    assert_eq!(world.players.len(), 1);
    assert_eq!(world.broadcast.new_players, vec![4]);
    world.on_join(4);
    assert_eq!(world.players.len(), 1);
}

#[test]
fn direction_updates_only_its_player() {
    let mut world = ServerWorld::new();
    handle_messages(
        &mut world,
        &vec![
            (1, ClientMessage::Join),
            (2, ClientMessage::Join),
            (2, ClientMessage::Direction(heading(-1, 1))),
        ],
    );
    assert_eq!(world.players[0].movement, PlayerMovement(heading(0, 0)));
    assert_eq!(world.players[1].movement, PlayerMovement(heading(-1, 1)));
}

#[test]
fn direction_for_unknown_handle_is_ignored() {
    let mut world = ServerWorld::new();
    world.on_join(1);
    world.on_direction(9, heading(1, 0));
    assert_eq!(world.players.len(), 1);
    assert_eq!(world.players[0].movement, PlayerMovement(heading(0, 0)));
}

#[test]
fn disconnect_removes_player() {
    let mut world = ServerWorld::new();
    world.on_join(1);
    world.on_join(2);
    handle_packets(
        &mut world,
        &vec![ConnectionEvent::Connected(3), ConnectionEvent::Disconnected(1), ConnectionEvent::Error(2)],
    );
    assert_eq!(world.players.len(), 1);
    assert_eq!(world.players[0].handle, ControllingHandle(2));
    handle_packets(&mut world, &vec![ConnectionEvent::Disconnected(5)]);
    assert_eq!(world.players.len(), 1);
}

#[test]
fn broadcast_drains_new_players_and_advances_frame() {
    let mut world = ServerWorld::new();
    world.on_join(7);
    world.on_direction(7, heading(1, 0));
    let first = state_broadcast(&mut world);
    assert_eq!(first.frame, 0);
    assert_eq!(first.new_players, vec![7]);
    assert_eq!(first.players, vec![(7, heading(1, 0), Position { x: 0, y: 0, z: 0 })]);
    let second = state_broadcast(&mut world);
    assert_eq!(second.frame, 1);
    assert!(second.new_players.is_empty());
    assert_eq!(second.players.len(), 1);
    assert_eq!(world.broadcast.frame, 2);
}

#[test]
fn straight_step_moves_full_step() {
    let mut world = ServerWorld::new();
    world.on_join(1);
    world.on_direction(1, heading(1, 0));
    compute_movement(&mut world, STEP_PER_TICK);
    assert_eq!(world.players[0].translation, Position { x: 15000, y: 0, z: 0 });
    world.on_direction(1, heading(0, -1));
    compute_movement(&mut world, STEP_PER_TICK);
    assert_eq!(world.players[0].translation, Position { x: 15000, y: -15000, z: 0 });
}

#[test]
fn diagonal_step_is_normalized() {
    let mut world = ServerWorld::new();
    world.on_join(1);
    world.on_direction(1, heading(1, 1));
    compute_movement(&mut world, STEP_PER_TICK);
    let p = world.players[0].translation;
    assert_eq!(p, Position { x: 10606, y: 10606, z: 0 });
    let step = STEP_PER_TICK as i64;
    assert!(p.x * p.x + p.y * p.y <= step * step);
}

#[test]
fn idle_player_does_not_move() {
    let mut world = ServerWorld::new();
    world.on_join(1);
    compute_movement(&mut world, STEP_PER_TICK);
    assert_eq!(world.players[0].translation, Position { x: 0, y: 0, z: 0 });
}

#[test]
fn movement_saturates_at_bounds() {
    let mut world = ServerWorld::new();
    world.players.push(PlayerEntity {
        handle: ControllingHandle(1),
        movement: PlayerMovement(heading(1, -1)),
        translation: Position { x: i64::MAX - 5, y: i64::MIN + 5, z: 3 },
    });
    compute_movement(&mut world, 100);
    assert_eq!(world.players[0].translation, Position { x: i64::MAX, y: i64::MIN, z: 3 });
}
