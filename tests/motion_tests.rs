use player_sync::motion::{advance, diagonal_step, Heading, Position, STEP_PER_TICK};

#[test]
fn step_per_tick_value() {
    assert_eq!(STEP_PER_TICK, 15000);
}

#[test]
fn diagonal_step_values() {
    assert_eq!(diagonal_step(0), 0);
    assert_eq!(diagonal_step(1), 0);
    assert_eq!(diagonal_step(2), 1);
    assert_eq!(diagonal_step(10), 7);
    assert_eq!(diagonal_step(15000), 10606);
    assert_eq!(diagonal_step(u32::MAX), 3037000499);
}

#[test]
fn heading_rejects_out_of_range_axes() {
    assert_eq!(Heading::new(1, -1), Some(Heading { x: 1, y: -1 }));
    assert_eq!(Heading::new(2, 0), None);
    assert_eq!(Heading::new(0, -2), None);
}

#[test]
fn advance_negative_diagonal() {
    let p = Position { x: 100, y: 100, z: 0 };
    let h = Heading::new(-1, -1).unwrap();
    assert_eq!(advance(p, h, 10, 7), Position { x: 93, y: 93, z: 0 });
}
