use tiled_arena::{PositionConverter, TilePosition, WorldPosition, WorldRect, SUBDIVISIONS};

const TILE_SIZE: u32 = 20;

// world units to steps
fn steps(units: i64) -> i64 {
    units * SUBDIVISIONS as i64
}

#[test]
fn init() {
    let tp = TilePosition::new(1, 1, 10_000, 10_000);
    let centered = TilePosition::centered(1, 1, TILE_SIZE);
    assert_eq!(tp, centered, "new(1, 1, 10.0, 10.0) == centered(1, 1, 20)")
}

#[test]
fn conversions() {
    let tp = TilePosition::new(10, 10, 10_000, 10_000);
    assert_eq!(
        tp.to_world_position(TILE_SIZE),
        WorldPosition::new(steps(210), 0, steps(-210)),
        "to_world_position"
    );
    let left = steps(200);
    let bottom = steps(200);
    assert_eq!(
        tp.to_world_rect(TILE_SIZE),
        WorldRect {
            left,
            bottom,
            right: left + steps(TILE_SIZE as i64),
            top: bottom + steps(TILE_SIZE as i64),
        },
        "to_world_rect"
    );
}

#[test]
fn tile_world_round_trips() {
    let wp0 = WorldPosition { x: steps(210), y: 0, z: steps(-240) };
    let tp = wp0.to_tile_position(TILE_SIZE);
    assert!(tp.is_some());
    let wp1 = tp.unwrap().to_world_position(TILE_SIZE);
    assert_eq!(wp0, wp1);

    let wp0 = WorldPosition { x: steps(240), y: 0, z: steps(-241) };
    let tp = wp0.to_tile_position(TILE_SIZE);
    assert!(tp.is_some());
    let wp1 = tp.unwrap().to_world_position(TILE_SIZE);
    assert_eq!(wp0, wp1);

    let wp0 = WorldPosition { x: steps(10), y: 0, z: steps(-21) };
    let tp = wp0.to_tile_position(5);
    assert!(tp.is_some());
    let wp1 = tp.unwrap().to_world_position(5);
    assert_eq!(wp0, wp1);
}

#[test]
fn world_to_tile_splits_offsets() {
    let wp = WorldPosition::new(steps(241), 0, steps(-42) - 500);
    let tp = wp.to_tile_position(TILE_SIZE).unwrap();
    assert_eq!(tp, TilePosition::new(12, 2, 1000, 2500));
}

#[test]
fn tile_round_trip_keeps_offsets() {
    for &(col, row, rx, ry) in &[(0u32, 0u32, 0u64, 0u64), (3, 7, 250, 999), (11, 2, 19_999, 1)] {
        let tp = TilePosition::new(col, row, rx, ry);
        let wp = tp.to_world_position(TILE_SIZE);
        assert_eq!(wp.to_tile_position(TILE_SIZE), Some(tp));
    }
}

#[test]
fn world_outside_quadrant_has_no_tile() {
    assert_eq!(WorldPosition::new(-1, 0, 0).to_tile_position(1), None);
    assert_eq!(WorldPosition::new(0, 0, 1).to_tile_position(1), None);
    assert!(WorldPosition::new(0, 0, 0).to_tile_position(1).is_some());
}

#[test]
fn top_left_is_half_a_tile_back() {
    let tp = TilePosition::centered(2, 3, 4);
    assert_eq!(tp.to_world_position_top_left(4), WorldPosition::new(steps(8), 0, steps(-12)));
}

#[test]
fn tile_indices() {
    let tp = TilePosition::origin(3, 2);
    assert_eq!(tp.tile_idx(10), 23);
    assert_eq!(TilePosition::from_tile_idx(10, 23), tp);
    assert_eq!(TilePosition::from_tile_idx(10, 7), TilePosition::origin(7, 0));
    assert_eq!(TilePosition::from_tile_idx_centered(10, 2, 23), TilePosition::centered(3, 2, 2));
    assert!(tp.is_same_tile(&TilePosition::new(3, 2, 5, 6)));
    assert!(!tp.is_same_tile(&TilePosition::origin(2, 3)));
}

#[test]
fn converter() {
    let c = PositionConverter::new(2);
    let wp = c.translation_from_col_row((3, 4));
    assert_eq!(wp, WorldPosition::new(steps(7), 0, steps(-9)));
    assert_eq!(c.tile_from_translation(&wp), Some(TilePosition::centered(3, 4, 2)));
    assert_eq!(c.translation_from_tile(&TilePosition::origin(1, 1)), WorldPosition::new(steps(2), 0, steps(-2)));
}
