use tiled_arena::{
    create_tile_caster, find_shot, PositionConverter, Shot, Sniper, TilePosition, Tilepath,
    WorldPosition,
};

fn round(n: f32, decimals: usize) -> f32 {
    let factor = 10_u64.pow(decimals as u32) as f64;
    ((f64::from(n) * factor).round() / factor) as f32
}

// distance in tiles and direction in degrees, counter clockwise from +x
fn degrees(shot: &Shot) -> (f32, f32) {
    let dx = shot.dx as f64;
    let dy = shot.dy as f64;
    let distance = (dx * dx + dy * dy).sqrt() / shot.steps_per_tile as f64;
    let mut angle = dy.atan2(dx).to_degrees();
    if angle < 0.0 {
        angle += 360.0;
    }
    (round(distance as f32, 3), round(angle as f32, 1))
}

fn assert_shot_eq(actual: Option<Shot>, expected: (f32, f32)) {
    let shot = degrees(&actual.expect("Expected some shot"));
    assert_eq!(shot.0, expected.0);
    assert_eq!(shot.1, expected.1);
}

// offsets given in tenths of a tile of one world unit
fn at(col: u32, row: u32, rel_x: u64, rel_y: u64) -> TilePosition {
    TilePosition::new(col, row, rel_x, rel_y)
}

#[test]
fn clear_shot() {
    let (ncols, nrows) = (4, 4);
    let tile_size = 1;
    let tile_path = Tilepath::all_valid(ncols as usize, nrows as usize);
    let tc = create_tile_caster(ncols, nrows, tile_size);

    let origin = at(0, 0, 500, 500);
    let target = at(1, 1, 500, 500);
    assert_shot_eq(find_shot(&tc, &tile_path, &origin, &target), (1.414, 45.0));

    let origin = at(3, 3, 250, 250);
    let target = at(1, 1, 500, 500);
    assert_shot_eq(find_shot(&tc, &tile_path, &origin, &target), (2.475, 225.0));
}

#[test]
fn obstacled_shot() {
    let (ncols, nrows) = (8, 8);
    let tile_size = 1;
    let tile_path = Tilepath::with_invalids(ncols as usize, nrows as usize, vec![(0, 4), (4, 0), (6, 6)]);

    let tc = create_tile_caster(ncols, nrows, tile_size);

    let origin = at(0, 0, 500, 500);
    let target = at(1, 1, 500, 500);
    assert_shot_eq(find_shot(&tc, &tile_path, &origin, &target), (1.414, 45.0));

    // target on same tile as obstacle is treated as reachable
    let target = at(0, 4, 500, 500);
    assert_shot_eq(find_shot(&tc, &tile_path, &origin, &target), (4.0, 90.0));

    let target = at(0, 5, 500, 500);
    assert_eq!(find_shot(&tc, &tile_path, &origin, &target), None);

    let target = at(3, 0, 100, 100);
    assert_shot_eq(find_shot(&tc, &tile_path, &origin, &target), (2.631, 351.3));

    let target = at(5, 0, 100, 100);
    assert_eq!(find_shot(&tc, &tile_path, &origin, &target), None);

    let target = at(5, 5, 900, 900);
    assert_shot_eq(find_shot(&tc, &tile_path, &origin, &target), (7.637, 45.0));

    let target = at(7, 7, 900, 900);
    assert_eq!(find_shot(&tc, &tile_path, &origin, &target), None);

    let target = at(5, 7, 900, 900);
    assert_shot_eq(find_shot(&tc, &tile_path, &origin, &target), (9.161, 53.9));
}

#[test]
fn shot_within_one_tile() {
    let tile_path = Tilepath::with_invalids(2, 2, vec![(1, 1)]);
    let tc = create_tile_caster(2, 2, 1);
    // the shooter's own cell cannot be walked on, the target shares it
    let shot = find_shot(&tc, &tile_path, &at(1, 1, 100, 100), &at(1, 1, 400, 500)).unwrap();
    assert_eq!((shot.dx, shot.dy, shot.steps_per_tile), (300, 400, 1000));
    let shot = find_shot(&tc, &tile_path, &at(0, 0, 500, 500), &at(0, 0, 500, 500)).unwrap();
    assert_eq!((shot.dx, shot.dy), (0, 0));
}

#[test]
fn shot_vector_scales_with_tile_size() {
    let tile_path = Tilepath::all_valid(3, 3);
    let tc = create_tile_caster(3, 3, 2);
    let shot = find_shot(&tc, &tile_path, &at(0, 0, 1000, 1000), &at(2, 1, 1000, 1000)).unwrap();
    assert_eq!((shot.dx, shot.dy, shot.steps_per_tile), (4000, 2000, 2000));
}

#[test]
fn blocked_through_wall_row() {
    // a wall across column 1 but for the top cell
    let tile_path = Tilepath::with_invalids(3, 3, vec![(1, 0), (1, 1)]);
    let tc = create_tile_caster(3, 3, 1);
    assert_eq!(find_shot(&tc, &tile_path, &at(0, 0, 500, 500), &at(2, 0, 500, 500)), None);
    assert!(find_shot(&tc, &tile_path, &at(0, 2, 500, 500), &at(2, 2, 500, 500)).is_some());
    // crosses into (1, 1) before it rises to row 2
    assert!(find_shot(&tc, &tile_path, &at(0, 1, 500, 500), &at(2, 2, 500, 500)).is_none());
}

#[test]
fn sniper_range_and_world_points() {
    let tile_path = Tilepath::all_valid(4, 4);
    let sniper = Sniper::new(create_tile_caster(4, 4, 1), PositionConverter::new(1));
    let origin = WorldPosition::new(500, 0, -500);
    let target = WorldPosition::new(1500, 0, -1500);
    let shot = sniper.find_shot(&tile_path, &origin, &target, None).unwrap();
    assert_eq!((shot.dx, shot.dy), (1000, 1000));
    // the distance is a little over 1414 steps
    assert_eq!(sniper.find_shot(&tile_path, &origin, &target, Some(1414)), None);
    assert!(sniper.find_shot(&tile_path, &origin, &target, Some(1415)).is_some());
    // outside the tiled quadrant, and outside the grid
    assert_eq!(sniper.find_shot(&tile_path, &WorldPosition::new(-1, 0, -500), &target, None), None);
    assert_eq!(sniper.find_shot(&tile_path, &origin, &WorldPosition::new(4500, 0, -500), None), None);
}
