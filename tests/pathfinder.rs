use tiled_arena::{find_path, Arena, Tilemap, Tilepath};

#[test]
fn straight_path() {
    let grid = Tilepath::all_valid(4, 4);
    let path = find_path(&grid.valid_tiles, false, (0, 0), (2, 0));
    assert_eq!(path, Some(vec![(1, 0), (2, 0)]));
}

#[test]
fn no_self_path() {
    let grid = Tilepath::all_valid(3, 3);
    assert_eq!(find_path(&grid.valid_tiles, false, (1, 1), (1, 1)), None);
    assert_eq!(find_path(&grid.valid_tiles, true, (1, 1), (1, 1)), None);
}

#[test]
fn disconnected_has_no_path() {
    // column 1 is a wall from bottom to top
    let grid = Tilepath::with_invalids(3, 3, vec![(1, 0), (1, 1), (1, 2)]);
    assert_eq!(find_path(&grid.valid_tiles, false, (0, 0), (2, 2)), None);
    assert_eq!(find_path(&grid.valid_tiles, true, (0, 0), (2, 2)), None);
}

#[test]
fn detour_around_wall() {
    let grid = Tilepath::with_invalids(3, 3, vec![(1, 0), (1, 1)]);
    let path = find_path(&grid.valid_tiles, false, (0, 0), (2, 0)).unwrap();
    assert_eq!(path.len(), 6);
    assert_eq!(path.last(), Some(&(2, 0)));
    let path = find_path(&grid.valid_tiles, true, (0, 0), (2, 0)).unwrap();
    assert_eq!(path.len(), 4);
}

#[test]
fn diagonals_shorten_paths() {
    let grid = Tilepath::all_valid(5, 5);
    let straight = find_path(&grid.valid_tiles, false, (0, 0), (4, 4)).unwrap();
    let diagonal = find_path(&grid.valid_tiles, true, (0, 0), (4, 4)).unwrap();
    assert_eq!(straight.len(), 8);
    assert_eq!(diagonal, vec![(1, 1), (2, 2), (3, 3), (4, 4)]);
}

#[test]
fn path_steps_are_neighbours() {
    let grid = Tilepath::with_invalids(6, 4, vec![(2, 0), (2, 1), (2, 2), (4, 3), (4, 2), (4, 1)]);
    let path = find_path(&grid.valid_tiles, false, (0, 0), (5, 0)).unwrap();
    let mut prev = (0u32, 0u32);
    for &(c, r) in &path {
        let d = (c as i64 - prev.0 as i64).abs() + (r as i64 - prev.1 as i64).abs();
        assert_eq!(d, 1);
        assert!(grid.is_valid(c, r));
        prev = (c, r);
    }
    assert_eq!(prev, (5, 0));
    // five columns across, three rows up over the first wall and three down
    assert_eq!(path.len(), 5 + 3 + 3);
}

#[test]
fn goal_on_wall_unreachable() {
    let grid = Tilepath::with_invalids(3, 1, vec![(2, 0)]);
    assert_eq!(find_path(&grid.valid_tiles, true, (0, 0), (2, 0)), None);
    assert_eq!(find_path(&grid.valid_tiles, true, (0, 0), (1, 0)), Some(vec![(1, 0)]));
}

#[test]
fn path_on_parsed_arena() {
    let terrain = "
=======
=p    =
= === =
=     =
=======
";
    let arena = Arena::from_tilemap(Tilemap::new(terrain, 1).unwrap());
    let tilepath = Tilepath::from_arena(&arena);
    assert!(tilepath.is_valid(1, 3));
    assert!(!tilepath.is_valid(2, 2));
    let path = find_path(&tilepath.valid_tiles, false, (1, 3), (5, 1)).unwrap();
    assert_eq!(path.len(), 6);
    assert_eq!(find_path(&tilepath.valid_tiles, false, (1, 3), (1, 1)), Some(vec![(1, 2), (1, 1)]));
}
