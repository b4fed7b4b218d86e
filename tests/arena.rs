use tiled_arena::{Arena, LoadError, Levels, ParseError, TilePosition, Tilemap};

const TILE_SIZE: u32 = 2;
// half a tile of two world units, in steps
const CENTER: u64 = 1000;

#[test]
fn floor_tiles() {
    let small_terrain = "
====
=p =
====
";

    let tilemap = Tilemap::new(small_terrain, TILE_SIZE).expect("should return correct tilemap");
    let arena = Arena::from_tilemap(tilemap);
    let floor_tiles = &arena.floor_tiles;
    assert_eq!(floor_tiles.len(), 2, "has two floor tiles");

    let tile0 = floor_tiles.get(0).unwrap();
    let tile1 = floor_tiles.get(1).unwrap();
    assert_eq!(tile0, &TilePosition::new(1, 1, CENTER, CENTER), "tile0");
    assert_eq!(tile1, &TilePosition::new(2, 1, CENTER, CENTER), "tile1");
}

#[test]
fn walls_and_player() {
    let tilemap = Tilemap::new("====\n=p =\n====\n", 1).unwrap();
    let arena = Arena::from_tilemap(tilemap);
    assert_eq!(arena.walls.len(), 10);
    assert_eq!(arena.walls[0], TilePosition::centered(0, 0, 1));
    assert_eq!(arena.player, TilePosition::new(1, 1, 500, 500));
    assert_eq!((arena.ncols, arena.nrows), (4, 3));
}

#[test]
fn last_player_wins() {
    let tilemap = Tilemap::new("=p=\n=p=\n", 1).unwrap();
    let arena = Arena::from_tilemap(tilemap);
    // row 1 is the first text line, visited last
    assert_eq!(arena.player.col_row(), (1, 1));
}

#[test]
fn load_levels() {
    let mut levels = Levels::new();
    assert!(!levels.is_valid_level("mini"));
    levels.add_level("mini", "===\n=p=\n===\n");
    levels.add_level("broken", "=?=\n");
    levels.add_level("empty", "===\n= =\n===\n");
    assert!(levels.is_valid_level("mini"));
    assert_eq!(levels.get_level("mini").unwrap().name, "mini");

    let arena = Arena::for_level(&levels, "mini", 1).unwrap();
    assert_eq!(arena.player.col_row(), (1, 1));
    assert_eq!(arena.floor_tiles.len(), 1);

    assert_eq!(Arena::for_level(&levels, "nope", 1).unwrap_err(), LoadError::UnknownLevel);
    assert_eq!(
        Arena::for_level(&levels, "broken", 1).unwrap_err(),
        LoadError::Parse(ParseError::UnknownChar('?'))
    );
    assert_eq!(Arena::for_level(&levels, "empty", 1).unwrap_err(), LoadError::MissingPlayer);
}

#[test]
fn add_level_replaces() {
    let mut levels = Levels::new();
    levels.add_level("a", "=p=\n");
    levels.add_level("a", "=p =\n");
    let arena = Arena::for_level(&levels, "a", 1).unwrap();
    assert_eq!(arena.ncols, 4);
}
