use tiled_arena::{needs_floor_tile, ParseError, Tile, Tilemap};

#[test]
fn valid_terrain() {
    let terrain = "


=======================
=         p           =
=                     =
=====           p =====
=     ====        =
=     =  =        =
=     ====        =
=====              =======
=   +   p       p        =
=                     ====
=======================

";
    let tilemap = Tilemap::new(terrain, 24).expect("should produce a tilemap");
    println!("tilemap {:?}", tilemap);
}

fn tile(tm: &Tilemap, col: u32, row: u32) -> Tile {
    tm.tiles[(row * tm.ncols + col) as usize]
}

#[test]
fn parse_flips_rows_and_pads_columns() {
    let tm = Tilemap::new("\n===\n=p=\n=====\n", 3).unwrap();
    assert_eq!(tm.nrows, 3);
    assert_eq!(tm.ncols, 5);
    assert_eq!(tm.tile_size, 3);
    assert_eq!(tm.tiles.len(), 15);
    // the last text line is row 0
    assert_eq!(tile(&tm, 4, 0), Tile::Wall);
    assert_eq!(tile(&tm, 1, 1), Tile::Player);
    // beyond a short line's end
    assert_eq!(tile(&tm, 3, 1), Tile::OutOfBounds);
    assert_eq!(tile(&tm, 3, 2), Tile::OutOfBounds);
    assert_eq!(tile(&tm, 0, 2), Tile::Wall);
}

#[test]
fn parse_reads_only_between_outer_walls() {
    // characters outside the first and last `=` are not read
    let tm = Tilemap::new("ab=1 s=cd\n", 1).unwrap();
    assert_eq!(tm.ncols, 9);
    assert_eq!(tile(&tm, 0, 0), Tile::OutOfBounds);
    assert_eq!(tile(&tm, 1, 0), Tile::OutOfBounds);
    assert_eq!(tile(&tm, 2, 0), Tile::Wall);
    assert_eq!(tile(&tm, 3, 0), Tile::Teleport1);
    assert_eq!(tile(&tm, 4, 0), Tile::Empty);
    assert_eq!(tile(&tm, 5, 0), Tile::Shield);
    assert_eq!(tile(&tm, 6, 0), Tile::Wall);
    assert_eq!(tile(&tm, 7, 0), Tile::OutOfBounds);
}

#[test]
fn parse_row_with_one_wall_runs_to_its_end() {
    let tm = Tilemap::new("  =+b", 1).unwrap();
    assert_eq!(tile(&tm, 1, 0), Tile::OutOfBounds);
    assert_eq!(tile(&tm, 2, 0), Tile::Wall);
    assert_eq!(tile(&tm, 3, 0), Tile::Medkit);
    assert_eq!(tile(&tm, 4, 0), Tile::Bomb);
}

#[test]
fn parse_unknown_char_is_named() {
    assert_eq!(Tilemap::new("=p q=\n", 1).unwrap_err(), ParseError::UnknownChar('q'));
    // outside the span it is ignored
    assert!(Tilemap::new("q=p =\n", 1).is_ok());
}

#[test]
fn parse_stops_at_first_blank_line() {
    let tm = Tilemap::new("\n\n=p=\n=x=\n   \n=?=\n", 1).unwrap();
    assert_eq!(tm.nrows, 2);
    assert_eq!(tile(&tm, 1, 0), Tile::Hole);
    assert_eq!(tile(&tm, 1, 1), Tile::Player);
}

#[test]
fn parse_crlf_lines() {
    let tm = Tilemap::new("=p=\r\n=2=\r\n", 1).unwrap();
    assert_eq!(tm.ncols, 3);
    assert_eq!(tile(&tm, 1, 0), Tile::Teleport2);
}

#[test]
fn parse_empty_text() {
    let tm = Tilemap::new("", 1).unwrap();
    assert_eq!(tm.nrows, 0);
    assert_eq!(tm.ncols, 0);
    assert!(tm.tiles.is_empty());
}

#[test]
fn parse_is_deterministic() {
    let text = "=====\n=p 8=\n=+xs=\n=====\n";
    let a = Tilemap::new(text, 2).unwrap();
    let b = Tilemap::new(text, 2).unwrap();
    assert_eq!(a.tiles, b.tiles);
    assert_eq!((a.nrows, a.ncols, a.tile_size), (b.nrows, b.ncols, b.tile_size));
}

#[test]
fn floor_tile_table() {
    assert!(!needs_floor_tile(&Tile::OutOfBounds));
    assert!(!needs_floor_tile(&Tile::Wall));
    assert!(!needs_floor_tile(&Tile::Hole));
    assert!(needs_floor_tile(&Tile::Empty));
    assert!(needs_floor_tile(&Tile::Player));
    assert!(needs_floor_tile(&Tile::Teleport8));
}

#[test]
fn written_out_map() {
    let text = "====\n=p =\n====\n";
    assert_eq!(Tilemap::new(text, 1).unwrap().to_string(), text);
    let tm = Tilemap::new("=p=\n=====\n", 1).unwrap();
    assert_eq!(tm.to_string(), "=p=XX\n=====\n");
}
