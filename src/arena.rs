use vstd::arithmetic::div_mod::lemma_fundamental_div_mod_converse;
use vstd::arithmetic::mul::{lemma_mul_inequality, lemma_mul_is_distributive_add_other_way};
use vstd::prelude::*;
use crate::position::{centered_at, TilePosition};
use crate::levels::Levels;
use crate::tilemap::{is_floor, needs_floor_tile, ParseError, Tile, Tilemap};

verus! {

/// The playing field of one level: where floors and walls stand and where the
/// player starts.
#[derive(Debug)]
pub struct Arena {
    pub floor_tiles: Vec<TilePosition>,
    pub walls: Vec<TilePosition>,
    pub player: TilePosition,
    pub ncols: u32,
    pub nrows: u32,
}

/// The center of the cell at index `k` of a row major grid.
pub open spec fn cell_center(ncols: u32, tile_size: u32, k: int) -> TilePosition {
    centered_at((k % ncols as int) as u32, (k / ncols as int) as u32, tile_size)
}

/// The centers of the walkable cells before index `n`, in index order.
pub open spec fn floor_cells(tiles: Seq<Tile>, ncols: u32, tile_size: u32, n: int) -> Seq<
    TilePosition,
>
    decreases n,
{
    if n <= 0 {
        Seq::empty()
    } else {
        let prev = floor_cells(tiles, ncols, tile_size, n - 1);
        if is_floor(tiles[n - 1]) {
            prev.push(cell_center(ncols, tile_size, n - 1))
        } else {
            prev
        }
    }
}

/// The centers of the wall cells before index `n`, in index order.
pub open spec fn wall_cells(tiles: Seq<Tile>, ncols: u32, tile_size: u32, n: int) -> Seq<
    TilePosition,
>
    decreases n,
{
    if n <= 0 {
        Seq::empty()
    } else {
        let prev = wall_cells(tiles, ncols, tile_size, n - 1);
        if tiles[n - 1] is Wall {
            prev.push(cell_center(ncols, tile_size, n - 1))
        } else {
            prev
        }
    }
}

/// The index of the last `Player` cell before index `n`.
pub open spec fn last_player(tiles: Seq<Tile>, n: int) -> Option<int>
    decreases n,
{
    if n <= 0 {
        None
    } else if tiles[n - 1] is Player {
        Some(n - 1)
    } else {
        last_player(tiles, n - 1)
    }
}

/// The terrain holds a player start.
pub open spec fn has_player(tm: Tilemap) -> bool {
    exists|k: int| 0 <= k < tm.tiles@.len() && (#[trigger] tm.tiles@[k]) is Player
}

proof fn lemma_last_player_found(tiles: Seq<Tile>, n: int, k: int)
    requires
        0 <= k < n <= tiles.len(),
        tiles[k] is Player,
    ensures
        last_player(tiles, n) is Some,
    decreases n,
{
    if !(tiles[n - 1] is Player) {
        lemma_last_player_found(tiles, n - 1, k);
    }
}

/// Why a level could not be loaded.
#[derive(Clone, Copy, Debug, PartialEq, Eq, Structural)]
pub enum LoadError {
    /// No level of that name is registered.
    UnknownLevel,
    /// The level's terrain does not parse.
    Parse(ParseError),
    /// The level's terrain has no player start.
    MissingPlayer,
}

/// `a` is the arena that `tm` describes.
pub open spec fn arena_of(tm: Tilemap, a: Arena) -> bool {
    &&& a.ncols == tm.ncols
    &&& a.nrows == tm.nrows
    &&& a.floor_tiles@ == floor_cells(tm.tiles@, tm.ncols, tm.tile_size, tm.tiles@.len() as int)
    &&& a.walls@ == wall_cells(tm.tiles@, tm.ncols, tm.tile_size, tm.tiles@.len() as int)
    &&& last_player(tm.tiles@, tm.tiles@.len() as int) matches Some(k) && a.player
        == cell_center(tm.ncols, tm.tile_size, k)
    &&& a.wf()
}

/// `a` is the arena of the terrain text `terrain` with tiles of `tile_size`.
pub open spec fn arena_of_text(terrain: Seq<char>, tile_size: u32, a: Arena) -> bool {
    exists|tm: Tilemap|
        tm.parsed_from(terrain) && tm.tile_size == tile_size && #[trigger] arena_of(tm, a)
}

fn find_player(tm: &Tilemap) -> (r: bool)
    ensures
        r == has_player(*tm),
{
    let mut k: usize = 0;
    while k < tm.tiles.len()
        invariant
            k <= tm.tiles@.len(),
            forall|j: int| 0 <= j < k ==> !(#[trigger] tm.tiles@[j] is Player),
        decreases tm.tiles@.len() - k,
    {
        if let Tile::Player = tm.tiles[k] {
            return true;
        }
        k = k + 1;
    }
    false
}

impl Arena {
    pub fn new(
        floor_tiles: Vec<TilePosition>,
        walls: Vec<TilePosition>,
        player: TilePosition,
        ncols: u32,
        nrows: u32,
    ) -> (r: Arena)
        ensures
            r == (Arena { floor_tiles, walls, player, ncols, nrows }),
    {
        Arena { floor_tiles, walls, player, ncols, nrows }
    }

    /// Every floor tile, wall and the player lie inside the grid.
    pub open spec fn wf(&self) -> bool {
        &&& forall|i: int|
            0 <= i < self.floor_tiles@.len() ==> (#[trigger] self.floor_tiles@[i]).col < self.ncols
                && self.floor_tiles@[i].row < self.nrows
        &&& forall|i: int|
            0 <= i < self.walls@.len() ==> (#[trigger] self.walls@[i]).col < self.ncols
                && self.walls@[i].row < self.nrows
        &&& self.player.col < self.ncols && self.player.row < self.nrows
    }

    /// The arena of a parsed terrain: a centered floor tile for every walkable
    /// cell and a centered wall for every wall cell, both in row major order,
    /// and the player at the last `Player` cell.
    pub fn from_tilemap(tilemap: Tilemap) -> (r: Arena)
        requires
            tilemap.wf(),
            has_player(tilemap),
        ensures
            r.ncols == tilemap.ncols,
            r.nrows == tilemap.nrows,
            arena_of(tilemap, r),
    {
        let ghost tiles = tilemap.tiles@;
        let ncols = tilemap.ncols;
        let nrows = tilemap.nrows;
        let ts = tilemap.tile_size;
        let n = tilemap.tiles.len();
        let mut floor_tiles: Vec<TilePosition> = Vec::new();
        let mut walls: Vec<TilePosition> = Vec::new();
        let mut player: Option<TilePosition> = None;
        let mut col: u32 = 0;
        let mut row: u32 = 0;
        let mut k: usize = 0;
        proof {
            if n > 0 && ncols == 0 {
                assert(nrows * ncols == 0) by (nonlinear_arith)
                    requires
                        ncols == 0,
                ;
            }
        }
        while k < n
            invariant
                tiles == tilemap.tiles@,
                n == tiles.len() == nrows * ncols,
                ncols == tilemap.ncols,
                nrows == tilemap.nrows,
                ts == tilemap.tile_size,
                k <= n,
                k == row * ncols + col,
                k < n ==> col < ncols,
                floor_tiles@ == floor_cells(tiles, ncols, ts, k as int),
                walls@ == wall_cells(tiles, ncols, ts, k as int),
                player == match last_player(tiles, k as int) {
                    Some(j) => Some(cell_center(ncols, ts, j)),
                    None => None::<TilePosition>,
                },
                forall|i: int|
                    0 <= i < floor_tiles@.len() ==> (#[trigger] floor_tiles@[i]).col < ncols
                        && floor_tiles@[i].row < nrows,
                forall|i: int|
                    0 <= i < walls@.len() ==> (#[trigger] walls@[i]).col < ncols
                        && walls@[i].row < nrows,
                player matches Some(p) ==> p.col < ncols && p.row < nrows,
            decreases n - k,
        {
            proof {
                lemma_fundamental_div_mod_converse(k as int, ncols as int, row as int, col as int);
                if row >= nrows {
                    lemma_mul_inequality(nrows as int, row as int, ncols as int);
                }
            }
            let tile = &tilemap.tiles[k];
            let here = TilePosition::centered(col, row, ts);
            if needs_floor_tile(tile) {
                floor_tiles.push(here);
            }
            match tile {
                Tile::Wall => walls.push(here),
                Tile::Player => player = Some(here),
                Tile::OutOfBounds
                | Tile::Empty
                | Tile::Hole
                | Tile::Medkit
                | Tile::Shield
                | Tile::Bomb
                | Tile::Teleport1
                | Tile::Teleport2
                | Tile::Teleport3
                | Tile::Teleport4
                | Tile::Teleport5
                | Tile::Teleport6
                | Tile::Teleport7
                | Tile::Teleport8 => {},
            }
            k = k + 1;
            if col + 1 == ncols {
                proof {
                    lemma_mul_is_distributive_add_other_way(ncols as int, row as int, 1);
                }
                col = 0;
                row = row + 1;
            } else {
                col = col + 1;
            }
        }
        proof {
            let j = choose|j: int| 0 <= j < tiles.len() && (#[trigger] tiles[j]) is Player;
            lemma_last_player_found(tiles, n as int, j);
        }
        match player {
            Some(p) => Arena::new(floor_tiles, walls, p, ncols, nrows),
            None => Arena::new(floor_tiles, walls, TilePosition::origin(0, 0), ncols, nrows),
        }
    }
}


impl Arena {
    /// The arena of the level named `level_name`.
    pub fn for_level(levels: &Levels, level_name: &str, tile_size: u32) -> (r: Result<
        Arena,
        LoadError,
    >)
        ensures
            r == Err::<Arena, LoadError>(LoadError::UnknownLevel) <==> levels.level_named(
                level_name@,
            ) is None,
            r matches Err(LoadError::Parse(e)) ==> levels.level_named(level_name@) is Some
                && Tilemap::new_failure(levels.level_named(level_name@)->Some_0.terrain@, e),
            r matches Err(LoadError::MissingPlayer) ==> exists|tm: Tilemap|
                tm.parsed_from(levels.level_named(level_name@)->Some_0.terrain@)
                    && !has_player(tm),
            r matches Ok(a) ==> arena_of_text(levels.level_named(level_name@)->Some_0.terrain@, tile_size, a),
            (r matches Err(LoadError::Parse(_))) <==> (levels.level_named(level_name@) is Some
                && !Tilemap::parses(levels.level_named(level_name@)->Some_0.terrain@)),
    {
        let level = match levels.get_level(level_name) {
            Some(l) => l,
            None => return Err(LoadError::UnknownLevel),
        };
        let tilemap = match Tilemap::new(level.terrain, tile_size) {
            Ok(tm) => tm,
            Err(e) => return Err(LoadError::Parse(e)),
        };
        if !find_player(&tilemap) {
            return Err(LoadError::MissingPlayer);
        }
        let ghost tm = tilemap;
        let a = Arena::from_tilemap(tilemap);
        assert(arena_of(tm, a));
        assert(tm.parsed_from(levels.level_named(level_name@)->Some_0.terrain@));
        assert(tm.tile_size == tile_size);
        assert(arena_of_text(levels.level_named(level_name@)->Some_0.terrain@, tile_size, a));
        Ok(a)
    }
}

} // verus!
