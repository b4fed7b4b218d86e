use vstd::arithmetic::div_mod::{
    lemma_fundamental_div_mod, lemma_fundamental_div_mod_converse,
};
use vstd::arithmetic::mul::lemma_mul_inequality;
use vstd::prelude::*;

verus! {

/// Sub-tile offsets and world coordinates are whole numbers of steps; one
/// world unit is this many steps.
pub const SUBDIVISIONS: u32 = 1000;

/// Steps along one side of a tile of `tile_size` world units.
pub open spec fn tile_extent(tile_size: u32) -> int {
    tile_size * SUBDIVISIONS
}

/// Largest world coordinate: positions are held in `i64`.
pub open spec fn world_limit() -> int {
    i64::MAX as int
}

/// A tile coordinate with an offset inside the tile, counted in steps from
/// the tile's lower left corner.
#[derive(Clone, Copy, Debug, PartialEq, Eq, Structural)]
pub struct TilePosition {
    pub col: u32,
    pub row: u32,
    pub rel_x: u64,
    pub rel_y: u64,
}

/// A point in world space, in steps. The ground is the plane `y == 0`;
/// tile rows grow along `-z`.
#[derive(Clone, Copy, Debug, PartialEq, Eq, Structural)]
pub struct WorldPosition {
    pub x: i64,
    pub y: i64,
    pub z: i64,
}

/// An axis aligned rectangle on the ground, in steps.
#[derive(Clone, Copy, Debug, PartialEq, Eq, Structural)]
pub struct WorldRect {
    pub left: i64,
    pub bottom: i64,
    pub right: i64,
    pub top: i64,
}

/// Distance of a position from the origin along the columns, in steps.
pub open spec fn world_x(tp: TilePosition, tile_size: u32) -> int {
    tp.col * tile_extent(tile_size) + tp.rel_x
}

/// Distance of a position from the origin along the rows, in steps.
pub open spec fn world_depth(tp: TilePosition, tile_size: u32) -> int {
    tp.row * tile_extent(tile_size) + tp.rel_y
}

/// Both world coordinates of `tp` fit in an `i64`.
pub open spec fn fits_world(tp: TilePosition, tile_size: u32) -> bool {
    world_x(tp, tile_size) <= world_limit() && world_depth(tp, tile_size) <= world_limit()
}

/// The offsets of `tp` lie inside its tile.
pub open spec fn offsets_in_tile(tp: TilePosition, tile_size: u32) -> bool {
    tp.rel_x < tile_extent(tile_size) && tp.rel_y < tile_extent(tile_size)
}

pub open spec fn tile_to_world(tp: TilePosition, tile_size: u32) -> WorldPosition {
    WorldPosition {
        x: world_x(tp, tile_size) as i64,
        y: 0,
        z: (-world_depth(tp, tile_size)) as i64,
    }
}

/// The tile that holds a world point and the offset inside it; none for a
/// point with `x < 0` or `z > 0`, or one whose column or row passes `u32::MAX`.
pub open spec fn world_to_tile(wp: WorldPosition, tile_size: u32) -> Option<TilePosition> {
    let e = tile_extent(tile_size);
    let x = wp.x as int;
    let depth = -(wp.z as int);
    if x < 0 || depth < 0 || x / e > u32::MAX || depth / e > u32::MAX {
        None
    } else {
        Some(
            TilePosition {
                col: (x / e) as u32,
                row: (depth / e) as u32,
                rel_x: (x % e) as u64,
                rel_y: (depth % e) as u64,
            },
        )
    }
}

/// Half the side of a tile, in steps.
pub open spec fn half_extent(tile_size: u32) -> u64 {
    (tile_size * (SUBDIVISIONS / 2)) as u64
}

/// The center of tile (`col`, `row`).
pub open spec fn centered_at(col: u32, row: u32, tile_size: u32) -> TilePosition {
    TilePosition { col, row, rel_x: half_extent(tile_size), rel_y: half_extent(tile_size) }
}

impl TilePosition {
    pub fn new(col: u32, row: u32, rel_x: u64, rel_y: u64) -> (r: TilePosition)
        ensures
            r == (TilePosition { col, row, rel_x, rel_y }),
    {
        TilePosition { col, row, rel_x, rel_y }
    }

    pub fn col_row(&self) -> (r: (u32, u32))
        ensures
            r == (self.col, self.row),
    {
        (self.col, self.row)
    }

    /// The center of tile (`col`, `row`).
    pub fn centered(col: u32, row: u32, tile_size: u32) -> (r: TilePosition)
        ensures
            r == centered_at(col, row, tile_size),
            2 * r.rel_x == tile_extent(tile_size),
    {
        assert(tile_size * 500 <= u32::MAX * 500) by (nonlinear_arith)
            requires
                tile_size <= u32::MAX,
        ;
        let half = (tile_size as u64) * ((SUBDIVISIONS / 2) as u64);
        TilePosition::new(col, row, half, half)
    }

    /// The lower left corner of tile (`col`, `row`).
    pub fn origin(col: u32, row: u32) -> (r: TilePosition)
        ensures
            r == (TilePosition { col, row, rel_x: 0, rel_y: 0 }),
    {
        TilePosition::new(col, row, 0, 0)
    }

    pub fn to_world_position(&self, tile_size: u32) -> (r: WorldPosition)
        requires
            fits_world(*self, tile_size),
        ensures
            r == tile_to_world(*self, tile_size),
    {
        WorldPosition::from_tile_position(self, tile_size)
    }

    pub fn to_world_position_top_left(&self, tile_size: u32) -> (r: WorldPosition)
        requires
            fits_world(*self, tile_size),
        ensures
            r.x == world_x(*self, tile_size) - tile_extent(tile_size) / 2,
            r.y == 0,
            r.z == tile_extent(tile_size) / 2 - world_depth(*self, tile_size),
    {
        WorldPosition::from_tile_position_top_left(self, tile_size)
    }

    pub fn to_world_rect(&self, tile_size: u32) -> (r: WorldRect)
        requires
            world_x(*self, tile_size) + tile_extent(tile_size) <= world_limit(),
            world_depth(*self, tile_size) + tile_extent(tile_size) <= world_limit(),
        ensures
            r == world_rect(tile_to_world(*self, tile_size), tile_size),
    {
        proof {
            lemma_world_coordinates(*self, tile_size);
        }
        WorldPosition::from_tile_position(self, tile_size).to_rect(tile_size)
    }

    /// Index of this tile in a row major grid with `ncols` columns.
    pub fn tile_idx(&self, ncols: u32) -> (r: u32)
        requires
            self.row * ncols + self.col <= u32::MAX,
        ensures
            r == self.row * ncols + self.col,
    {
        proof {
            assert(0 <= self.row * ncols) by (nonlinear_arith);
            assert(self.row * ncols <= u32::MAX);
        }
        self.row * ncols + self.col
    }

    /// The tile at `idx` in a row major grid with `ncols` columns, at its lower
    /// left corner.
    pub fn from_tile_idx(ncols: u32, idx: u32) -> (r: TilePosition)
        requires
            ncols > 0,
        ensures
            r.rel_x == 0 && r.rel_y == 0,
            r.col < ncols,
            r.row * ncols + r.col == idx,
    {
        let row = idx / ncols;
        let col = idx % ncols;
        proof {
            lemma_fundamental_div_mod(idx as int, ncols as int);
            assert(row * ncols == ncols * row) by (nonlinear_arith);
        }
        TilePosition::origin(col, row)
    }

    /// The tile at `idx` in a row major grid with `ncols` columns, at its center.
    pub fn from_tile_idx_centered(ncols: u32, tile_size: u32, idx: u32) -> (r: TilePosition)
        requires
            ncols > 0,
        ensures
            r.col < ncols,
            r.row * ncols + r.col == idx,
            r == centered_at(r.col, r.row, tile_size),
    {
        let tp = TilePosition::from_tile_idx(ncols, idx);
        TilePosition::centered(tp.col, tp.row, tile_size)
    }

    /// Whether both positions lie in the same tile, whatever their offsets.
    pub fn is_same_tile(&self, other: &TilePosition) -> (r: bool)
        ensures
            r == (self.col == other.col && self.row == other.row),
    {
        self.col == other.col && self.row == other.row
    }
}

/// The square of side `tile_extent(tile_size)` around `wp`, whose half side is
/// taken in whole world units.
pub open spec fn world_rect(wp: WorldPosition, tile_size: u32) -> WorldRect {
    let half = (tile_size / 2) * SUBDIVISIONS;
    let left = wp.x - half;
    let bottom = -wp.z - half;
    WorldRect {
        left: left as i64,
        bottom: bottom as i64,
        right: (left + tile_extent(tile_size)) as i64,
        top: (bottom + tile_extent(tile_size)) as i64,
    }
}

proof fn lemma_world_coordinates(tp: TilePosition, tile_size: u32)
    requires
        fits_world(tp, tile_size),
    ensures
        0 <= tp.col * tile_extent(tile_size) <= world_x(tp, tile_size),
        0 <= tp.row * tile_extent(tile_size) <= world_depth(tp, tile_size),
        0 <= tile_size * tp.col <= u32::MAX * u32::MAX,
        0 <= tile_size * tp.row <= u32::MAX * u32::MAX,
        tp.col * tile_extent(tile_size) == (tile_size * tp.col) * SUBDIVISIONS,
        tp.row * tile_extent(tile_size) == (tile_size * tp.row) * SUBDIVISIONS,
{
    let e = tile_extent(tile_size);
    assert(0 <= tp.col * e) by (nonlinear_arith)
        requires
            0 <= e,
    ;
    assert(0 <= tp.row * e) by (nonlinear_arith)
        requires
            0 <= e,
    ;
    assert(tp.col * e == (tile_size * tp.col) * SUBDIVISIONS) by (nonlinear_arith)
        requires
            e == tile_size * SUBDIVISIONS,
    ;
    assert(tp.row * e == (tile_size * tp.row) * SUBDIVISIONS) by (nonlinear_arith)
        requires
            e == tile_size * SUBDIVISIONS,
    ;
    lemma_mul_inequality(tile_size as int, u32::MAX as int, tp.col as int);
    lemma_mul_inequality(tp.col as int, u32::MAX as int, u32::MAX as int);
    lemma_mul_inequality(tile_size as int, u32::MAX as int, tp.row as int);
    lemma_mul_inequality(tp.row as int, u32::MAX as int, u32::MAX as int);
    assert(0 <= tile_size * tp.col) by (nonlinear_arith);
    assert(0 <= tile_size * tp.row) by (nonlinear_arith);
}

impl WorldPosition {
    pub fn new(x: i64, y: i64, z: i64) -> (r: WorldPosition)
        ensures
            r == (WorldPosition { x, y, z }),
    {
        WorldPosition { x, y, z }
    }

    /// The point of the ground that `tp` marks: columns along `x`, rows along
    /// `-z`.
    pub fn from_tile_position(tp: &TilePosition, tile_size: u32) -> (r: WorldPosition)
        requires
            fits_world(*tp, tile_size),
        ensures
            r == tile_to_world(*tp, tile_size),
    {
        proof {
            lemma_world_coordinates(*tp, tile_size);
        }
        let x = (tile_size as u64 * tp.col as u64) * (SUBDIVISIONS as u64) + tp.rel_x;
        let depth = (tile_size as u64 * tp.row as u64) * (SUBDIVISIONS as u64) + tp.rel_y;
        WorldPosition::new(x as i64, 0, -(depth as i64))
    }

    /// As `from_tile_position`, moved half a tile towards the origin on both
    /// axes.
    pub fn from_tile_position_top_left(tp: &TilePosition, tile_size: u32) -> (r: WorldPosition)
        requires
            fits_world(*tp, tile_size),
        ensures
            r.x == world_x(*tp, tile_size) - tile_extent(tile_size) / 2,
            r.y == 0,
            r.z == tile_extent(tile_size) / 2 - world_depth(*tp, tile_size),
    {
        let centered = WorldPosition::from_tile_position(tp, tile_size);
        assert(tile_size * 500 <= u32::MAX * 500) by (nonlinear_arith)
            requires
                tile_size <= u32::MAX,
        ;
        let half = (tile_size as i64) * ((SUBDIVISIONS / 2) as i64);
        WorldPosition::new(centered.x - half, 0, centered.z + half)
    }

    /// The tile that holds this point, or none outside the quadrant that tiles
    /// cover (`x >= 0`, `z <= 0`).
    pub fn to_tile_position(&self, tile_size: u32) -> (r: Option<TilePosition>)
        requires
            tile_size > 0,
        ensures
            r == world_to_tile(*self, tile_size),
    {
        if self.x < 0 || self.z > 0 {
            return None;
        }
        let e: u64 = (tile_size as u64) * (SUBDIVISIONS as u64);
        let x = self.x as u64;
        let depth = (-(self.z as i128)) as u64;
        let col = x / e;
        let row = depth / e;
        if col > u32::MAX as u64 || row > u32::MAX as u64 {
            return None;
        }
        Some(TilePosition::new(col as u32, row as u32, x % e, depth % e))
    }

    /// The tile sized square around this point.
    pub fn to_rect(&self, tile_size: u32) -> (r: WorldRect)
        requires
            0 <= self.x,
            self.x + tile_extent(tile_size) <= world_limit(),
            0 <= -self.z,
            -self.z + tile_extent(tile_size) <= world_limit(),
        ensures
            r == world_rect(*self, tile_size),
    {
        assert((tile_size / 2) * 1000 <= tile_size * 1000) by (nonlinear_arith);
        assert(tile_size * 1000 <= u32::MAX * 1000) by (nonlinear_arith)
            requires
                tile_size <= u32::MAX,
        ;
        assert(0 <= (tile_size / 2) * 1000) by (nonlinear_arith);
        let half = ((tile_size / 2) as i64) * (SUBDIVISIONS as i64);
        let side = (tile_size as i64) * (SUBDIVISIONS as i64);
        let left = self.x - half;
        let bottom = -self.z - half;
        WorldRect { left, bottom, right: left + side, top: bottom + side }
    }
}

/// Converts between tiles and world points for one tile size.
#[derive(Clone, Copy, Debug)]
pub struct PositionConverter {
    tile_size: u32,
}

impl PositionConverter {
    pub closed spec fn spec_tile_size(&self) -> u32 {
        self.tile_size
    }

    pub fn new(tile_size: u32) -> (r: PositionConverter)
        requires
            tile_size > 0,
        ensures
            r.spec_tile_size() == tile_size,
    {
        PositionConverter { tile_size }
    }

    pub fn tile_from_translation(&self, pos: &WorldPosition) -> (r: Option<TilePosition>)
        requires
            self.spec_tile_size() > 0,
        ensures
            r == world_to_tile(*pos, self.spec_tile_size()),
    {
        pos.to_tile_position(self.tile_size)
    }

    pub fn translation_from_tile(&self, tp: &TilePosition) -> (r: WorldPosition)
        requires
            fits_world(*tp, self.spec_tile_size()),
        ensures
            r == tile_to_world(*tp, self.spec_tile_size()),
    {
        tp.to_world_position(self.tile_size)
    }

    /// The world point at the center of tile (`col`, `row`).
    pub fn translation_from_col_row(&self, col_row: (u32, u32)) -> (r: WorldPosition)
        requires
            col_row.0 * tile_extent(self.spec_tile_size()) + tile_extent(self.spec_tile_size()) / 2
                <= world_limit(),
            col_row.1 * tile_extent(self.spec_tile_size()) + tile_extent(self.spec_tile_size()) / 2
                <= world_limit(),
        ensures
            r.x == col_row.0 * tile_extent(self.spec_tile_size()) + tile_extent(self.spec_tile_size()) / 2,
            r.y == 0,
            r.z == -(col_row.1 * tile_extent(self.spec_tile_size()) + tile_extent(self.spec_tile_size()) / 2),
    {
        let tp = TilePosition::centered(col_row.0, col_row.1, self.tile_size);
        self.translation_from_tile(&tp)
    }
}


/// A tile position taken to the world and back is the same position, offsets
/// included, whenever its offsets lie inside its tile.
pub proof fn lemma_tile_world_round_trip(tp: TilePosition, tile_size: u32)
    requires
        tile_size > 0,
        offsets_in_tile(tp, tile_size),
        fits_world(tp, tile_size),
    ensures
        world_to_tile(tile_to_world(tp, tile_size), tile_size) == Some(tp),
{
    let e = tile_extent(tile_size);
    lemma_world_coordinates(tp, tile_size);
    assert(tp.col * e == e * tp.col) by (nonlinear_arith);
    assert(tp.row * e == e * tp.row) by (nonlinear_arith);
    lemma_fundamental_div_mod_converse(world_x(tp, tile_size), e, tp.col as int, tp.rel_x as int);
    lemma_fundamental_div_mod_converse(
        world_depth(tp, tile_size),
        e,
        tp.row as int,
        tp.rel_y as int,
    );
}

/// A point of the ground taken to its tile and back is the same point.
pub proof fn lemma_world_tile_round_trip(wp: WorldPosition, tile_size: u32)
    requires
        tile_size > 0,
        wp.y == 0,
        wp.z >= -world_limit(),
        world_to_tile(wp, tile_size) is Some,
    ensures
        fits_world(world_to_tile(wp, tile_size)->Some_0, tile_size),
        offsets_in_tile(world_to_tile(wp, tile_size)->Some_0, tile_size),
        tile_to_world(world_to_tile(wp, tile_size)->Some_0, tile_size) == wp,
{
    let e = tile_extent(tile_size);
    let depth = -(wp.z as int);
    lemma_fundamental_div_mod(wp.x as int, e);
    lemma_fundamental_div_mod(depth, e);
    assert((wp.x as int / e) * e == e * (wp.x as int / e)) by (nonlinear_arith);
    assert((depth / e) * e == e * (depth / e)) by (nonlinear_arith);
}

} // verus!
