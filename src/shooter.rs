use vstd::arithmetic::mul::{lemma_mul_inequality, lemma_mul_is_distributive_add_other_way};
use vstd::prelude::*;
use crate::pathfinder::walkable;
use crate::position::{
    offsets_in_tile, tile_extent, world_to_tile, PositionConverter, TilePosition, WorldPosition,
    SUBDIVISIONS,
};
use crate::tilepath::{is_grid, Tilepath};

verus! {

/// Walks a grid of `ncols` by `nrows` tiles of `tile_size` world units cell by
/// cell along straight lines.
#[derive(Debug)]
pub struct TileRaycaster {
    pub ncols: u32,
    pub nrows: u32,
    pub tile_size: u32,
}

/// A clear shot: the vector from the shooter to its target, in steps, and the
/// side of a tile in steps. The distance in tiles is
/// `sqrt(dx * dx + dy * dy) / steps_per_tile`, the direction `atan2(dy, dx)`.
#[derive(Clone, Copy, Debug, PartialEq, Eq, Structural)]
pub struct Shot {
    pub dx: i64,
    pub dy: i64,
    pub steps_per_tile: u64,
}

/// Position of a point along the columns, in steps.
pub open spec fn point_x(p: TilePosition, e: int) -> int {
    p.col * e + p.rel_x
}

/// Position of a point along the rows, in steps.
pub open spec fn point_y(p: TilePosition, e: int) -> int {
    p.row * e + p.rel_y
}

pub open spec fn abs(v: int) -> int {
    if v < 0 {
        -v
    } else {
        v
    }
}

/// One step from `from` towards `to`.
pub open spec fn toward(from: u32, to: u32) -> int {
    if to > from {
        1
    } else {
        -1
    }
}

/// The cell border that a ray leaving cell `c` in direction `step` crosses.
pub open spec fn next_border(c: u32, step: int, e: int) -> int {
    if step > 0 {
        (c + 1) * e
    } else {
        c * e
    }
}

/// The cell that the ray from `o` to `t` enters after cell `c`. In the column
/// or row of the target it moves straight towards it. Elsewhere it crosses
/// the nearer of the next column border and the next row border; the two
/// distances to cover are compared after scaling each by the other axis'
/// length of the ray, and a ray through a corner moves diagonally.
pub open spec fn next_cell(o: TilePosition, t: TilePosition, e: int, c: (u32, u32)) -> (u32, u32) {
    let sx = toward(c.0, t.col);
    let sy = toward(c.1, t.row);
    let nx = (c.0 + sx) as u32;
    let ny = (c.1 + sy) as u32;
    if c.0 == t.col {
        (c.0, ny)
    } else if c.1 == t.row {
        (nx, c.1)
    } else {
        let wx = abs(next_border(c.0, sx, e) - point_x(o, e)) * abs(point_y(t, e) - point_y(o, e));
        let wy = abs(next_border(c.1, sy, e) - point_y(o, e)) * abs(point_x(t, e) - point_x(o, e));
        if wx < wy {
            (nx, c.1)
        } else if wy < wx {
            (c.0, ny)
        } else {
            (nx, ny)
        }
    }
}

/// The `n`th cell of the ray from `o` to `t`; it stays on the target's cell
/// once it has reached it.
pub open spec fn ray_cell(o: TilePosition, t: TilePosition, e: int, n: nat) -> (u32, u32)
    decreases n,
{
    if n == 0 {
        (o.col, o.row)
    } else {
        let c = ray_cell(o, t, e, (n - 1) as nat);
        if c == (t.col, t.row) {
            c
        } else {
            next_cell(o, t, e, c)
        }
    }
}

/// Every cell of the ray before step `k` can be walked on and is not the
/// target's cell.
pub open spec fn passes_before(g: Seq<Seq<bool>>, o: TilePosition, t: TilePosition, e: int, k: nat) -> bool {
    forall|j: nat|
        j < k ==> #[trigger] ray_cell(o, t, e, j) != (t.col, t.row) && walkable(
            g,
            ray_cell(o, t, e, j).0 as int,
            ray_cell(o, t, e, j).1 as int,
        )
}

/// The ray reaches the target's cell at step `k`, and every cell before it
/// can be walked on.
pub open spec fn clear_until(g: Seq<Seq<bool>>, o: TilePosition, t: TilePosition, e: int, k: nat) -> bool {
    ray_cell(o, t, e, k) == (t.col, t.row) && passes_before(g, o, t, e, k)
}

/// The walk along the ray stops at step `k`, on cell `c`: the target's cell
/// or one that cannot be walked on, with every cell before it neither.
pub open spec fn stops_at(
    g: Seq<Seq<bool>>,
    o: TilePosition,
    t: TilePosition,
    e: int,
    k: nat,
    c: (u32, u32),
) -> bool {
    &&& ray_cell(o, t, e, k) == c
    &&& (c == (t.col, t.row) || !walkable(g, c.0 as int, c.1 as int))
    &&& passes_before(g, o, t, e, k)
}

/// Nothing blocks the line from `o` to `t`: every cell the ray passes before
/// the target's cell can be walked on. The target's own cell need not be.
pub open spec fn clear_line(g: Seq<Seq<bool>>, o: TilePosition, t: TilePosition, e: int) -> bool {
    exists|k: nat| clear_until(g, o, t, e, k)
}

impl TileRaycaster {
    /// The grid and the two points are ones this caster can walk between.
    pub open spec fn can_cast(&self, tile_path: &Tilepath, origin: TilePosition, target: TilePosition) -> bool {
        &&& self.tile_size > 0
        &&& self.ncols * tile_extent(self.tile_size) <= i64::MAX
        &&& self.nrows * tile_extent(self.tile_size) <= i64::MAX
        &&& is_grid(tile_path.grid(), self.ncols as int, self.nrows as int)
        &&& origin.col < self.ncols && origin.row < self.nrows
        &&& target.col < self.ncols && target.row < self.nrows
        &&& offsets_in_tile(origin, self.tile_size)
        &&& offsets_in_tile(target, self.tile_size)
    }
}


proof fn lemma_coordinate(c: int, rel: int, e: int, n: int)
    requires
        0 <= c < n,
        0 <= rel < e,
    ensures
        0 <= c * e,
        c * e + rel < n * e,
        (c + 1) * e <= n * e,
{
    lemma_mul_inequality(0, c, e);
    lemma_mul_inequality(c + 1, n, e);
    lemma_mul_is_distributive_add_other_way(e, c, 1);
}

proof fn lemma_product_fits(a: int, b: int)
    requires
        0 <= a <= i64::MAX,
        0 <= b <= i64::MAX,
    ensures
        0 <= a * b <= i128::MAX,
{
    lemma_mul_inequality(a, i64::MAX as int, b);
    lemma_mul_inequality(b, i64::MAX as int, i64::MAX as int);
    assert(0 <= a * b) by (nonlinear_arith)
        requires
            0 <= a,
            0 <= b,
    ;
    assert(b * (i64::MAX as int) == (i64::MAX as int) * b) by (nonlinear_arith);
}

pub open spec fn between(v: int, a: int, b: int) -> bool {
    (a <= v <= b) || (b <= v <= a)
}

/// How many single steps separate cell `c` from the target's cell.
pub open spec fn cells_left(t: TilePosition, c: (u32, u32)) -> nat {
    (abs(t.col - c.0) + abs(t.row - c.1)) as nat
}

proof fn lemma_next_cell_closer(o: TilePosition, t: TilePosition, e: int, c: (u32, u32))
    requires
        c != (t.col, t.row),
        between(c.0 as int, o.col as int, t.col as int),
        between(c.1 as int, o.row as int, t.row as int),
    ensures
        between(next_cell(o, t, e, c).0 as int, o.col as int, t.col as int),
        between(next_cell(o, t, e, c).1 as int, o.row as int, t.row as int),
        cells_left(t, next_cell(o, t, e, c)) < cells_left(t, c),
{
}

proof fn lemma_ray_reaches_target(g: Seq<Seq<bool>>, o: TilePosition, t: TilePosition, e: int, k: nat)
    requires
        forall|c: int, r: int|
            between(c, o.col as int, t.col as int) && between(r, o.row as int, t.row as int)
                ==> #[trigger] walkable(g, c, r),
        passes_before(g, o, t, e, k),
        between(ray_cell(o, t, e, k).0 as int, o.col as int, t.col as int),
        between(ray_cell(o, t, e, k).1 as int, o.row as int, t.row as int),
    ensures
        clear_line(g, o, t, e),
    decreases cells_left(t, ray_cell(o, t, e, k)),
{
    let c = ray_cell(o, t, e, k);
    if c == (t.col, t.row) {
        assert(clear_until(g, o, t, e, k));
    } else {
        lemma_next_cell_closer(o, t, e, c);
        assert(walkable(g, c.0 as int, c.1 as int));
        assert(ray_cell(o, t, e, k + 1) == next_cell(o, t, e, c));
        assert forall|j: nat| j < k + 1 implies #[trigger] ray_cell(o, t, e, j) != (t.col, t.row)
            && walkable(g, ray_cell(o, t, e, j).0 as int, ray_cell(o, t, e, j).1 as int) by {
            if j < k {
                assert(passes_before(g, o, t, e, k));
            }
        }
        lemma_ray_reaches_target(g, o, t, e, k + 1);
    }
}

/// Nothing can block a shot whose surroundings are open: when every cell
/// between the shooter's column and row and the target's can be walked on,
/// the line between them is clear (and `find_shot` finds the shot).
pub proof fn lemma_open_ground_is_clear(g: Seq<Seq<bool>>, o: TilePosition, t: TilePosition, e: int)
    requires
        forall|c: int, r: int|
            between(c, o.col as int, t.col as int) && between(r, o.row as int, t.row as int)
                ==> #[trigger] walkable(g, c, r),
    ensures
        clear_line(g, o, t, e),
{
    lemma_ray_reaches_target(g, o, t, e, 0);
}

/// A raycaster for a grid of `ncols` by `nrows` tiles of `tile_size` world
/// units.
pub fn create_tile_caster(ncols: u32, nrows: u32, tile_size: u32) -> (r: TileRaycaster)
    ensures
        r == (TileRaycaster { ncols, nrows, tile_size }),
{
    TileRaycaster { ncols, nrows, tile_size }
}

impl TileRaycaster {
    /// The first cell on the ray from `origin` to `target` that is the
    /// target's own cell or cannot be walked on.
    pub fn first_invalid(&self, tile_path: &Tilepath, origin: &TilePosition, target: &TilePosition) -> (r: (u32, u32))
        requires
            self.can_cast(tile_path, *origin, *target),
        ensures
            exists|k: nat|
                #[trigger] stops_at(
                    tile_path.grid(),
                    *origin,
                    *target,
                    tile_extent(self.tile_size),
                    k,
                    r,
                ),
    {
        let ghost g = tile_path.grid();
        let ghost es = tile_extent(self.tile_size);
        let e: i128 = (self.tile_size as i128) * (SUBDIVISIONS as i128);
        proof {
            lemma_coordinate(origin.col as int, origin.rel_x as int, es, self.ncols as int);
            lemma_coordinate(origin.row as int, origin.rel_y as int, es, self.nrows as int);
            lemma_coordinate(target.col as int, target.rel_x as int, es, self.ncols as int);
            lemma_coordinate(target.row as int, target.rel_y as int, es, self.nrows as int);
        }
        let ox: i128 = origin.col as i128 * e + origin.rel_x as i128;
        let oy: i128 = origin.row as i128 * e + origin.rel_y as i128;
        let tx: i128 = target.col as i128 * e + target.rel_x as i128;
        let ty: i128 = target.row as i128 * e + target.rel_y as i128;
        let adx: i128 = if tx >= ox { tx - ox } else { ox - tx };
        let ady: i128 = if ty >= oy { ty - oy } else { oy - ty };
        let mut cx: u32 = origin.col;
        let mut cy: u32 = origin.row;
        let ghost mut k: nat = 0;
        while !(cx == target.col && cy == target.row) && tile_path.is_valid(cx, cy)
            invariant
                self.can_cast(tile_path, *origin, *target),
                g == tile_path.grid(),
                es == tile_extent(self.tile_size),
                e == es,
                ox == point_x(*origin, es),
                oy == point_y(*origin, es),
                tx == point_x(*target, es),
                ty == point_y(*target, es),
                0 <= ox < self.ncols * es,
                0 <= oy < self.nrows * es,
                adx == abs(tx - ox),
                ady == abs(ty - oy),
                0 <= adx <= self.ncols * es,
                0 <= ady <= self.nrows * es,
                (cx, cy) == ray_cell(*origin, *target, es, k),
                between(cx as int, origin.col as int, target.col as int),
                between(cy as int, origin.row as int, target.row as int),
                passes_before(g, *origin, *target, es, k),
            decreases abs(target.col - cx) + abs(target.row - cy),
        {
            let ghost here = (cx, cy);
            let mut step_x = false;
            let mut step_y = false;
            if cx == target.col {
                step_y = true;
            } else if cy == target.row {
                step_x = true;
            } else {
                proof {
                    lemma_coordinate(cx as int, 0, es, self.ncols as int);
                    lemma_coordinate(cy as int, 0, es, self.nrows as int);
                }
                let bx: i128 = if target.col > cx {
                    (cx as i128 + 1) * e
                } else {
                    cx as i128 * e
                };
                let by: i128 = if target.row > cy {
                    (cy as i128 + 1) * e
                } else {
                    cy as i128 * e
                };
                let run_x: i128 = if bx >= ox { bx - ox } else { ox - bx };
                let run_y: i128 = if by >= oy { by - oy } else { oy - by };
                proof {
                    lemma_product_fits(run_x as int, ady as int);
                    lemma_product_fits(run_y as int, adx as int);
                }
                let wx = run_x * ady;
                let wy = run_y * adx;
                if wx < wy {
                    step_x = true;
                } else if wy < wx {
                    step_y = true;
                } else {
                    step_x = true;
                    step_y = true;
                }
            }
            if step_x {
                cx = if target.col > cx { cx + 1 } else { cx - 1 };
            }
            if step_y {
                cy = if target.row > cy { cy + 1 } else { cy - 1 };
            }
            proof {
                assert((cx, cy) == next_cell(*origin, *target, es, here));
                assert(ray_cell(*origin, *target, es, k + 1) == next_cell(*origin, *target, es, here));
                k = k + 1;
            }
        }
        assert(stops_at(g, *origin, *target, es, k, (cx, cy)));
        (cx, cy)
    }
}

/// Whether `target` can be hit from `origin`: the ray between them reaches
/// the target's cell before any cell that cannot be walked on. A target that
/// stands on such a cell can still be hit, and so can one in the shooter's
/// own cell.
pub fn find_shot(tc: &TileRaycaster, tile_path: &Tilepath, origin: &TilePosition, target: &TilePosition) -> (r: Option<Shot>)
    requires
        tc.can_cast(tile_path, *origin, *target),
    ensures
        r is Some <==> clear_line(tile_path.grid(), *origin, *target, tile_extent(tc.tile_size)),
        r matches Some(shot) ==> {
            let e = tile_extent(tc.tile_size);
            &&& shot.dx == point_x(*target, e) - point_x(*origin, e)
            &&& shot.dy == point_y(*target, e) - point_y(*origin, e)
            &&& shot.steps_per_tile == e
        },
{
    let ghost g = tile_path.grid();
    let ghost e = tile_extent(tc.tile_size);
    let hit = tc.first_invalid(tile_path, origin, target);
    if hit.0 == target.col && hit.1 == target.row {
        proof {
            let k = choose|k: nat| #[trigger] stops_at(g, *origin, *target, e, k, hit);
            assert(clear_until(g, *origin, *target, e, k));
            lemma_coordinate(origin.col as int, origin.rel_x as int, e, tc.ncols as int);
            lemma_coordinate(origin.row as int, origin.rel_y as int, e, tc.nrows as int);
            lemma_coordinate(target.col as int, target.rel_x as int, e, tc.ncols as int);
            lemma_coordinate(target.row as int, target.rel_y as int, e, tc.nrows as int);
        }
        let steps = (tc.tile_size as u64) * (SUBDIVISIONS as u64);
        let ox = origin.col as i64 * steps as i64 + origin.rel_x as i64;
        let oy = origin.row as i64 * steps as i64 + origin.rel_y as i64;
        let tx = target.col as i64 * steps as i64 + target.rel_x as i64;
        let ty = target.row as i64 * steps as i64 + target.rel_y as i64;
        Some(Shot { dx: tx - ox, dy: ty - oy, steps_per_tile: steps })
    } else {
        proof {
            let k = choose|k: nat| #[trigger] stops_at(g, *origin, *target, e, k, hit);
            if clear_line(g, *origin, *target, e) {
                let k2 = choose|k2: nat| clear_until(g, *origin, *target, e, k2);
                if k2 <= k {
                    if k2 < k {
                        assert(ray_cell(*origin, *target, e, k2) != (target.col, target.row));
                    }
                } else {
                    assert(walkable(g, hit.0 as int, hit.1 as int));
                }
            }
        }
        None
    }
}


/// Finds shots between points of the world: it looks up the tiles under two
/// points and casts between them.
#[derive(Debug)]
pub struct Sniper {
    tile_caster: TileRaycaster,
    converter: PositionConverter,
}

/// What a sniper with `caster` and tiles of `caster.tile_size` sees from
/// `origin` to `target`: the shot when both points lie on tiles of the grid,
/// the line between them is clear, and the target is no farther than `range`
/// steps of the world.
pub open spec fn sniper_shot(
    caster: TileRaycaster,
    g: Seq<Seq<bool>>,
    origin: WorldPosition,
    target: WorldPosition,
    range: Option<u64>,
) -> Option<Shot> {
    let e = tile_extent(caster.tile_size);
    match (world_to_tile(origin, caster.tile_size), world_to_tile(target, caster.tile_size)) {
        (Some(o), Some(t)) => {
            let dx = point_x(t, e) - point_x(o, e);
            let dy = point_y(t, e) - point_y(o, e);
            if o.col < caster.ncols && o.row < caster.nrows && t.col < caster.ncols && t.row
                < caster.nrows && clear_line(g, o, t, e) && match range {
                None => true,
                Some(r) => dx * dx + dy * dy <= r * r,
            } {
                Some(Shot { dx: dx as i64, dy: dy as i64, steps_per_tile: e as u64 })
            } else {
                None
            }
        },
        _ => None,
    }
}

impl Sniper {
    pub closed spec fn caster(&self) -> TileRaycaster {
        self.tile_caster
    }

    pub closed spec fn converter(&self) -> PositionConverter {
        self.converter
    }

    pub fn new(tile_caster: TileRaycaster, converter: PositionConverter) -> (r: Sniper)
        ensures
            r.caster() == tile_caster,
            r.converter() == converter,
    {
        Sniper { tile_caster, converter }
    }

    /// The shot from `origin` to `target` as `sniper_shot` describes it; a
    /// `range` is a distance in steps of the world.
    pub fn find_shot(
        &self,
        tile_path: &Tilepath,
        origin: &WorldPosition,
        target: &WorldPosition,
        range: Option<u64>,
    ) -> (r: Option<Shot>)
        requires
            self.converter().spec_tile_size() == self.caster().tile_size,
            self.caster().tile_size > 0,
            self.caster().ncols * tile_extent(self.caster().tile_size) <= i64::MAX,
            self.caster().nrows * tile_extent(self.caster().tile_size) <= i64::MAX,
            is_grid(tile_path.grid(), self.caster().ncols as int, self.caster().nrows as int),
        ensures
            r == sniper_shot(self.caster(), tile_path.grid(), *origin, *target, range),
    {
        let tc = &self.tile_caster;
        let o = match self.converter.tile_from_translation(origin) {
            Some(p) => p,
            None => return None,
        };
        let t = match self.converter.tile_from_translation(target) {
            Some(p) => p,
            None => return None,
        };
        if !(o.col < tc.ncols && o.row < tc.nrows && t.col < tc.ncols && t.row < tc.nrows) {
            return None;
        }
        let shot = match find_shot(tc, tile_path, &o, &t) {
            Some(s) => s,
            None => return None,
        };
        match range {
            None => Some(shot),
            Some(r) => {
                let dx = shot.dx as i128;
                let dy = shot.dy as i128;
                proof {
                    let e = tile_extent(tc.tile_size);
                    lemma_coordinate(o.col as int, o.rel_x as int, e, tc.ncols as int);
                    lemma_coordinate(o.row as int, o.rel_y as int, e, tc.nrows as int);
                    lemma_coordinate(t.col as int, t.rel_x as int, e, tc.ncols as int);
                    lemma_coordinate(t.row as int, t.rel_y as int, e, tc.nrows as int);
                    lemma_product_fits(abs(dx as int), abs(dx as int));
                    lemma_product_fits(abs(dy as int), abs(dy as int));
                    assert(dx * dx == abs(dx as int) * abs(dx as int)) by (nonlinear_arith);
                    assert(dy * dy == abs(dy as int) * abs(dy as int)) by (nonlinear_arith);
                    assert((r as int) * (r as int) <= u64::MAX * u64::MAX) by (nonlinear_arith)
                        requires
                            r <= u64::MAX,
                    ;
                }
                let squared = (dx * dx) as u128 + (dy * dy) as u128;
                if squared <= (r as u128) * (r as u128) {
                    Some(shot)
                } else {
                    None
                }
            },
        }
    }
}

} // verus!
