use vstd::prelude::*;
use crate::arena::Arena;
use crate::pathfinder::grid_of;

verus! {

/// Which cells can be walked on, as columns: `valid_tiles[col][row]`.
#[derive(Debug)]
pub struct Tilepath {
    pub valid_tiles: Vec<Vec<bool>>,
}

/// `ncols` columns of `nrows` cells each.
pub open spec fn is_grid(g: Seq<Seq<bool>>, ncols: int, nrows: int) -> bool {
    g.len() == ncols && forall|c: int| 0 <= c < ncols ==> (#[trigger] g[c]).len() == nrows
}

/// Some floor tile of `arena` lies on cell (`col`, `row`).
pub open spec fn has_floor_at(arena: &Arena, col: int, row: int) -> bool {
    exists|i: int|
        0 <= i < arena.floor_tiles@.len() && (#[trigger] arena.floor_tiles@[i]).col == col
            && arena.floor_tiles@[i].row == row
}

/// Some pair of `coords` is (`col`, `row`).
pub open spec fn listed(coords: Seq<(usize, usize)>, col: int, row: int) -> bool {
    exists|i: int| 0 <= i < coords.len() && #[trigger] coords[i] == (col as usize, row as usize)
}

fn set_cell(grid: &mut Vec<Vec<bool>>, col: usize, row: usize, value: bool)
    requires
        col < old(grid)@.len(),
        row < old(grid)@[col as int]@.len(),
    ensures
        grid_of(final(grid)) == grid_of(old(grid)).update(
            col as int,
            grid_of(old(grid))[col as int].update(row as int, value),
        ),
{
    grid[col][row] = value;
    assert(grid_of(grid) =~= grid_of(old(grid)).update(
        col as int,
        grid_of(old(grid))[col as int].update(row as int, value),
    ));
}

impl Tilepath {
    pub open spec fn grid(&self) -> Seq<Seq<bool>> {
        grid_of(&self.valid_tiles)
    }

    /// A column of `nrows` cells that cannot be walked on.
    fn empty_col(nrows: usize) -> (r: Vec<bool>)
        ensures
            r@ == Seq::new(nrows as nat, |i: int| false),
    {
        let mut col: Vec<bool> = Vec::new();
        while col.len() < nrows
            invariant
                col@.len() <= nrows,
                forall|i: int| 0 <= i < col@.len() ==> !(#[trigger] col@[i]),
            decreases nrows - col@.len(),
        {
            col.push(false);
        }
        assert(col@ =~= Seq::new(nrows as nat, |i: int| false));
        col
    }

    /// `ncols` columns of `nrows` cells, none of which can be walked on.
    pub fn empty_grid(ncols: usize, nrows: usize) -> (r: Vec<Vec<bool>>)
        ensures
            is_grid(grid_of(&r), ncols as int, nrows as int),
            forall|c: int, w: int|
                0 <= c < ncols && 0 <= w < nrows ==> !(#[trigger] grid_of(&r)[c][w]),
    {
        let mut grid: Vec<Vec<bool>> = Vec::new();
        while grid.len() < ncols
            invariant
                grid@.len() <= ncols,
                forall|c: int| 0 <= c < grid@.len() ==> (#[trigger] grid@[c])@ == Seq::new(nrows as nat, |i: int| false),
            decreases ncols - grid@.len(),
        {
            grid.push(Tilepath::empty_col(nrows));
        }
        grid
    }

    /// The cells that hold a floor tile of `arena` can be walked on; no other.
    pub fn from_arena(arena: &Arena) -> (r: Tilepath)
        requires
            arena.wf(),
        ensures
            is_grid(r.grid(), arena.ncols as int, arena.nrows as int),
            forall|c: int, w: int|
                0 <= c < arena.ncols && 0 <= w < arena.nrows ==> (#[trigger] r.grid()[c][w]
                    <==> has_floor_at(arena, c, w)),
    {
        let mut valid_tiles = Tilepath::empty_grid(arena.ncols as usize, arena.nrows as usize);
        let mut i: usize = 0;
        while i < arena.floor_tiles.len()
            invariant
                arena.wf(),
                i <= arena.floor_tiles@.len(),
                is_grid(grid_of(&valid_tiles), arena.ncols as int, arena.nrows as int),
                forall|c: int, w: int|
                    0 <= c < arena.ncols && 0 <= w < arena.nrows ==> (#[trigger] grid_of(
                        &valid_tiles,
                    )[c][w] <==> exists|j: int|
                        0 <= j < i && (#[trigger] arena.floor_tiles@[j]).col == c
                            && arena.floor_tiles@[j].row == w),
            decreases arena.floor_tiles@.len() - i,
        {
            let tp = arena.floor_tiles[i];
            let ghost before = grid_of(&valid_tiles);
            assert(grid_of(&valid_tiles)[tp.col as int].len() == arena.nrows);
            set_cell(&mut valid_tiles, tp.col as usize, tp.row as usize, true);
            proof {
                let g = grid_of(&valid_tiles);
                assert forall|c: int, w: int|
                    0 <= c < arena.ncols && 0 <= w < arena.nrows implies (#[trigger] g[c][w]
                    <==> exists|j: int|
                        0 <= j < i + 1 && (#[trigger] arena.floor_tiles@[j]).col == c
                            && arena.floor_tiles@[j].row == w) by {
                    if c == tp.col && w == tp.row {
                        assert(arena.floor_tiles@[i as int].col == c);
                    } else {
                        assert(g[c][w] == before[c][w]);
                        if exists|j: int|
                            0 <= j < i + 1 && (#[trigger] arena.floor_tiles@[j]).col == c
                                && arena.floor_tiles@[j].row == w {
                            let j = choose|j: int|
                                0 <= j < i + 1 && (#[trigger] arena.floor_tiles@[j]).col == c
                                    && arena.floor_tiles@[j].row == w;
                            assert(j < i);
                        }
                    }
                }
            }
            i = i + 1;
        }
        Tilepath { valid_tiles }
    }

    /// Every cell of an `ncols` by `nrows` grid can be walked on.
    pub fn all_valid(ncols: usize, nrows: usize) -> (r: Tilepath)
        ensures
            is_grid(r.grid(), ncols as int, nrows as int),
            forall|c: int, w: int| 0 <= c < ncols && 0 <= w < nrows ==> #[trigger] r.grid()[c][w],
    {
        let mut valid_tiles = Tilepath::empty_grid(ncols, nrows);
        let mut col: usize = 0;
        while col < ncols
            invariant
                col <= ncols,
                is_grid(grid_of(&valid_tiles), ncols as int, nrows as int),
                forall|c: int, w: int|
                    0 <= c < ncols && 0 <= w < nrows ==> (#[trigger] grid_of(&valid_tiles)[c][w]
                        <==> c < col),
            decreases ncols - col,
        {
            let mut row: usize = 0;
            while row < nrows
                invariant
                    col < ncols,
                    row <= nrows,
                    is_grid(grid_of(&valid_tiles), ncols as int, nrows as int),
                    forall|c: int, w: int|
                        0 <= c < ncols && 0 <= w < nrows ==> (#[trigger] grid_of(&valid_tiles)[c][w]
                            <==> (c < col || (c == col && w < row))),
                decreases nrows - row,
            {
                let ghost before = grid_of(&valid_tiles);
                assert(grid_of(&valid_tiles)[col as int].len() == nrows);
                set_cell(&mut valid_tiles, col, row, true);
                proof {
                    let g = grid_of(&valid_tiles);
                    assert forall|c: int, w: int|
                        0 <= c < ncols && 0 <= w < nrows implies (#[trigger] g[c][w] <==> (c < col
                        || (c == col && w < row + 1))) by {
                        if !(c == col && w == row) {
                            assert(g[c][w] == before[c][w]);
                        }
                    }
                }
                row = row + 1;
            }
            col = col + 1;
        }
        Tilepath { valid_tiles }
    }

    /// Every cell of an `ncols` by `nrows` grid can be walked on but those
    /// listed in `invalid_coords`, as (column, row) pairs.
    pub fn with_invalids(ncols: usize, nrows: usize, invalid_coords: Vec<(usize, usize)>) -> (r:
        Tilepath)
        requires
            forall|i: int|
                0 <= i < invalid_coords@.len() ==> (#[trigger] invalid_coords@[i]).0 < ncols
                    && invalid_coords@[i].1 < nrows,
        ensures
            is_grid(r.grid(), ncols as int, nrows as int),
            forall|c: int, w: int|
                0 <= c < ncols && 0 <= w < nrows ==> (#[trigger] r.grid()[c][w] <==> !listed(
                    invalid_coords@,
                    c,
                    w,
                )),
    {
        let mut tile_path = Tilepath::all_valid(ncols, nrows);
        let mut i: usize = 0;
        while i < invalid_coords.len()
            invariant
                i <= invalid_coords@.len(),
                forall|k: int|
                    0 <= k < invalid_coords@.len() ==> (#[trigger] invalid_coords@[k]).0 < ncols
                        && invalid_coords@[k].1 < nrows,
                is_grid(tile_path.grid(), ncols as int, nrows as int),
                forall|c: int, w: int|
                    0 <= c < ncols && 0 <= w < nrows ==> (#[trigger] tile_path.grid()[c][w]
                        <==> !listed(invalid_coords@.subrange(0, i as int), c, w)),
            decreases invalid_coords@.len() - i,
        {
            let (col, row) = invalid_coords[i];
            let ghost before = tile_path.grid();
            assert(tile_path.grid()[col as int].len() == nrows);
            set_cell(&mut tile_path.valid_tiles, col, row, false);
            proof {
                let g = tile_path.grid();
                let done = invalid_coords@.subrange(0, i as int);
                let next = invalid_coords@.subrange(0, i + 1);
                assert forall|c: int, w: int|
                    0 <= c < ncols && 0 <= w < nrows implies (#[trigger] g[c][w] <==> !listed(
                    next,
                    c,
                    w,
                )) by {
                    if c == col && w == row {
                        assert(next[i as int] == (c as usize, w as usize));
                    } else {
                        assert(g[c][w] == before[c][w]);
                        if listed(next, c, w) {
                            let k = choose|k: int|
                                0 <= k < next.len() && #[trigger] next[k] == (c as usize, w as usize);
                            assert(k < i);
                            assert(done[k] == next[k]);
                        }
                        if listed(done, c, w) {
                            let k = choose|k: int|
                                0 <= k < done.len() && #[trigger] done[k] == (c as usize, w as usize);
                            assert(next[k] == done[k]);
                        }
                    }
                }
            }
            i = i + 1;
        }
        assert(invalid_coords@.subrange(0, i as int) == invalid_coords@);
        tile_path
    }

    /// Whether cell (`col`, `row`) can be walked on.
    pub fn is_valid(&self, col: u32, row: u32) -> (r: bool)
        requires
            col < self.grid().len(),
            row < self.grid()[col as int].len(),
        ensures
            r == self.grid()[col as int][row as int],
    {
        self.valid_tiles[col as usize][row as usize]
    }
}

} // verus!
