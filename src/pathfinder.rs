use vstd::prelude::*;

verus! {

/// The cells of a grid as columns: `g[col][row]` holds whether the cell can be
/// walked on.
pub open spec fn grid_of(valid_tiles: &Vec<Vec<bool>>) -> Seq<Seq<bool>> {
    valid_tiles@.map_values(|c: Vec<bool>| c@)
}

/// A cell inside the grid that can be walked on.
pub open spec fn walkable(g: Seq<Seq<bool>>, col: int, row: int) -> bool {
    0 <= col < g.len() && 0 <= row < g[col].len() && g[col][row]
}

/// The moves a tile may make, in the order they are tried: top left, left,
/// bottom, bottom right, bottom left, top, top right, right; without
/// diagonals only left, bottom, top and right.
pub open spec fn move_offsets(allow_diagonals: bool) -> Seq<(i8, i8)> {
    if allow_diagonals {
        seq![
            (-1i8, 1i8),
            (-1i8, 0i8),
            (0i8, -1i8),
            (1i8, -1i8),
            (-1i8, -1i8),
            (0i8, 1i8),
            (1i8, 1i8),
            (1i8, 0i8),
        ]
    } else {
        seq![(-1i8, 0i8), (0i8, -1i8), (0i8, 1i8), (1i8, 0i8)]
    }
}

/// `b` is one move away from `a`: a side neighbour, or a corner neighbour when
/// diagonals are allowed.
pub open spec fn adjacent(allow_diagonals: bool, a: (u32, u32), b: (u32, u32)) -> bool {
    let dc = b.0 - a.0;
    let dr = b.1 - a.1;
    ||| (dc == 0 && (dr == 1 || dr == -1))
    ||| (dr == 0 && (dc == 1 || dc == -1))
    ||| (allow_diagonals && (dc == 1 || dc == -1) && (dr == 1 || dr == -1))
}

/// One step of a walk: to an adjacent cell that can be walked on.
pub open spec fn is_step(g: Seq<Seq<bool>>, allow_diagonals: bool, a: (u32, u32), b: (u32, u32)) -> bool {
    adjacent(allow_diagonals, a, b) && walkable(g, b.0 as int, b.1 as int)
}

/// A sequence of tiles where each one is a step from the one before it. The
/// first tile need not be walkable.
pub open spec fn is_walk(g: Seq<Seq<bool>>, allow_diagonals: bool, w: Seq<(u32, u32)>) -> bool {
    &&& w.len() >= 1
    &&& forall|i: int| 0 <= i < w.len() - 1 ==> is_step(g, allow_diagonals, #[trigger] w[i], w[i + 1])
}

/// A walk from `start` to `goal`, both included.
pub open spec fn walk_between(
    g: Seq<Seq<bool>>,
    allow_diagonals: bool,
    w: Seq<(u32, u32)>,
    start: (u32, u32),
    goal: (u32, u32),
) -> bool {
    is_walk(g, allow_diagonals, w) && w[0] == start && w.last() == goal
}

pub open spec fn reachable(
    g: Seq<Seq<bool>>,
    allow_diagonals: bool,
    start: (u32, u32),
    goal: (u32, u32),
) -> bool {
    exists|w: Seq<(u32, u32)>| walk_between(g, allow_diagonals, w, start, goal)
}

/// A route from `start` to `goal`: the tiles of a walk, `start` left out.
pub open spec fn is_route(
    g: Seq<Seq<bool>>,
    allow_diagonals: bool,
    route: Seq<(u32, u32)>,
    start: (u32, u32),
    goal: (u32, u32),
) -> bool {
    route.len() > 0 && walk_between(g, allow_diagonals, seq![start] + route, start, goal)
}

/// The tile one move of `offset` away from `tile`, if its coordinates are not
/// negative and fit a `u32`.
pub open spec fn shifted(tile: (u32, u32), offset: (i8, i8)) -> Option<(u32, u32)> {
    let c = tile.0 + offset.0;
    let r = tile.1 + offset.1;
    if 0 <= c <= u32::MAX && 0 <= r <= u32::MAX {
        Some((c as u32, r as u32))
    } else {
        None
    }
}

/// The walkable tiles reached by the first `n` moves of `move_offsets`, in
/// that order.
pub open spec fn moves_upto(
    g: Seq<Seq<bool>>,
    allow_diagonals: bool,
    tile: (u32, u32),
    n: int,
) -> Seq<(u32, u32)>
    decreases n,
{
    if n <= 0 {
        Seq::empty()
    } else {
        let prev = moves_upto(g, allow_diagonals, tile, n - 1);
        match shifted(tile, move_offsets(allow_diagonals)[n - 1]) {
            Some(q) => if walkable(g, q.0 as int, q.1 as int) {
                prev.push(q)
            } else {
                prev
            },
            None => prev,
        }
    }
}

/// The tiles one step away from `tile`, in the order of `move_offsets`.
pub open spec fn moves_from(g: Seq<Seq<bool>>, allow_diagonals: bool, tile: (u32, u32)) -> Seq<
    (u32, u32),
> {
    moves_upto(g, allow_diagonals, tile, move_offsets(allow_diagonals).len() as int)
}

/// The tiles one step away from `tile`: those of its neighbours, in the order
/// of `move_offsets`, that lie inside the grid and can be walked on.
fn moves(valid_tiles: &Vec<Vec<bool>>, allow_diagonals: bool, tile: (u32, u32)) -> (r: Vec<
    (u32, u32),
>)
    ensures
        r@ == moves_from(grid_of(valid_tiles), allow_diagonals, tile),
{
    let ghost g = grid_of(valid_tiles);
    let offsets: Vec<(i8, i8)> = if allow_diagonals {
        vec![(-1, 1), (-1, 0), (0, -1), (1, -1), (-1, -1), (0, 1), (1, 1), (1, 0)]
    } else {
        vec![(-1, 0), (0, -1), (0, 1), (1, 0)]
    };
    assert(offsets@ =~= move_offsets(allow_diagonals));
    assert(offsets@ == move_offsets(allow_diagonals));
    let mut xs: Vec<(u32, u32)> = Vec::new();
    let mut i: usize = 0;
    while i < offsets.len()
        invariant
            g == grid_of(valid_tiles),
            offsets@ == move_offsets(allow_diagonals),
            i <= offsets@.len(),
            xs@ == moves_upto(g, allow_diagonals, tile, i as int),
        decreases offsets@.len() - i,
    {
        let (dc, dr) = offsets[i];
        let c: i64 = tile.0 as i64 + dc as i64;
        let r: i64 = tile.1 as i64 + dr as i64;
        if 0 <= c && c <= u32::MAX as i64 && 0 <= r && r <= u32::MAX as i64 {
            let cu = c as usize;
            let ru = r as usize;
            if cu < valid_tiles.len() && ru < valid_tiles[cu].len() && valid_tiles[cu][ru] {
                xs.push((c as u32, r as u32));
            }
        }
        i = i + 1;
    }
    xs
}

fn at_goal(tile: (u32, u32), goal: (u32, u32)) -> (r: bool)
    ensures
        r == (tile == goal),
{
    tile.0 == goal.0 && tile.1 == goal.1
}

/// Relies on `pathfinding::prelude::bfs`: a breadth first search that returns
/// a shortest sequence of nodes from `start` to the first node for which the
/// goal test holds, both included, each node a successor of the one before
/// it; and `None` when no such node can be reached. Successors of a tile are
/// the tiles that `moves` returns.
#[verifier::external_body]
fn shortest_walk(
    valid_tiles: &Vec<Vec<bool>>,
    allow_diagonals: bool,
    start: (u32, u32),
    goal: (u32, u32),
) -> (r: Option<Vec<(u32, u32)>>)
    ensures
        match r {
            Some(w) => walk_between(grid_of(valid_tiles), allow_diagonals, w@, start, goal) && forall|
                v: Seq<(u32, u32)>,
            |
                walk_between(grid_of(valid_tiles), allow_diagonals, v, start, goal) ==> w@.len()
                    <= v.len(),
            None => !reachable(grid_of(valid_tiles), allow_diagonals, start, goal),
        },
{
    pathfinding::prelude::bfs(
        &start,
        |&p| moves(valid_tiles, allow_diagonals, p),
        |&p| at_goal(p, goal),
    )
}


/// The shortest route from `start` to `end`, `start` left out and `end`
/// included, each tile one step from the one before it. `None` when `end`
/// cannot be reached, and when `start == end`.
pub fn find_path(
    valid_tiles: &Vec<Vec<bool>>,
    allow_diagonals: bool,
    start: (u32, u32),
    end: (u32, u32),
) -> (r: Option<Vec<(u32, u32)>>)
    ensures
        r is Some <==> start != end && reachable(grid_of(valid_tiles), allow_diagonals, start, end),
        r matches Some(path) ==> is_route(grid_of(valid_tiles), allow_diagonals, path@, start, end),
        r matches Some(path) ==> forall|other: Seq<(u32, u32)>|
            is_route(grid_of(valid_tiles), allow_diagonals, other, start, end) ==> path@.len()
                <= other.len(),
{
    let ghost g = grid_of(valid_tiles);
    let result = shortest_walk(valid_tiles, allow_diagonals, start, end);
    match result {
        None => None,
        Some(walk) => {
            if walk.len() <= 1 {
                proof {
                    assert(walk@.last() == walk@[0]);
                }
                return None;
            }
            let mut tiles: Vec<(u32, u32)> = Vec::new();
            let mut i: usize = 1;
            while i < walk.len()
                invariant
                    1 <= i <= walk@.len(),
                    tiles@ == walk@.subrange(1, i as int),
                decreases walk@.len() - i,
            {
                tiles.push(walk[i]);
                i = i + 1;
            }
            proof {
                assert(seq![start] + tiles@ =~= walk@);
                if start == end {
                    let single = seq![start];
                    assert(walk_between(g, allow_diagonals, single, start, end));
                }
                assert forall|other: Seq<(u32, u32)>|
                    is_route(g, allow_diagonals, other, start, end) implies tiles@.len()
                    <= other.len() by {
                    assert((seq![start] + other).len() == other.len() + 1);
                }
            }
            Some(tiles)
        },
    }
}

} // verus!
