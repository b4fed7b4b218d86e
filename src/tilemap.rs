use vstd::arithmetic::mul::{
    lemma_mul_inequality, lemma_mul_is_distributive_add_other_way, lemma_mul_nonnegative,
};
use vstd::arithmetic::div_mod::lemma_fundamental_div_mod;
use vstd::prelude::*;

verus! {

/// What one cell of a parsed terrain holds.
#[derive(Clone, Copy, Debug, PartialEq, Eq, Structural)]
pub enum Tile {
    OutOfBounds,
    Empty,
    Hole,
    Wall,
    Player,
    Medkit,
    Shield,
    Bomb,
    Teleport1,
    Teleport2,
    Teleport3,
    Teleport4,
    Teleport5,
    Teleport6,
    Teleport7,
    Teleport8,
}

/// Why a terrain text could not be parsed.
#[derive(Clone, Copy, Debug, PartialEq, Eq, Structural)]
pub enum ParseError {
    /// A character inside a row's playable span is not in the tile table.
    UnknownChar(char),
    /// The grid would hold more cells than a `u32` index can address.
    TooLarge,
}

/// Cells that are walkable and get a floor: everything but walls, holes and
/// cells outside the arena.
pub open spec fn is_floor(tile: Tile) -> bool {
    !(tile is OutOfBounds || tile is Wall || tile is Hole)
}

/// The tile table of the terrain text format.
pub open spec fn tile_of_char(c: char) -> Option<Tile> {
    if c == ' ' {
        Some(Tile::Empty)
    } else if c == 'x' {
        Some(Tile::Hole)
    } else if c == 'p' {
        Some(Tile::Player)
    } else if c == '=' {
        Some(Tile::Wall)
    } else if c == '+' {
        Some(Tile::Medkit)
    } else if c == 's' {
        Some(Tile::Shield)
    } else if c == 'b' {
        Some(Tile::Bomb)
    } else if c == '1' {
        Some(Tile::Teleport1)
    } else if c == '2' {
        Some(Tile::Teleport2)
    } else if c == '3' {
        Some(Tile::Teleport3)
    } else if c == '4' {
        Some(Tile::Teleport4)
    } else if c == '5' {
        Some(Tile::Teleport5)
    } else if c == '6' {
        Some(Tile::Teleport6)
    } else if c == '7' {
        Some(Tile::Teleport7)
    } else if c == '8' {
        Some(Tile::Teleport8)
    } else {
        None
    }
}

/// Whether a cell needs a floor tile, that is whether it is walkable.
pub fn needs_floor_tile(tile: &Tile) -> (r: bool)
    ensures
        r == is_floor(*tile),
{
    match tile {
        Tile::OutOfBounds | Tile::Wall | Tile::Hole => false,
        Tile::Empty
        | Tile::Player
        | Tile::Shield
        | Tile::Medkit
        | Tile::Bomb
        | Tile::Teleport1
        | Tile::Teleport2
        | Tile::Teleport3
        | Tile::Teleport4
        | Tile::Teleport5
        | Tile::Teleport6
        | Tile::Teleport7
        | Tile::Teleport8 => true,
    }
}

fn tile_from_char(c: char) -> (r: Result<Tile, ParseError>)
    ensures
        match tile_of_char(c) {
            Some(t) => r == Ok::<Tile, ParseError>(t),
            None => r == Err::<Tile, ParseError>(ParseError::UnknownChar(c)),
        },
{
    match c {
        ' ' => Ok(Tile::Empty),
        'x' => Ok(Tile::Hole),
        'p' => Ok(Tile::Player),
        '=' => Ok(Tile::Wall),
        '+' => Ok(Tile::Medkit),
        's' => Ok(Tile::Shield),
        'b' => Ok(Tile::Bomb),
        '1' => Ok(Tile::Teleport1),
        '2' => Ok(Tile::Teleport2),
        '3' => Ok(Tile::Teleport3),
        '4' => Ok(Tile::Teleport4),
        '5' => Ok(Tile::Teleport5),
        '6' => Ok(Tile::Teleport6),
        '7' => Ok(Tile::Teleport7),
        '8' => Ok(Tile::Teleport8),
        _ => Err(ParseError::UnknownChar(c)),
    }
}


/// The character that stands for a tile when a map is written out; cells
/// outside the arena show as `X`.
pub open spec fn char_of_tile(tile: Tile) -> char {
    match tile {
        Tile::OutOfBounds => 'X',
        Tile::Empty => ' ',
        Tile::Hole => 'x',
        Tile::Wall => '=',
        Tile::Player => 'p',
        Tile::Medkit => '+',
        Tile::Shield => 's',
        Tile::Bomb => 'b',
        Tile::Teleport1 => '1',
        Tile::Teleport2 => '2',
        Tile::Teleport3 => '3',
        Tile::Teleport4 => '4',
        Tile::Teleport5 => '5',
        Tile::Teleport6 => '6',
        Tile::Teleport7 => '7',
        Tile::Teleport8 => '8',
    }
}

fn char_from_tile(tile: &Tile) -> (r: char)
    ensures
        r == char_of_tile(*tile),
{
    match tile {
        Tile::OutOfBounds => 'X',
        Tile::Empty => ' ',
        Tile::Hole => 'x',
        Tile::Wall => '=',
        Tile::Player => 'p',
        Tile::Medkit => '+',
        Tile::Shield => 's',
        Tile::Bomb => 'b',
        Tile::Teleport1 => '1',
        Tile::Teleport2 => '2',
        Tile::Teleport3 => '3',
        Tile::Teleport4 => '4',
        Tile::Teleport5 => '5',
        Tile::Teleport6 => '6',
        Tile::Teleport7 => '7',
        Tile::Teleport8 => '8',
    }
}

/// Relies on `String::push`: appends one character to the string.
#[verifier::external_body]
fn push_char(s: &mut String, c: char)
    ensures
        final(s)@ == old(s)@.push(c),
{
    s.push(c);
}

/// `char::is_whitespace`: the characters with the Unicode White_Space property.
pub open spec fn is_space(c: char) -> bool {
    let u = c as u32;
    u == 0x20 || (0x09 <= u && u <= 0x0d) || u == 0x85 || u == 0xa0 || u == 0x1680 || (0x2000
        <= u && u <= 0x200a) || u == 0x2028 || u == 0x2029 || u == 0x202f || u == 0x205f || u
        == 0x3000
}

/// A line that `trim` would leave empty.
pub open spec fn is_blank(l: Seq<char>) -> bool {
    forall|i: int| 0 <= i < l.len() ==> is_space(#[trigger] l[i])
}

/// The pieces of `s` between line feeds; there is always one more piece than
/// there are line feeds.
pub open spec fn segments(s: Seq<char>) -> Seq<Seq<char>>
    decreases s.len(),
{
    if s.len() == 0 {
        seq![Seq::empty()]
    } else {
        let prev = segments(s.drop_last());
        if s.last() == '\n' {
            prev.push(Seq::empty())
        } else {
            prev.update(prev.len() - 1, prev.last().push(s.last()))
        }
    }
}

/// A piece that ends in a line feed loses the carriage return before it.
pub open spec fn strip_cr(l: Seq<char>) -> Seq<char> {
    if l.len() > 0 && l.last() == '\r' {
        l.drop_last()
    } else {
        l
    }
}

/// The lines of a text as `str::lines` gives them, but for a trailing empty
/// line, which is blank and never changes what a terrain holds.
pub open spec fn text_lines(s: Seq<char>) -> Seq<Seq<char>> {
    let segs = segments(s);
    Seq::new(
        segs.len(),
        |i: int|
            if i + 1 < segs.len() {
                strip_cr(segs[i])
            } else {
                segs[i]
            },
    )
}

/// The first line at or after `i` that is not blank.
pub open spec fn first_filled(ls: Seq<Seq<char>>, i: int) -> int
    decreases ls.len() - i,
{
    if i < 0 || i >= ls.len() {
        ls.len() as int
    } else if !is_blank(ls[i]) {
        i
    } else {
        first_filled(ls, i + 1)
    }
}

/// The first line at or after `i` that is blank.
pub open spec fn first_blank(ls: Seq<Seq<char>>, i: int) -> int
    decreases ls.len() - i,
{
    if i < 0 || i >= ls.len() {
        ls.len() as int
    } else if is_blank(ls[i]) {
        i
    } else {
        first_blank(ls, i + 1)
    }
}

/// The rows of a terrain, top line first: leading blank lines are skipped and
/// the rows end at the next blank line.
pub open spec fn terrain_rows(s: Seq<char>) -> Seq<Seq<char>> {
    let ls = text_lines(s);
    let a = first_filled(ls, 0);
    ls.subrange(a, first_blank(ls, a))
}

/// The length of the longest row.
pub open spec fn max_len(rows: Seq<Seq<char>>) -> nat
    decreases rows.len(),
{
    if rows.len() == 0 {
        0
    } else {
        let m = max_len(rows.drop_last());
        if rows.last().len() > m {
            rows.last().len()
        } else {
            m
        }
    }
}

/// The first `=` at or after `i`, or the length of the line.
pub open spec fn first_wall_from(l: Seq<char>, i: int) -> int
    decreases l.len() - i,
{
    if i < 0 || i >= l.len() {
        l.len() as int
    } else if l[i] == '=' {
        i
    } else {
        first_wall_from(l, i + 1)
    }
}

/// The last `=` before `i`, or -1.
pub open spec fn last_wall_before(l: Seq<char>, i: int) -> int
    decreases i,
{
    if i <= 0 || i > l.len() {
        -1
    } else if l[i - 1] == '=' {
        i - 1
    } else {
        last_wall_before(l, i - 1)
    }
}

/// First column of a row's playable span: its first `=`, or 0 if it has none.
pub open spec fn span_start(l: Seq<char>) -> int {
    let f = first_wall_from(l, 0);
    if f < l.len() {
        f
    } else {
        0
    }
}

/// Last column of a row's playable span: its last `=` when the row has two or
/// more of them, else its last character.
pub open spec fn span_end(l: Seq<char>) -> int {
    let f = first_wall_from(l, 0);
    let e = last_wall_before(l, l.len() as int);
    if f < l.len() && e != f {
        e
    } else {
        l.len() - 1
    }
}

pub open spec fn in_span(l: Seq<char>, col: int) -> bool {
    span_start(l) <= col <= span_end(l)
}

/// What a row gives at a column: the tile of its character inside the span,
/// `OutOfBounds` outside it, and `None` for a character not in the table.
pub open spec fn row_cell(l: Seq<char>, col: int) -> Option<Tile> {
    if in_span(l, col) {
        tile_of_char(l[col])
    } else {
        Some(Tile::OutOfBounds)
    }
}

/// Every character in every row's span is in the tile table.
pub open spec fn rows_known(rows: Seq<Seq<char>>) -> bool {
    forall|r: int, col: int|
        0 <= r < rows.len() && 0 <= col < rows[r].len() ==> (#[trigger] row_cell(rows[r], col)
            is Some)
}

/// Index of cell (`col`, `row`) in a row major vector with `ncols` columns.
pub open spec fn cell_index(ncols: int, col: int, row: int) -> int {
    row * ncols + col
}


/// The lines of `terrain`, as `text_lines` describes them.
fn split_lines(terrain: &str) -> (lines: Vec<Vec<char>>)
    ensures
        lines@.len() == text_lines(terrain@).len(),
        forall|j: int| 0 <= j < lines@.len() ==> #[trigger] lines@[j]@ == text_lines(terrain@)[j],
{
    let mut lines: Vec<Vec<char>> = Vec::new();
    let mut cur: Vec<char> = Vec::new();
    let ghost mut seen: Seq<char> = Seq::empty();
    for c in it: terrain.chars()
        invariant
            seen == it.seq().take(it.index() as int),
            segments(seen).len() == lines@.len() + 1,
            forall|j: int|
                0 <= j < lines@.len() ==> #[trigger] lines@[j]@ == strip_cr(segments(seen)[j]),
            cur@ == segments(seen).last(),
    {
        proof {
            assert(it.seq().take(it.index() + 1) == seen.push(c));
        }
        let ghost prev = segments(seen);
        if c == '\n' {
            let n = cur.len();
            if n > 0 && cur[n - 1] == '\r' {
                cur.pop();
            }
            lines.push(cur);
            cur = Vec::new();
        } else {
            cur.push(c);
        }
        proof {
            let ghost before = seen;
            seen = seen.push(c);
            assert(seen.drop_last() == before);
            if c == '\n' {
                assert(segments(seen) == prev.push(Seq::empty()));
            } else {
                assert(segments(seen) == prev.update(prev.len() - 1, prev.last().push(c)));
            }
        }
    }
    proof {
        assert(seen == terrain@);
        assert(segments(terrain@).len() == lines@.len() + 1);
    }
    lines.push(cur);
    proof {
        assert forall|j: int| 0 <= j < lines@.len() implies #[trigger] lines@[j]@ == text_lines(
            terrain@,
        )[j] by {}
    }
    lines
}


proof fn lemma_last_wall_at_least(l: Seq<char>, i: int, k: int)
    requires
        0 <= k < i <= l.len(),
        l[k] == '=',
    ensures
        last_wall_before(l, i) >= k,
    decreases i,
{
    if l[i - 1] != '=' {
        lemma_last_wall_at_least(l, i - 1, k);
    }
}

/// The playable span of a row: `span_start` and `span_end`.
fn get_bounds(row: &Vec<char>) -> (r: (usize, usize))
    requires
        row@.len() > 0,
    ensures
        r.0 == span_start(row@),
        r.1 == span_end(row@),
        r.0 <= r.1 < row@.len(),
{
    let n = row.len();
    let mut first: usize = 0;
    while first < n && row[first] != '='
        invariant
            first <= n == row@.len(),
            first_wall_from(row@, 0) == first_wall_from(row@, first as int),
        decreases n - first,
    {
        first = first + 1;
    }
    let mut last: usize = n;
    while last > 0 && row[last - 1] != '='
        invariant
            last <= n == row@.len(),
            last_wall_before(row@, n as int) == last_wall_before(row@, last as int),
        decreases last,
    {
        last = last - 1;
    }
    proof {
        if first < n {
            lemma_last_wall_at_least(row@, n as int, first as int);
        }
    }
    let start = if first < n {
        first
    } else {
        0
    };
    if first < n && last > 0 && last - 1 != first {
        (start, last - 1)
    } else {
        (start, n - 1)
    }
}


/// `char::is_whitespace`.
fn is_space_char(c: char) -> (r: bool)
    ensures
        r == is_space(c),
{
    let u = c as u32;
    u == 0x20 || (0x09 <= u && u <= 0x0d) || u == 0x85 || u == 0xa0 || u == 0x1680 || (0x2000
        <= u && u <= 0x200a) || u == 0x2028 || u == 0x2029 || u == 0x202f || u == 0x205f || u
        == 0x3000
}

fn is_blank_line(l: &Vec<char>) -> (r: bool)
    ensures
        r == is_blank(l@),
{
    let mut i: usize = 0;
    while i < l.len()
        invariant
            i <= l@.len(),
            forall|k: int| 0 <= k < i ==> is_space(#[trigger] l@[k]),
        decreases l@.len() - i,
    {
        if !is_space_char(l[i]) {
            return false;
        }
        i = i + 1;
    }
    true
}

proof fn lemma_max_len_bounds(rows: Seq<Seq<char>>)
    ensures
        forall|r: int| 0 <= r < rows.len() ==> #[trigger] rows[r].len() <= max_len(rows),
    decreases rows.len(),
{
    if rows.len() > 0 {
        lemma_max_len_bounds(rows.drop_last());
        assert forall|r: int| 0 <= r < rows.len() implies #[trigger] rows[r].len() <= max_len(
            rows,
        ) by {
            if r < rows.len() - 1 {
                assert(rows.drop_last()[r] == rows[r]);
            }
        }
    }
}

proof fn lemma_cell_index_before_row(ncols: int, col: int, row: int, later: int)
    requires
        0 <= col < ncols,
        0 <= row < later,
    ensures
        0 <= cell_index(ncols, col, row),
        cell_index(ncols, col, row) < later * ncols,
{
    lemma_mul_inequality(row + 1, later, ncols);
    lemma_mul_is_distributive_add_other_way(ncols, row, 1);
    lemma_mul_nonnegative(row, ncols);
}

/// A parsed terrain: `nrows` rows of `ncols` cells, stored row by row, row 0
/// being the last line of the text.
#[derive(Debug)]
pub struct Tilemap {
    pub tile_size: u32,
    pub tiles: Vec<Tile>,
    pub nrows: u32,
    pub ncols: u32,
}

impl Tilemap {
    pub open spec fn wf(&self) -> bool {
        self.tiles@.len() == self.nrows * self.ncols
    }

    /// The cell at (`col`, `row`).
    pub open spec fn tile_at(&self, col: int, row: int) -> Tile {
        self.tiles@[cell_index(self.ncols as int, col, row)]
    }

    /// This map is the grid that the terrain text `terrain` describes.
    pub open spec fn parsed_from(&self, terrain: Seq<char>) -> bool {
        let rows = terrain_rows(terrain);
        &&& self.wf()
        &&& self.nrows == rows.len()
        &&& self.ncols == max_len(rows)
        &&& forall|col: int, row: int|
            0 <= col < self.ncols && 0 <= row < self.nrows ==> #[trigger] self.tile_at(col, row)
                == row_cell(rows[self.nrows - 1 - row], col)->Some_0
    }

    /// The first `n` rows of the map as text, top row first, each ended by a
    /// line feed.
    pub open spec fn rendered(&self, n: int) -> Seq<char>
        decreases n,
    {
        if n <= 0 {
            Seq::empty()
        } else {
            let row = self.nrows - n;
            self.rendered(n - 1) + Seq::new(
                self.ncols as nat,
                |col: int| char_of_tile(self.tile_at(col, row)),
            ).push('\n')
        }
    }

    /// The map as text in the terrain format, top row first; cells outside
    /// the arena show as `X`.
    pub fn to_string(&self) -> (r: String)
        requires
            self.wf(),
        ensures
            r@ == self.rendered(self.nrows as int),
    {
        let mut s = String::new();
        let mut n: u32 = 0;
        while n < self.nrows
            invariant
                self.wf(),
                n <= self.nrows,
                s@ == self.rendered(n as int),
            decreases self.nrows - n,
        {
            let row = self.nrows - 1 - n;
            let ghost before = s@;
            let mut col: u32 = 0;
            while col < self.ncols
                invariant
                    self.wf(),
                    n < self.nrows,
                    row == self.nrows - 1 - n,
                    col <= self.ncols,
                    s@ == before + Seq::new(
                        col as nat,
                        |c: int| char_of_tile(self.tile_at(c, row as int)),
                    ),
                decreases self.ncols - col,
            {
                proof {
                    lemma_cell_index_before_row(
                        self.ncols as int,
                        col as int,
                        row as int,
                        self.nrows as int,
                    );
                }
                let len = self.tiles.len();
                assert(row * self.ncols + col < len);
                let idx = row as usize * self.ncols as usize + col as usize;
                push_char(&mut s, char_from_tile(&self.tiles[idx]));
                proof {
                    assert(s@ =~= before + Seq::new(
                        (col + 1) as nat,
                        |c: int| char_of_tile(self.tile_at(c, row as int)),
                    ));
                }
                col = col + 1;
            }
            push_char(&mut s, '\n');
            proof {
                assert(s@ =~= self.rendered(n + 1));
            }
            n = n + 1;
        }
        s
    }

    /// `terrain` is a terrain text that parses: every character in a row's
    /// span is in the tile table and the grid is small enough.
    pub open spec fn parses(terrain: Seq<char>) -> bool {
        let rows = terrain_rows(terrain);
        rows.len() * max_len(rows) <= u32::MAX && rows_known(rows)
    }

    /// Parsing `terrain` may fail with `e`.
    pub open spec fn new_failure(terrain: Seq<char>, e: ParseError) -> bool {
        let rows = terrain_rows(terrain);
        let fits = rows.len() * max_len(rows) <= u32::MAX;
        match e {
            ParseError::TooLarge => !fits,
            ParseError::UnknownChar(c) => fits && tile_of_char(c) is None && exists|
                row: int,
                col: int,
            |
                0 <= row < rows.len() && 0 <= col < rows[row].len() && in_span(rows[row], col)
                    && #[trigger] rows[row][col] == c,
        }
    }

    /// Parses a terrain text. Fails with `UnknownChar` when a row's span holds a
    /// character outside the tile table, and with `TooLarge` when the grid
    /// would have more than `u32::MAX` cells.
    pub fn new(terrain: &str, tile_size: u32) -> (r: Result<Tilemap, ParseError>)
        ensures
            ({
                match r {
                    Ok(tm) => Tilemap::parses(terrain@) && tm.tile_size == tile_size
                        && tm.parsed_from(terrain@),
                    Err(e) => Tilemap::new_failure(terrain@, e),
                }
            }),
            r is Ok <==> Tilemap::parses(terrain@),
    {
        let lines = split_lines(terrain);
        let ghost ls = text_lines(terrain@);
        let mut a: usize = 0;
        while a < lines.len() && is_blank_line(&lines[a])
            invariant
                a <= lines@.len() == ls.len(),
                forall|j: int| 0 <= j < lines@.len() ==> #[trigger] lines@[j]@ == ls[j],
                first_filled(ls, 0) == first_filled(ls, a as int),
            decreases lines@.len() - a,
        {
            a = a + 1;
        }
        let mut b: usize = a;
        while b < lines.len() && !is_blank_line(&lines[b])
            invariant
                a <= b <= lines@.len() == ls.len(),
                forall|j: int| 0 <= j < lines@.len() ==> #[trigger] lines@[j]@ == ls[j],
                first_blank(ls, a as int) == first_blank(ls, b as int),
                forall|j: int| a <= j < b ==> !is_blank(#[trigger] ls[j]),
            decreases lines@.len() - b,
        {
            b = b + 1;
        }
        let ghost rows = ls.subrange(a as int, b as int);
        assert(rows == terrain_rows(terrain@));
        let nrows: usize = b - a;
        let mut ncols: usize = 0;
        let mut i: usize = a;
        while i < b
            invariant
                a <= i <= b <= lines@.len() == ls.len(),
                forall|j: int| 0 <= j < lines@.len() ==> #[trigger] lines@[j]@ == ls[j],
                ncols == max_len(ls.subrange(a as int, i as int)),
            decreases b - i,
        {
            assert(ls.subrange(a as int, i + 1).drop_last() == ls.subrange(a as int, i as int));
            if lines[i].len() > ncols {
                ncols = lines[i].len();
            }
            i = i + 1;
        }
        proof {
            lemma_max_len_bounds(rows);
            if nrows > 0 {
                assert(rows[0].len() > 0);
                assert(ncols >= 1);
            }
        }
        let too_large = if nrows > 0xffff_ffff || ncols > 0xffff_ffff {
            true
        } else {
            assert((nrows as u64) * (ncols as u64) <= 0xffff_ffff_ffff_ffff) by (nonlinear_arith)
                requires
                    nrows <= 0xffff_ffff,
                    ncols <= 0xffff_ffff,
            ;
            (nrows as u64) * (ncols as u64) > 0xffff_ffff
        };
        if nrows > 0 && ncols > 0 && too_large {
            proof {
                if nrows > 0xffff_ffff {
                    assert(nrows * ncols >= nrows) by (nonlinear_arith)
                        requires
                            ncols >= 1,
                    ;
                } else if ncols > 0xffff_ffff {
                    assert(nrows * ncols >= ncols) by (nonlinear_arith)
                        requires
                            nrows >= 1,
                    ;
                }
            }
            return Err(ParseError::TooLarge);
        }
        proof {
            if nrows == 0 || ncols == 0 {
                assert(nrows * ncols == 0) by (nonlinear_arith)
                    requires
                        nrows == 0 || ncols == 0,
                ;
            }
        }
        let mut tiles: Vec<Tile> = Vec::new();
        let mut tr: usize = 0;
        while tr < nrows
            invariant
                a <= b <= lines@.len() == ls.len(),
                forall|j: int| 0 <= j < lines@.len() ==> #[trigger] lines@[j]@ == ls[j],
                forall|j: int| a <= j < b ==> !is_blank(#[trigger] ls[j]),
                rows == ls.subrange(a as int, b as int),
                rows == terrain_rows(terrain@),
                nrows == rows.len(),
                ncols == max_len(rows),
                forall|r: int| 0 <= r < rows.len() ==> #[trigger] rows[r].len() <= max_len(rows),
                nrows * ncols <= u32::MAX,
                tr <= nrows,
                tiles@.len() == tr * ncols,
                forall|c: int, t: int|
                    0 <= c < ncols && 0 <= t < tr ==> row_cell(rows[nrows - 1 - t], c) == Some(
                        tiles@[#[trigger] cell_index(ncols as int, c, t)],
                    ),
            decreases nrows - tr,
        {
            let line = &lines[b - 1 - tr];
            assert(line@ == rows[nrows - 1 - tr]);
            let (start, end) = get_bounds(line);
            let mut col: usize = 0;
            while col < ncols
                invariant
                    a <= b <= lines@.len() == ls.len(),
                    forall|j: int| 0 <= j < lines@.len() ==> #[trigger] lines@[j]@ == ls[j],
                    rows == ls.subrange(a as int, b as int),
                    rows == terrain_rows(terrain@),
                    nrows == rows.len(),
                    ncols == max_len(rows),
                    tr < nrows,
                    line@ == rows[nrows - 1 - tr],
                    line@.len() <= ncols,
                    start == span_start(line@),
                    end == span_end(line@),
                    end < line@.len(),
                    nrows * ncols <= u32::MAX,
                    col <= ncols,
                    tiles@.len() == tr * ncols + col,
                    forall|c: int, t: int|
                        0 <= c < ncols && 0 <= t < tr ==> row_cell(rows[nrows - 1 - t], c) == Some(
                            tiles@[#[trigger] cell_index(ncols as int, c, t)],
                        ),
                    forall|c: int|
                        0 <= c < col ==> row_cell(rows[nrows - 1 - tr], c) == Some(
                            tiles@[#[trigger] cell_index(ncols as int, c, tr as int)],
                        ),
                decreases ncols - col,
            {
                let tile = if start <= col && col <= end {
                    match tile_from_char(line[col]) {
                        Ok(t) => t,
                        Err(e) => {
                            proof {
                                let row = nrows - 1 - tr;
                                assert(in_span(rows[row], col as int));
                                assert(rows[row][col as int] == line@[col as int]);
                            }
                            proof {
                                if Tilemap::parses(terrain@) {
                                    assert(row_cell(rows[nrows - 1 - tr], col as int) is Some);
                                }
                            }
                            return Err(e);
                        },
                    }
                } else {
                    Tile::OutOfBounds
                };
                let ghost before = tiles@;
                tiles.push(tile);
                proof {
                    assert forall|c: int, t: int|
                        0 <= c < ncols && 0 <= t < tr implies row_cell(
                        rows[nrows - 1 - t],
                        c,
                    ) == Some(tiles@[#[trigger] cell_index(ncols as int, c, t)]) by {
                        lemma_cell_index_before_row(ncols as int, c, t, tr as int);
                        assert(tiles@[cell_index(ncols as int, c, t)] == before[cell_index(
                            ncols as int,
                            c,
                            t,
                        )]);
                    }
                    assert forall|c: int|
                        0 <= c < col + 1 implies row_cell(rows[nrows - 1 - tr], c) == Some(
                        tiles@[#[trigger] cell_index(ncols as int, c, tr as int)],
                    ) by {
                        if c < col {
                            assert(tiles@[cell_index(ncols as int, c, tr as int)] == before[cell_index(
                                ncols as int,
                                c,
                                tr as int,
                            )]);
                        }
                    }
                }
                col = col + 1;
            }
            proof {
                assert((tr + 1) * ncols == tr * ncols + ncols) by (nonlinear_arith);
            }
            tr = tr + 1;
        }
        proof {
            assert forall|r: int, col: int|
                0 <= r < rows.len() && 0 <= col < rows[r].len() implies (#[trigger] row_cell(
                rows[r],
                col,
            ) is Some) by {
                let t = nrows - 1 - r;
                assert(row_cell(rows[nrows - 1 - t], col) == Some(
                    tiles@[cell_index(ncols as int, col, t)],
                ));
            }
        }
        let tm = Tilemap { tile_size, tiles, nrows: nrows as u32, ncols: ncols as u32 };
        proof {
            assert forall|col: int, row: int|
                0 <= col < tm.ncols && 0 <= row < tm.nrows implies #[trigger] tm.tile_at(col, row)
                == row_cell(rows[tm.nrows - 1 - row], col)->Some_0 by {
                assert(row_cell(rows[nrows - 1 - row], col) == Some(
                    tiles@[cell_index(ncols as int, col, row)],
                ));
            }
        }
        Ok(tm)
    }
}


/// Two tile maps parsed from the same text are the same grid.
pub proof fn lemma_parse_deterministic(terrain: Seq<char>, a: Tilemap, b: Tilemap)
    requires
        a.parsed_from(terrain),
        b.parsed_from(terrain),
    ensures
        a.nrows == b.nrows,
        a.ncols == b.ncols,
        a.tiles@ == b.tiles@,
{
    let n = a.ncols as int;
    assert forall|k: int| 0 <= k < a.tiles@.len() implies a.tiles@[k] == b.tiles@[k] by {
        if n > 0 {
            lemma_fundamental_div_mod(k, n);
            let row = k / n;
            let col = k % n;
            assert(k == cell_index(n, col, row)) by (nonlinear_arith)
                requires
                    k == n * (k / n) + k % n,
                    row == k / n,
                    col == k % n,
            ;
            assert(row < a.nrows) by (nonlinear_arith)
                requires
                    k < a.nrows * n,
                    k == row * n + col,
                    0 <= col,
                    n > 0,
            ;
            assert(a.tile_at(col, row) == b.tile_at(col, row));
        } else {
            assert(a.tiles@.len() == 0) by (nonlinear_arith)
                requires
                    a.tiles@.len() == a.nrows * n,
                    n == 0,
            ;
        }
    }
    assert(a.tiles@ =~= b.tiles@);
}

/// When `c` is the only character of the text's spans that the tile table
/// lacks, and it occurs in a span, any failure to parse the text names `c`
/// (or says that the grid is too large).
pub proof fn lemma_unknown_char_named(terrain: Seq<char>, c: char, e: ParseError)
    requires
        tile_of_char(c) is None,
        exists|row: int, col: int|
            0 <= row < terrain_rows(terrain).len() && 0 <= col < terrain_rows(terrain)[row].len()
                && in_span(terrain_rows(terrain)[row], col) && #[trigger] terrain_rows(
                terrain,
            )[row][col] == c,
        forall|row: int, col: int|
            0 <= row < terrain_rows(terrain).len() && 0 <= col < terrain_rows(terrain)[row].len()
                && in_span(terrain_rows(terrain)[row], col) && tile_of_char(
                #[trigger] terrain_rows(terrain)[row][col],
            ) is None ==> terrain_rows(terrain)[row][col] == c,
        Tilemap::new_failure(terrain, e),
    ensures
        !Tilemap::parses(terrain),
        e == ParseError::UnknownChar(c) || e == ParseError::TooLarge,
{
    let rows = terrain_rows(terrain);
    let (row, col) = choose|row: int, col: int|
        0 <= row < rows.len() && 0 <= col < rows[row].len() && in_span(rows[row], col)
            && #[trigger] rows[row][col] == c;
    assert(row_cell(rows[row], col) is None);
}

} // verus!
