use vstd::prelude::*;

use crate::grid::{
    vacant_cells,    grid_of, is_square, quarter_turn, lemma_rotated_add, lemma_rotated_mod, lemma_rotated_square, rotate,
    rotated, BoardSpace, Cells, GameBoardLocation, GAME_BOARD_SIZE, STARTING_TILES,
};
use crate::random::{random_below, random_ratio};
use crate::slide::{lemma_gain_nonneg, lemma_row_bounded, lemma_tiles_len, lemma_unchanged_no_gain, row_fits, row_gain, slid_row, slide_row, Row};

verus! {

/// The direction of a move
#[derive(Debug, Clone, Copy, PartialEq, Eq, Structural)]
pub enum MoveDirection {
    Left,
    Up,
    Right,
    Down,
}

impl MoveDirection {
    /// Quarter turns that bring this direction to the left.
    pub open spec fn turns(self) -> nat {
        match self {
            MoveDirection::Left => 0,
            MoveDirection::Up => 1,
            MoveDirection::Right => 2,
            MoveDirection::Down => 3,
        }
    }

    fn quarter_turns(&self) -> (k: usize)
        ensures
            k == self.turns(),
    {
        match self {
            MoveDirection::Left => 0,
            MoveDirection::Up => 1,
            MoveDirection::Right => 2,
            MoveDirection::Down => 3,
        }
    }
}

/// Whether a board places new tiles at random after a move.
#[derive(Debug, Clone, Copy, PartialEq, Eq, Structural)]
pub enum TileSpawning {
    /// New tiles come from the operating system's random source
    Random,
    /// No tile is ever placed, which makes moves reproducible
    Disabled,
}

/// Represents the grid of tiles making up the game
///
/// The `(0,0)` origin of the board is located in the top-left corner of the
/// board, with coordinates increasing as you move toward the bottom-right of
/// the board. Cells are stored as `cells[row][column]`.
#[derive(Debug, Clone, Copy)]
pub struct GameBoard {
    pub cells: Cells,
    pub score: usize,
    pub spawning: TileSpawning,
}

/// Every row of `g` slid to the left.
pub open spec fn slide_grid(g: Seq<Seq<BoardSpace>>) -> Seq<Seq<BoardSpace>> {
    Seq::new(g.len(), |r: int| slid_row(g[r]))
}

/// The grid after moving every tile of `g` towards `dir`, merging equal
/// neighbours: turned so that `dir` points left, slid left, turned back.
pub open spec fn shifted(g: Seq<Seq<BoardSpace>>, dir: MoveDirection) -> Seq<Seq<BoardSpace>> {
    rotated(slide_grid(rotated(g, dir.turns())), (4 - dir.turns()) as nat)
}

/// `after` is what moving `before` towards `dir` may give: the tiles moved and
/// merged, the score raised by the merged tiles, and one tile spawned if
/// anything changed.
#[verifier::opaque]
pub open spec fn moved_to(before: GameBoard, after: GameBoard, dir: MoveDirection) -> bool {
    let g = grid_of(before.cells);
    let s = shifted(g, dir);
    &&& s == g ==> after == before
    &&& s != g ==> spawn_outcome(s, grid_of(after.cells), before.spawning)
    &&& after.score == before.score + shift_gain(g, dir)
    &&& after.spawning == before.spawning
}

/// The largest tile value that [`GameBoard::within_limits`] admits.
pub open spec fn tile_limit() -> int {
    usize::MAX as int / 32
}

/// Every tile of `g` is at most `b`.
pub open spec fn tiles_at_most(g: Seq<Seq<BoardSpace>>, b: int) -> bool {
    forall|r: int, c: int|
        0 <= r < g.len() && 0 <= c < g[r].len() ==> match #[trigger] g[r][c] {
            BoardSpace::Tile(v) => v <= b,
            BoardSpace::Vacant => true,
        }
}

/// What sliding the first `n` rows of `g` adds to the score.
pub open spec fn rows_gain(g: Seq<Seq<BoardSpace>>, n: nat) -> int
    decreases n,
{
    if n == 0 {
        0
    } else {
        rows_gain(g, (n - 1) as nat) + row_gain(g[n - 1])
    }
}

/// What moving `g` towards `dir` adds to the score.
pub open spec fn shift_gain(g: Seq<Seq<BoardSpace>>, dir: MoveDirection) -> int {
    rows_gain(rotated(g, dir.turns()), g.len())
}

/// Moving `g` towards `dir` creates no tile too large for a `usize`.
pub open spec fn shift_fits(g: Seq<Seq<BoardSpace>>, dir: MoveDirection) -> bool {
    forall|r: int| 0 <= r < g.len() ==> #[trigger] row_fits(rotated(g, dir.turns())[r])
}

/// `g` with the cell at column `x`, row `y` set to a tile of value `v`.
pub open spec fn placed(g: Seq<Seq<BoardSpace>>, x: int, y: int, v: usize) -> Seq<Seq<BoardSpace>> {
    g.update(y, g[y].update(x, BoardSpace::Tile(v)))
}

/// `g` has a vacant cell.
pub open spec fn has_vacancy(g: Seq<Seq<BoardSpace>>) -> bool {
    exists|x: int, y: int|
        0 <= y < g.len() && 0 <= x < g[y].len() && #[trigger] g[y][x] == BoardSpace::Vacant
}

/// `after` may follow `before` by placing one new tile: a 2 or a 4 on one of
/// its vacant cells, or nothing where there is none or spawning is disabled.
pub open spec fn spawn_outcome(
    before: Seq<Seq<BoardSpace>>,
    after: Seq<Seq<BoardSpace>>,
    spawning: TileSpawning,
) -> bool {
    if spawning == TileSpawning::Disabled || !has_vacancy(before) {
        after == before
    } else {
        exists|x: int, y: int, v: usize|
            0 <= y < before.len() && 0 <= x < before[y].len() && before[y][x]
                == BoardSpace::Vacant && (v == 2 || v == 4) && after == #[trigger] placed(
                before,
                x,
                y,
                v,
            )
    }
}

/// `after` may follow `before` by `n` spawns.
pub open spec fn spawned_n(
    before: Seq<Seq<BoardSpace>>,
    after: Seq<Seq<BoardSpace>>,
    spawning: TileSpawning,
    n: nat,
) -> bool
    decreases n,
{
    if n == 0 {
        after == before
    } else {
        exists|mid: Seq<Seq<BoardSpace>>|
            spawned_n(before, mid, spawning, (n - 1) as nat) && #[trigger] spawn_outcome(
                mid,
                after,
                spawning,
            )
    }
}

/// The all-vacant grid.
pub open spec fn empty_grid() -> Seq<Seq<BoardSpace>> {
    Seq::new(
        GAME_BOARD_SIZE as nat,
        |r: int| Seq::new(GAME_BOARD_SIZE as nat, |c: int| BoardSpace::Vacant),
    )
}

/// The location of the cell with row-major index `i`.
pub open spec fn location_of(i: int) -> GameBoardLocation {
    ((i % GAME_BOARD_SIZE as int) as usize, (i / GAME_BOARD_SIZE as int) as usize)
}

/// Locations of the vacant cells among the first `k` cells of `g` in row-major order.
pub open spec fn empty_spaces(g: Seq<Seq<BoardSpace>>, k: nat) -> Seq<GameBoardLocation>
    decreases k,
{
    if k == 0 {
        seq![]
    } else {
        let i = k - 1;
        let before = empty_spaces(g, (k - 1) as nat);
        if g[i / GAME_BOARD_SIZE as int][i % GAME_BOARD_SIZE as int] == BoardSpace::Vacant {
            before.push(location_of(i))
        } else {
            before
        }
    }
}

/// No move can change `g`: no cell is vacant and no two neighbours in a row or
/// a column are equal.
pub open spec fn stuck(g: Seq<Seq<BoardSpace>>) -> bool {
    let n = GAME_BOARD_SIZE as int;
    &&& forall|r: int, c: int| 0 <= r < n && 0 <= c < n ==> #[trigger] g[r][c] != BoardSpace::Vacant
    &&& forall|r: int, c: int| 0 <= r < n && 0 <= c < n - 1 ==> #[trigger] g[r][c] != g[r][c + 1]
    &&& forall|r: int, c: int| 0 <= r < n - 1 && 0 <= c < n ==> #[trigger] g[r][c] != g[r + 1][c]
}

proof fn lemma_rows_gain_mono(g: Seq<Seq<BoardSpace>>, a: nat, b: nat)
    requires
        a <= b,
    ensures
        rows_gain(g, a) <= rows_gain(g, b),
    decreases b,
{
    if a < b {
        lemma_rows_gain_mono(g, a, (b - 1) as nat);
        lemma_gain_nonneg(crate::slide::tiles_of(g[b - 1]));
    }
}

proof fn lemma_empty_spaces(g: Seq<Seq<BoardSpace>>, k: nat)
    requires
        is_square(g, GAME_BOARD_SIZE as nat),
        k <= GAME_BOARD_SIZE * GAME_BOARD_SIZE,
    ensures
        forall|j: int|
            0 <= j < empty_spaces(g, k).len() ==> {
                let (x, y) = #[trigger] empty_spaces(g, k)[j];
                x < GAME_BOARD_SIZE && y < GAME_BOARD_SIZE && g[y as int][x as int]
                    == BoardSpace::Vacant
            },
        forall|x: int, y: int|
            0 <= x < GAME_BOARD_SIZE && 0 <= y < GAME_BOARD_SIZE && y * GAME_BOARD_SIZE + x < k
                && #[trigger] g[y][x] == BoardSpace::Vacant ==> empty_spaces(g, k).len() > 0,
    decreases k,
{
    if k > 0 {
        lemma_empty_spaces(g, (k - 1) as nat);
        assert forall|x: int, y: int|
            0 <= x < GAME_BOARD_SIZE && 0 <= y < GAME_BOARD_SIZE && y * GAME_BOARD_SIZE + x < k
                && #[trigger] g[y][x] == BoardSpace::Vacant implies empty_spaces(g, k).len() > 0 by {
            if y * GAME_BOARD_SIZE + x == k - 1 {
                let i = k - 1;
                assert(i / GAME_BOARD_SIZE as int == y && i % GAME_BOARD_SIZE as int == x);
            }
        }
    }
}

impl GameBoard {
    /// Moving this board towards `dir` keeps its tiles and score within `usize`.
    pub open spec fn fits_move(&self, dir: MoveDirection) -> bool {
        let g = grid_of(self.cells);
        shift_fits(g, dir) && self.score + shift_gain(g, dir) <= usize::MAX
    }

    /// Creates a new square board with dimensions [`GAME_BOARD_SIZE`],
    /// prefilled with [`STARTING_TILES`] random tiles
    pub fn new() -> (board: Self)
        ensures
            board.score == 0,
            board.spawning == TileSpawning::Random,
            spawned_n(empty_grid(), grid_of(board.cells), TileSpawning::Random, STARTING_TILES as nat),
    {
        let mut board = Self::empty();
        let mut i: usize = 0;
        while i < STARTING_TILES
            invariant
                i <= STARTING_TILES,
                board.score == 0,
                board.spawning == TileSpawning::Random,
                spawned_n(empty_grid(), grid_of(board.cells), TileSpawning::Random, i as nat),
            decreases STARTING_TILES - i,
        {
            let ghost mid = grid_of(board.cells);
            board.add_random_tile();
            assert(spawn_outcome(mid, grid_of(board.cells), TileSpawning::Random));
            i += 1;
        }
        board
    }

    /// Creates a new blank square board with dimensions [`GAME_BOARD_SIZE`]
    pub fn empty() -> (board: Self)
        ensures
            grid_of(board.cells) == empty_grid(),
            board.score == 0,
            board.spawning == TileSpawning::Random,
    {
        let cells = vacant_cells();
        assert forall|r: int| 0 <= r < GAME_BOARD_SIZE implies #[trigger] grid_of(cells)[r]
            =~= empty_grid()[r] by {}
        assert(grid_of(cells) =~= empty_grid());
        Self { cells, score: 0, spawning: TileSpawning::Random }
    }

    /// Gets the value of a cell on the game board
    pub fn get(&self, pos: GameBoardLocation) -> (r: BoardSpace)
        requires
            pos.0 < GAME_BOARD_SIZE,
            pos.1 < GAME_BOARD_SIZE,
        ensures
            r == self.cells[pos.1 as int][pos.0 as int],
    {
        let (x, y) = pos;
        self.cells[y][x]
    }

    /// Sets the value of a cell on the game board
    pub fn set(&mut self, pos: GameBoardLocation, val: BoardSpace)
        requires
            pos.0 < GAME_BOARD_SIZE,
            pos.1 < GAME_BOARD_SIZE,
        ensures
            grid_of(final(self).cells) == grid_of(old(self).cells).update(
                pos.1 as int,
                grid_of(old(self).cells)[pos.1 as int].update(pos.0 as int, val),
            ),
            final(self).score == old(self).score,
            final(self).spawning == old(self).spawning,
    {
        let (x, y) = pos;
        self.cells[y][x] = val;
        assert(grid_of(self.cells) =~~= grid_of(old(self).cells).update(
            y as int,
            grid_of(old(self).cells)[y as int].update(x as int, val),
        ));
    }

    /// Moves every tile towards `dir` and merges equal neighbours, without
    /// placing a new tile. Returns whether the grid changed.
    fn shift(&mut self, dir: MoveDirection) -> (moved: bool)
        requires
            old(self).fits_move(dir),
        ensures
            grid_of(final(self).cells) == shifted(grid_of(old(self).cells), dir),
            final(self).score == old(self).score + shift_gain(grid_of(old(self).cells), dir),
            final(self).spawning == old(self).spawning,
            moved == (grid_of(final(self).cells) != grid_of(old(self).cells)),
            !moved ==> shift_gain(grid_of(old(self).cells), dir) == 0,
    {
        let ghost g = grid_of(self.cells);
        let ghost start = self.score;
        let n: usize = GAME_BOARD_SIZE;
        let rot = dir.quarter_turns();
        rotate(&mut self.cells, rot);
        let ghost turned = grid_of(self.cells);
        proof {
            lemma_rotated_square(g, n as nat, rot as nat);
            lemma_rows_gain_mono(turned, 0, n as nat);
        }
        let mut moved = false;
        let mut y: usize = 0;
        while y < n
            invariant
                n == GAME_BOARD_SIZE,
                y <= n,
                turned == rotated(g, dir.turns()),
                is_square(turned, n as nat),
                forall|r: int| 0 <= r < n ==> #[trigger] row_fits(turned[r]),
                start + rows_gain(turned, n as nat) <= usize::MAX,
                self.score == start + rows_gain(turned, y as nat),
                self.spawning == old(self).spawning,
                forall|r: int| 0 <= r < y ==> #[trigger] self.cells[r]@ == slid_row(turned[r]),
                forall|r: int| y <= r < n ==> #[trigger] self.cells[r]@ == turned[r],
                moved == exists|r: int| 0 <= r < y && #[trigger] slid_row(turned[r]) != turned[r],
            decreases n - y,
        {
            proof {
                lemma_rows_gain_mono(turned, (y + 1) as nat, n as nat);
            }
            let mut row: Row = self.cells[y];
            assert(row@ == turned[y as int]);
            let changed = slide_row(&mut row, &mut self.score);
            self.cells[y] = row;
            moved = moved || changed;
            y += 1;
        }
        let ghost slid = grid_of(self.cells);
        assert(slid =~~= slide_grid(turned));
        rotate(&mut self.cells, n - rot);
        proof {
            let k = dir.turns();
            assert(shift_gain(g, dir) == rows_gain(turned, n as nat));
            lemma_rotated_square(slid, n as nat, 0);
            assert forall|r: int| 0 <= r < n implies #[trigger] slid[r].len() == n by {
                assert(slid[r] == slid_row(turned[r]));
            }
            if moved {
                let r = choose|r: int| 0 <= r < n && #[trigger] slid_row(turned[r]) != turned[r];
                assert(slid[r] != turned[r]);
                assert(slid != turned);
                if grid_of(self.cells) == g {
                    lemma_rotated_add(slid, (4 - k) as nat, k);
                    lemma_full_turn_of(slid);
                    assert(rotated(grid_of(self.cells), k) == slid);
                }
            } else {
                assert(slid =~~= turned);
                lemma_rows_gain_zero(turned, n as nat);
                lemma_rotated_add(g, k, (4 - k) as nat);
                lemma_full_turn_of(g);
            }
        }
        moved
    }

    /// Moves all tiles on the board, merging any adjacent tiles of the same
    /// numeric value; if anything moved, places one new tile
    pub fn move_tiles(&mut self, dir: MoveDirection)
        requires
            old(self).fits_move(dir),
        ensures
            moved_to(*old(self), *final(self), dir),
    {
        let ghost before = *self;
        proof {
            reveal(moved_to);
        }
        let moved = self.shift(dir);
        if moved {
            self.add_random_tile();
        } else {
            assert(self.cells =~= before.cells) by {
                assert forall|r: int| 0 <= r < GAME_BOARD_SIZE implies self.cells[r] =~= before.cells[r] by {
                    assert(grid_of(self.cells)[r] == grid_of(before.cells)[r]);
                }
            }
        }
    }

    /// Whether the board is small enough for any move: every tile at most
    /// `usize::MAX / 32` and the score at most `usize::MAX / 2`
    pub open spec fn in_limits(&self) -> bool {
        tiles_at_most(grid_of(self.cells), tile_limit()) && self.score <= usize::MAX as int / 2
    }

    /// Whether the board is small enough for any move; if so, no move can
    /// overflow
    pub fn within_limits(&self) -> (r: bool)
        ensures
            r == self.in_limits(),
            r ==> forall|dir: MoveDirection| #[trigger] self.fits_move(dir),
    {
        let n: usize = GAME_BOARD_SIZE;
        let limit: usize = usize::MAX / 32;
        let ghost g = grid_of(self.cells);
        if self.score > usize::MAX / 2 {
            return false;
        }
        let mut y: usize = 0;
        while y < n
            invariant
                n == GAME_BOARD_SIZE,
                limit == tile_limit(),
                y <= n,
                g == grid_of(self.cells),
                forall|r: int, c: int| 0 <= r < y && 0 <= c < n ==> match #[trigger] g[r][c] {
                    BoardSpace::Tile(v) => v <= limit,
                    BoardSpace::Vacant => true,
                },
            decreases n - y,
        {
            let mut x: usize = 0;
            while x < n
                invariant
                    n == GAME_BOARD_SIZE,
                    limit == tile_limit(),
                    y < n,
                    x <= n,
                    g == grid_of(self.cells),
                    forall|r: int, c: int| 0 <= r < y && 0 <= c < n ==> match #[trigger] g[r][c] {
                        BoardSpace::Tile(v) => v <= limit,
                        BoardSpace::Vacant => true,
                    },
                    forall|c: int| 0 <= c < x ==> match #[trigger] g[y as int][c] {
                        BoardSpace::Tile(v) => v <= limit,
                        BoardSpace::Vacant => true,
                    },
                decreases n - x,
            {
                if let BoardSpace::Tile(v) = self.cells[y][x] {
                    if v > limit {
                        assert(g[y as int][x as int] == BoardSpace::Tile(v));
                        return false;
                    }
                }
                x += 1;
            }
            y += 1;
        }
        assert(tiles_at_most(g, tile_limit()));
        proof {
            assert forall|dir: MoveDirection| #[trigger] self.fits_move(dir) by {
                lemma_limits_fit(*self, dir);
            }
        }
        true
    }

    /// Whether no move remains: every cell holds a tile and no two neighbours
    /// in a row or a column are equal
    pub fn has_lost(&self) -> (r: bool)
        ensures
            r == stuck(grid_of(self.cells)),
    {
        !self.can_move()
    }

    fn can_move(&self) -> (r: bool)
        ensures
            r == !stuck(grid_of(self.cells)),
    {
        let n: usize = GAME_BOARD_SIZE;
        let ghost g = grid_of(self.cells);
        let mut y: usize = 0;
        while y < n
            invariant
                n == GAME_BOARD_SIZE,
                y <= n,
                g == grid_of(self.cells),
                forall|r: int, c: int| 0 <= r < y && 0 <= c < n ==> #[trigger] g[r][c] != BoardSpace::Vacant,
                forall|r: int, c: int| 0 <= r < y && 0 <= c < n - 1 ==> #[trigger] g[r][c] != g[r][c + 1],
                forall|r: int, c: int| 0 <= r < y && r < n - 1 && 0 <= c < n ==> #[trigger] g[r][c] != g[r + 1][c],
            decreases n - y,
        {
            let mut x: usize = 0;
            while x < n
                invariant
                    n == GAME_BOARD_SIZE,
                    y < n,
                    x <= n,
                    g == grid_of(self.cells),
                    forall|r: int, c: int| 0 <= r < y && 0 <= c < n ==> #[trigger] g[r][c] != BoardSpace::Vacant,
                    forall|r: int, c: int| 0 <= r < y && 0 <= c < n - 1 ==> #[trigger] g[r][c] != g[r][c + 1],
                    forall|r: int, c: int| 0 <= r < y && r < n - 1 && 0 <= c < n ==> #[trigger] g[r][c] != g[r + 1][c],
                    forall|c: int| 0 <= c < x ==> #[trigger] g[y as int][c] != BoardSpace::Vacant,
                    forall|c: int| 0 <= c < x && c < n - 1 ==> #[trigger] g[y as int][c] != g[y as int][c + 1],
                    forall|c: int| 0 <= c < x && y < n - 1 ==> #[trigger] g[y as int][c] != g[y + 1][c],
                decreases n - x,
            {
                let cell = self.cells[y][x];
                assert(cell == g[y as int][x as int]);
                if cell == BoardSpace::Vacant {
                    return true;
                }
                if x + 1 < n && cell == self.cells[y][x + 1] {
                    assert(g[y as int][x as int] == g[y as int][x + 1]);
                    return true;
                }
                if y + 1 < n && cell == self.cells[y + 1][x] {
                    assert(g[y as int][x as int] == g[y + 1][x as int]);
                    return true;
                }
                x += 1;
            }
            y += 1;
        }
        false
    }

    /// Locations of the vacant cells in row-major order
    pub fn all_empty_spaces(&self) -> (locations: Vec<GameBoardLocation>)
        ensures
            locations@ == empty_spaces(grid_of(self.cells), (GAME_BOARD_SIZE * GAME_BOARD_SIZE) as nat),
    {
        let n: usize = GAME_BOARD_SIZE;
        let ghost g = grid_of(self.cells);
        let mut locations: Vec<GameBoardLocation> = Vec::new();
        let mut y: usize = 0;
        while y < n
            invariant
                n == GAME_BOARD_SIZE,
                y <= n,
                g == grid_of(self.cells),
                locations@ == empty_spaces(g, (y * n) as nat),
            decreases n - y,
        {
            let mut x: usize = 0;
            while x < n
                invariant
                    n == GAME_BOARD_SIZE,
                    y < n,
                    x <= n,
                    g == grid_of(self.cells),
                    locations@ == empty_spaces(g, (y * n + x) as nat),
                decreases n - x,
            {
                let ghost i = y * n + x;
                assert(i / n as int == y && i % n as int == x);
                if self.cells[y][x] == BoardSpace::Vacant {
                    locations.push((x, y));
                }
                x += 1;
            }
            y += 1;
        }
        locations
    }

    /// Places a 2 (or, one time in ten, a 4) on a vacant cell chosen at
    /// random; does nothing where no cell is vacant or spawning is disabled
    fn add_random_tile(&mut self)
        ensures
            spawn_outcome(grid_of(old(self).cells), grid_of(final(self).cells), old(self).spawning),
            final(self).score == old(self).score,
            final(self).spawning == old(self).spawning,
    {
        if self.spawning == TileSpawning::Disabled {
            return;
        }
        let free_spaces = self.all_empty_spaces();
        let ghost g = grid_of(self.cells);
        proof {
            lemma_empty_spaces(g, (GAME_BOARD_SIZE * GAME_BOARD_SIZE) as nat);
        }
        if free_spaces.len() == 0 {
            assert(!has_vacancy(g)) by {
                if has_vacancy(g) {
                    let (x, y) = choose|x: int, y: int|
                        0 <= y < g.len() && 0 <= x < g[y].len() && #[trigger] g[y][x] == BoardSpace::Vacant;
                }
            }
            return;
        }
        let tile = if random_ratio(1, 10) {
            BoardSpace::Tile(4)
        } else {
            BoardSpace::Tile(2)
        };
        let index = random_below(free_spaces.len());
        let pos = free_spaces[index];
        assert(g[pos.1 as int][pos.0 as int] == BoardSpace::Vacant);
        self.set(pos, tile);
        proof {
            let v = match tile {
                BoardSpace::Tile(v) => v,
                BoardSpace::Vacant => 0,
            };
            assert(grid_of(self.cells) == placed(g, pos.0 as int, pos.1 as int, v));
        }
    }
}

impl Default for GameBoard {
    fn default() -> (board: Self)
        ensures
            grid_of(board.cells) == empty_grid(),
            board.score == 0,
            board.spawning == TileSpawning::Random,
    {
        Self::empty()
    }
}

impl From<Cells> for GameBoard {
    /// A board with the given grid, a score of 0 and random spawning
    fn from(def: Cells) -> (board: Self) {
        Self { cells: def, score: 0, spawning: TileSpawning::Random }
    }
}

impl vstd::std_specs::convert::FromSpecImpl<Cells> for GameBoard {
    open spec fn obeys_from_spec() -> bool {
        true
    }

    open spec fn from_spec(v: Cells) -> GameBoard {
        GameBoard { cells: v, score: 0, spawning: TileSpawning::Random }
    }
}

proof fn lemma_rotated_bounded(g: Seq<Seq<BoardSpace>>, b: int, k: nat)
    requires
        is_square(g, GAME_BOARD_SIZE as nat),
        tiles_at_most(g, b),
    ensures
        tiles_at_most(rotated(g, k), b),
    decreases k,
{
    if k > 0 {
        let h = rotated(g, (k - 1) as nat);
        lemma_rotated_bounded(g, b, (k - 1) as nat);
        lemma_rotated_square(g, GAME_BOARD_SIZE as nat, (k - 1) as nat);
        let q = quarter_turn(h);
        assert forall|r: int, c: int| 0 <= r < q.len() && 0 <= c < q[r].len() implies match #[trigger] q[r][c] {
            BoardSpace::Tile(v) => v <= b,
            BoardSpace::Vacant => true,
        } by {
            assert(q[r][c] == h[c][h.len() - 1 - r]);
        }
    }
}

proof fn lemma_rows_gain_bounded(g: Seq<Seq<BoardSpace>>, b: int, n: nat)
    requires
        is_square(g, GAME_BOARD_SIZE as nat),
        n <= GAME_BOARD_SIZE,
        0 <= b,
        2 * b <= usize::MAX,
        tiles_at_most(g, b),
    ensures
        rows_gain(g, n) <= n * (GAME_BOARD_SIZE * b),
        forall|r: int| 0 <= r < n ==> #[trigger] row_fits(g[r]),
    decreases n,
{
    if n > 0 {
        lemma_rows_gain_bounded(g, b, (n - 1) as nat);
        let row = g[n - 1];
        assert forall|c: int| 0 <= c < row.len() implies match #[trigger] row[c] {
            BoardSpace::Tile(v) => v <= b,
            BoardSpace::Vacant => true,
        } by {
            assert(row[c] == g[n - 1][c]);
        }
        lemma_row_bounded(row, b);
        lemma_tiles_len(row);
        let t = crate::slide::tiles_of(row);
        assert(t.len() * b <= GAME_BOARD_SIZE * b) by (nonlinear_arith)
            requires
                t.len() <= GAME_BOARD_SIZE,
                0 <= b,
        ;
        assert((n - 1) * (GAME_BOARD_SIZE * b) + GAME_BOARD_SIZE * b == n * (GAME_BOARD_SIZE * b))
            by (nonlinear_arith);
    }
}

/// A board within the limits can move in every direction without overflow.
pub proof fn lemma_limits_fit(board: GameBoard, dir: MoveDirection)
    requires
        board.in_limits(),
    ensures
        board.fits_move(dir),
{
    let g = grid_of(board.cells);
    let b = tile_limit();
    lemma_rotated_bounded(g, b, dir.turns());
    lemma_rotated_square(g, GAME_BOARD_SIZE as nat, dir.turns());
    lemma_rows_gain_bounded(rotated(g, dir.turns()), b, GAME_BOARD_SIZE as nat);
    assert(GAME_BOARD_SIZE * (GAME_BOARD_SIZE * b) <= usize::MAX as int / 2);
}

/// Four quarter turns restore a grid of the board's size.
pub proof fn lemma_full_turn_of(g: Seq<Seq<BoardSpace>>)
    requires
        is_square(g, GAME_BOARD_SIZE as nat),
    ensures
        rotated(g, 4) == g,
{
    crate::grid::lemma_full_turn(g, GAME_BOARD_SIZE as nat);
}

proof fn lemma_rows_gain_zero(g: Seq<Seq<BoardSpace>>, n: nat)
    requires
        n <= g.len(),
        forall|r: int| 0 <= r < n ==> #[trigger] slid_row(g[r]) == g[r],
    ensures
        rows_gain(g, n) == 0,
    decreases n,
{
    if n > 0 {
        lemma_rows_gain_zero(g, (n - 1) as nat);
        lemma_unchanged_no_gain(g[n - 1]);
    }
}

} // verus!
