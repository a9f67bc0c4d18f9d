use vstd::prelude::*;

verus! {

/// Default dimensions of the game board
pub const GAME_BOARD_SIZE: usize = 4;

/// Number of tiles placed on a freshly created board
pub const STARTING_TILES: usize = 2;

/// A location on the board, as (column, row)
pub type GameBoardLocation = (usize, usize);

/// The grid of a board, indexed as `cells[row][column]`
pub type Cells = [[BoardSpace; GAME_BOARD_SIZE]; GAME_BOARD_SIZE];

/// A space on the game board.
#[derive(Debug, Clone, Copy, PartialEq, Eq, Structural)]
pub enum BoardSpace {
    /// An empty space
    Vacant,
    /// A tile with a numeric value
    Tile(usize),
}

/// The grid as a sequence of rows, each a sequence of cells.
pub open spec fn grid_of(c: Cells) -> Seq<Seq<BoardSpace>> {
    Seq::new(GAME_BOARD_SIZE as nat, |r: int| c[r]@)
}

/// `g` has `n` rows of `n` cells each.
pub open spec fn is_square(g: Seq<Seq<BoardSpace>>, n: nat) -> bool {
    &&& g.len() == n
    &&& forall|r: int| 0 <= r < n ==> #[trigger] g[r].len() == n
}

/// One quarter turn: row `r` of the result is column `n - 1 - r` of `g`, read top to bottom.
pub open spec fn quarter_turn(g: Seq<Seq<BoardSpace>>) -> Seq<Seq<BoardSpace>> {
    Seq::new(g.len(), |r: int| Seq::new(g.len(), |c: int| g[c][g.len() - 1 - r]))
}

/// `g` turned `times` quarter turns.
pub open spec fn rotated(g: Seq<Seq<BoardSpace>>, times: nat) -> Seq<Seq<BoardSpace>>
    decreases times,
{
    if times == 0 {
        g
    } else {
        quarter_turn(rotated(g, (times - 1) as nat))
    }
}

pub proof fn lemma_rotated_square(g: Seq<Seq<BoardSpace>>, n: nat, times: nat)
    requires
        is_square(g, n),
    ensures
        is_square(rotated(g, times), n),
    decreases times,
{
    if times > 0 {
        lemma_rotated_square(g, n, (times - 1) as nat);
    }
}

/// Turning `a` then `b` times is turning `a + b` times.
pub proof fn lemma_rotated_add(g: Seq<Seq<BoardSpace>>, a: nat, b: nat)
    ensures
        rotated(rotated(g, a), b) == rotated(g, a + b),
    decreases b,
{
    if b > 0 {
        lemma_rotated_add(g, a, (b - 1) as nat);
        assert((a + b - 1) as nat == a + (b - 1) as nat);
    }
}

/// Four quarter turns restore a square grid.
pub proof fn lemma_full_turn(g: Seq<Seq<BoardSpace>>, n: nat)
    requires
        is_square(g, n),
    ensures
        rotated(g, 4) == g,
{
    let g1 = quarter_turn(g);
    let g2 = quarter_turn(g1);
    let g3 = quarter_turn(g2);
    let g4 = quarter_turn(g3);
    assert(rotated(g, 4) == g4) by {
        reveal_with_fuel(rotated, 5);
    }
    assert forall|r: int| 0 <= r < n implies #[trigger] g4[r] =~= g[r] by {
        assert forall|c: int| 0 <= c < n implies g4[r][c] == g[r][c] by {
            assert(g4[r][c] == g3[c][n - 1 - r]);
            assert(g3[c][n - 1 - r] == g2[n - 1 - r][n - 1 - c]);
            assert(g2[n - 1 - r][n - 1 - c] == g1[n - 1 - c][r]);
        }
    }
    assert(g4 =~= g);
}

/// Turning a square grid depends only on the number of turns modulo four.
pub proof fn lemma_rotated_mod(g: Seq<Seq<BoardSpace>>, n: nat, times: nat)
    requires
        is_square(g, n),
    ensures
        rotated(g, times) == rotated(g, times % 4),
    decreases times,
{
    if times >= 4 {
        lemma_full_turn(g, n);
        lemma_rotated_add(g, 4, (times - 4) as nat);
        lemma_rotated_mod(g, n, (times - 4) as nat);
        assert((times - 4) as nat % 4 == times % 4);
    }
}

/// Turning a square grid `k` times and then `(4 - k) mod 4` times gives it back unchanged.
pub proof fn lemma_rotation_composition(g: Seq<Seq<BoardSpace>>, n: nat, k: nat)
    requires
        is_square(g, n),
        k < 4,
    ensures
        rotated(rotated(g, k), ((4 - k) % 4) as nat) == g,
{
    lemma_rotated_add(g, k, ((4 - k) % 4) as nat);
    lemma_rotated_mod(g, n, k + ((4 - k) % 4) as nat);
}

/// A grid of vacant cells.
pub fn vacant_cells() -> (c: Cells)
    ensures
        forall|r: int, x: int|
            0 <= r < GAME_BOARD_SIZE && 0 <= x < GAME_BOARD_SIZE ==> #[trigger] c[r][x]
                == BoardSpace::Vacant,
{
    let mut c: Cells = [[BoardSpace::Vacant; GAME_BOARD_SIZE]; GAME_BOARD_SIZE];
    let n: usize = GAME_BOARD_SIZE;
    let mut r: usize = 0;
    while r < n
        invariant
            n == GAME_BOARD_SIZE,
            r <= n,
            forall|i: int, x: int| 0 <= i < r && 0 <= x < n ==> #[trigger] c[i][x] == BoardSpace::Vacant,
        decreases n - r,
    {
        let mut x: usize = 0;
        while x < n
            invariant
                n == GAME_BOARD_SIZE,
                r < n,
                x <= n,
                forall|i: int, j: int| 0 <= i < r && 0 <= j < n ==> #[trigger] c[i][j] == BoardSpace::Vacant,
                forall|j: int| 0 <= j < x ==> #[trigger] c[r as int][j] == BoardSpace::Vacant,
            decreases n - x,
        {
            c[r][x] = BoardSpace::Vacant;
            x += 1;
        }
        r += 1;
    }
    c
}

/// Turns `arrs` in place by one quarter turn.
fn quarter_turn_cells(arrs: &mut Cells)
    ensures
        grid_of(*final(arrs)) == quarter_turn(grid_of(*old(arrs))),
{
    let src: Cells = *arrs;
    let n: usize = GAME_BOARD_SIZE;
    let mut r: usize = 0;
    while r < n
        invariant
            n == GAME_BOARD_SIZE,
            r <= n,
            forall|i: int, j: int| 0 <= i < r && 0 <= j < n ==> arrs[i][j] == src[j][n - 1 - i],
        decreases n - r,
    {
        let mut c: usize = 0;
        while c < n
            invariant
                n == GAME_BOARD_SIZE,
                r < n,
                c <= n,
                forall|i: int, j: int| 0 <= i < r && 0 <= j < n ==> arrs[i][j] == src[j][n - 1 - i],
                forall|j: int| 0 <= j < c ==> arrs[r as int][j] == src[j][n - 1 - r],
            decreases n - c,
        {
            arrs[r][c] = src[c][n - 1 - r];
            c += 1;
        }
        r += 1;
    }
    assert(grid_of(*arrs) =~~= quarter_turn(grid_of(src)));
}

/// Rotates the grid in place, `times` quarter turns.
pub fn rotate(arrs: &mut Cells, times: usize)
    ensures
        grid_of(*final(arrs)) == rotated(grid_of(*old(arrs)), times as nat),
{
    let turns: usize = times % 4;
    let mut i: usize = 0;
    while i < turns
        invariant
            i <= turns,
            grid_of(*arrs) == rotated(grid_of(*old(arrs)), i as nat),
        decreases turns - i,
    {
        quarter_turn_cells(arrs);
        i += 1;
    }
    proof {
        lemma_rotated_mod(grid_of(*old(arrs)), GAME_BOARD_SIZE as nat, times as nat);
    }
}

} // verus!
