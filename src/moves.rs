//! What moves do to a grid, in plain terms, and when no move is left.

use vstd::prelude::*;

use crate::board::{
    lemma_full_turn_of, shifted, slide_grid, stuck, GameBoard, MoveDirection,
};
use crate::grid::{
    grid_of, is_square, lemma_rotated_add, lemma_rotated_square, quarter_turn, rotated,
    BoardSpace, GAME_BOARD_SIZE,
};
use crate::slide::{lemma_gap_row_changes, lemma_pair_row_changes, lemma_settled_row, slid_row};

verus! {

/// The cells of `g` turned one, two and three times.
proof fn lemma_rotated_cells(g: Seq<Seq<BoardSpace>>)
    requires
        is_square(g, GAME_BOARD_SIZE as nat),
    ensures
        rotated(g, 0) == g,
        is_square(rotated(g, 1), GAME_BOARD_SIZE as nat),
        is_square(rotated(g, 2), GAME_BOARD_SIZE as nat),
        is_square(rotated(g, 3), GAME_BOARD_SIZE as nat),
        forall|r: int, c: int|
            0 <= r < GAME_BOARD_SIZE && 0 <= c < GAME_BOARD_SIZE ==> {
                &&& #[trigger] rotated(g, 1)[r][c] == g[c][GAME_BOARD_SIZE - 1 - r]
                &&& rotated(g, 2)[r][c] == g[GAME_BOARD_SIZE - 1 - r][GAME_BOARD_SIZE - 1 - c]
                &&& rotated(g, 3)[r][c] == g[GAME_BOARD_SIZE - 1 - c][r]
            },
{
    let n = GAME_BOARD_SIZE as int;
    lemma_rotated_square(g, n as nat, 1);
    lemma_rotated_square(g, n as nat, 2);
    lemma_rotated_square(g, n as nat, 3);
    let g1 = quarter_turn(g);
    let g2 = quarter_turn(g1);
    let g3 = quarter_turn(g2);
    assert(rotated(g, 1) == g1 && rotated(g, 2) == g2 && rotated(g, 3) == g3) by {
        reveal_with_fuel(rotated, 4);
    }
    assert forall|r: int, c: int| 0 <= r < n && 0 <= c < n implies {
        &&& #[trigger] rotated(g, 1)[r][c] == g[c][n - 1 - r]
        &&& rotated(g, 2)[r][c] == g[n - 1 - r][n - 1 - c]
        &&& rotated(g, 3)[r][c] == g[n - 1 - c][r]
    } by {
        assert(g1[r][c] == g[c][n - 1 - r]);
        assert(g2[r][c] == g1[c][n - 1 - r]);
        assert(g1[c][n - 1 - r] == g[n - 1 - r][n - 1 - c]);
        assert(g3[r][c] == g2[c][n - 1 - r]);
        assert(g2[c][n - 1 - r] == g1[n - 1 - r][n - 1 - c]);
        assert(g1[n - 1 - r][n - 1 - c] == g[n - 1 - c][r]);
    }
}

/// Column `c` of `g`, read top to bottom.
pub open spec fn column(g: Seq<Seq<BoardSpace>>, c: int) -> Seq<BoardSpace> {
    Seq::new(g.len(), |r: int| g[r][c])
}

/// Each move in plain terms: a left move slides every row to the left, a
/// right move slides every row to the right, an up move slides every column
/// to the top, a down move slides every column to the bottom.
pub proof fn lemma_shift_directions(g: Seq<Seq<BoardSpace>>)
    requires
        is_square(g, GAME_BOARD_SIZE as nat),
    ensures
        forall|r: int, c: int|
            0 <= r < GAME_BOARD_SIZE && 0 <= c < GAME_BOARD_SIZE ==> {
                let n = GAME_BOARD_SIZE as int;
                &&& #[trigger] shifted(g, MoveDirection::Left)[r][c] == slid_row(g[r])[c]
                &&& shifted(g, MoveDirection::Right)[r][c] == slid_row(g[r].reverse())[n - 1 - c]
                &&& shifted(g, MoveDirection::Up)[r][c] == slid_row(column(g, c))[r]
                &&& shifted(g, MoveDirection::Down)[r][c] == slid_row(column(g, c).reverse())[n
                    - 1 - r]
            },
{
    let n = GAME_BOARD_SIZE as int;
    lemma_rotated_cells(g);
    let s0 = slide_grid(rotated(g, 0));
    let s1 = slide_grid(rotated(g, 1));
    let s2 = slide_grid(rotated(g, 2));
    let s3 = slide_grid(rotated(g, 3));
    assert forall|h: Seq<Seq<BoardSpace>>| is_square(h, n as nat) implies #[trigger] is_square(
        slide_grid(h),
        n as nat,
    ) by {
        assert forall|r: int| 0 <= r < n implies #[trigger] slide_grid(h)[r].len() == n by {
            assert(slide_grid(h)[r] == slid_row(h[r]));
        }
    }
    lemma_full_turn_of(s0);
    lemma_rotated_cells(s1);
    lemma_rotated_cells(s2);
    lemma_rotated_cells(s3);
    assert forall|r: int, c: int| 0 <= r < n && 0 <= c < n implies {
        &&& #[trigger] shifted(g, MoveDirection::Left)[r][c] == slid_row(g[r])[c]
        &&& shifted(g, MoveDirection::Right)[r][c] == slid_row(g[r].reverse())[n - 1 - c]
        &&& shifted(g, MoveDirection::Up)[r][c] == slid_row(column(g, c))[r]
        &&& shifted(g, MoveDirection::Down)[r][c] == slid_row(column(g, c).reverse())[n - 1 - r]
    } by {
        assert(rotated(g, 2)[n - 1 - r] =~= g[r].reverse()) by {
            assert forall|j: int| 0 <= j < n implies rotated(g, 2)[n - 1 - r][j] == g[r].reverse()[j] by {
                assert(rotated(g, 2)[n - 1 - r][j] == g[r][n - 1 - j]);
            }
        }
        assert(rotated(g, 1)[n - 1 - c] =~= column(g, c)) by {
            assert forall|j: int| 0 <= j < n implies rotated(g, 1)[n - 1 - c][j] == column(g, c)[j] by {
                assert(rotated(g, 1)[n - 1 - c][j] == g[j][c]);
            }
        }
        assert(rotated(g, 3)[c] =~= column(g, c).reverse()) by {
            assert forall|j: int| 0 <= j < n implies rotated(g, 3)[c][j] == column(g, c).reverse()[j] by {
                assert(rotated(g, 3)[c][j] == g[n - 1 - j][c]);
            }
        }
        assert(s1[n - 1 - c] == slid_row(rotated(g, 1)[n - 1 - c]));
        assert(s2[n - 1 - r] == slid_row(rotated(g, 2)[n - 1 - r]));
        assert(s3[c] == slid_row(rotated(g, 3)[c]));
        assert(s0[r] == slid_row(g[r]));
    }
}

/// A move leaves a grid unchanged exactly when sliding its turned grid does.
proof fn lemma_shift_iff_slide(g: Seq<Seq<BoardSpace>>, dir: MoveDirection)
    requires
        is_square(g, GAME_BOARD_SIZE as nat),
    ensures
        (shifted(g, dir) == g) == (slide_grid(rotated(g, dir.turns())) == rotated(g, dir.turns())),
{
    let n = GAME_BOARD_SIZE as nat;
    let k = dir.turns();
    let turned = rotated(g, k);
    let slid = slide_grid(turned);
    lemma_rotated_square(g, n, k);
    assert forall|r: int| 0 <= r < n implies #[trigger] slid[r].len() == n by {
        assert(slid[r] == slid_row(turned[r]));
    }
    if slid == turned {
        lemma_rotated_add(g, k, (4 - k) as nat);
        lemma_full_turn_of(g);
    }
    if shifted(g, dir) == g {
        lemma_rotated_add(slid, (4 - k) as nat, k);
        lemma_full_turn_of(slid);
    }
}

/// Turning a stuck grid leaves it stuck.
proof fn lemma_stuck_turned(g: Seq<Seq<BoardSpace>>, k: nat)
    requires
        is_square(g, GAME_BOARD_SIZE as nat),
        stuck(g),
    ensures
        stuck(rotated(g, k)),
    decreases k,
{
    if k > 0 {
        let n = GAME_BOARD_SIZE as int;
        let h = rotated(g, (k - 1) as nat);
        lemma_stuck_turned(g, (k - 1) as nat);
        lemma_rotated_square(g, n as nat, (k - 1) as nat);
        let q = quarter_turn(h);
        assert forall|r: int, c: int| 0 <= r < n && 0 <= c < n implies #[trigger] q[r][c] != BoardSpace::Vacant by {
            assert(q[r][c] == h[c][n - 1 - r]);
        }
        assert forall|r: int, c: int| 0 <= r < n && 0 <= c < n - 1 implies #[trigger] q[r][c] != q[r][c + 1] by {
            assert(q[r][c] == h[c][n - 1 - r]);
            assert(q[r][c + 1] == h[c + 1][n - 1 - r]);
        }
        assert forall|r: int, c: int| 0 <= r < n - 1 && 0 <= c < n implies #[trigger] q[r][c] != q[r + 1][c] by {
            assert(q[r][c] == h[c][n - 1 - r]);
            assert(q[r + 1][c] == h[c][n - 1 - r - 1]);
            assert(h[c][n - 2 - r] != h[c][n - 2 - r + 1]);
        }
    }
}

/// No direction changes a stuck grid.
proof fn lemma_stuck_settled(g: Seq<Seq<BoardSpace>>, dir: MoveDirection)
    requires
        is_square(g, GAME_BOARD_SIZE as nat),
        stuck(g),
    ensures
        shifted(g, dir) == g,
{
    let n = GAME_BOARD_SIZE as int;
    let turned = rotated(g, dir.turns());
    lemma_stuck_turned(g, dir.turns());
    lemma_rotated_square(g, n as nat, dir.turns());
    assert forall|r: int| 0 <= r < n implies #[trigger] slide_grid(turned)[r] == turned[r] by {
        let row = turned[r];
        assert forall|i: int| 0 <= i < row.len() implies #[trigger] row[i] != BoardSpace::Vacant by {
            assert(turned[r][i] != BoardSpace::Vacant);
        }
        assert forall|i: int| 0 <= i < row.len() - 1 implies #[trigger] row[i] != row[i + 1] by {
            assert(turned[r][i] != turned[r][i + 1]);
        }
        lemma_settled_row(row);
    }
    assert(slide_grid(turned) =~= turned);
    lemma_shift_iff_slide(g, dir);
}

/// A row of the turned grid that sliding changes makes the move change the grid.
proof fn lemma_row_moves(g: Seq<Seq<BoardSpace>>, dir: MoveDirection, r: int)
    requires
        is_square(g, GAME_BOARD_SIZE as nat),
        0 <= r < GAME_BOARD_SIZE,
        slid_row(rotated(g, dir.turns())[r]) != rotated(g, dir.turns())[r],
    ensures
        shifted(g, dir) != g,
{
    let turned = rotated(g, dir.turns());
    lemma_rotated_square(g, GAME_BOARD_SIZE as nat, dir.turns());
    assert(slide_grid(turned)[r] != turned[r]);
    lemma_shift_iff_slide(g, dir);
}

/// A vacant cell and a tile on one line: some move changes the grid.
proof fn lemma_line_gap(g: Seq<Seq<BoardSpace>>, r0: int, c0: int, r1: int, c1: int)
    requires
        is_square(g, GAME_BOARD_SIZE as nat),
        0 <= r0 < GAME_BOARD_SIZE && 0 <= c0 < GAME_BOARD_SIZE,
        0 <= r1 < GAME_BOARD_SIZE && 0 <= c1 < GAME_BOARD_SIZE,
        r0 == r1 || c0 == c1,
        g[r0][c0] == BoardSpace::Vacant,
        g[r1][c1] != BoardSpace::Vacant,
    ensures
        exists|dir: MoveDirection| shifted(g, dir) != g,
{
    let n = GAME_BOARD_SIZE as int;
    lemma_rotated_cells(g);
    if r0 == r1 {
        if c0 < c1 {
            let row = rotated(g, 0)[r0];
            lemma_gap_row_changes(row, c0, c1);
            lemma_row_moves(g, MoveDirection::Left, r0);
        } else {
            let t = rotated(g, 2);
            assert(t[n - 1 - r0][n - 1 - c0] == g[r0][c0]);
            assert(t[n - 1 - r0][n - 1 - c1] == g[r0][c1]);
            lemma_gap_row_changes(t[n - 1 - r0], n - 1 - c0, n - 1 - c1);
            lemma_row_moves(g, MoveDirection::Right, n - 1 - r0);
        }
    } else {
        if r0 < r1 {
            let t = rotated(g, 1);
            assert(t[n - 1 - c0][r0] == g[r0][c0]);
            assert(t[n - 1 - c0][r1] == g[r1][c0]);
            lemma_gap_row_changes(t[n - 1 - c0], r0, r1);
            lemma_row_moves(g, MoveDirection::Up, n - 1 - c0);
        } else {
            let t = rotated(g, 3);
            assert(t[c0][n - 1 - r0] == g[r0][c0]);
            assert(t[c0][n - 1 - r1] == g[r1][c0]);
            lemma_gap_row_changes(t[c0], n - 1 - r0, n - 1 - r1);
            lemma_row_moves(g, MoveDirection::Down, c0);
        }
    }
}

/// A grid that is not stuck and holds a tile: some move changes it.
proof fn lemma_unstuck_moves(g: Seq<Seq<BoardSpace>>)
    requires
        is_square(g, GAME_BOARD_SIZE as nat),
        !stuck(g),
        exists|r: int, c: int|
            0 <= r < GAME_BOARD_SIZE && 0 <= c < GAME_BOARD_SIZE && #[trigger] g[r][c]
                != BoardSpace::Vacant,
    ensures
        exists|dir: MoveDirection| shifted(g, dir) != g,
{
    let n = GAME_BOARD_SIZE as int;
    lemma_rotated_cells(g);
    if exists|r: int, c: int| 0 <= r < n && 0 <= c < n && #[trigger] g[r][c] == BoardSpace::Vacant {
        let (r0, c0) = choose|r: int, c: int|
            0 <= r < n && 0 <= c < n && #[trigger] g[r][c] == BoardSpace::Vacant;
        let (r1, c1) = choose|r: int, c: int|
            0 <= r < n && 0 <= c < n && #[trigger] g[r][c] != BoardSpace::Vacant;
        if r0 == r1 || c0 == c1 {
            lemma_line_gap(g, r0, c0, r1, c1);
        } else if g[r0][c1] == BoardSpace::Vacant {
            lemma_line_gap(g, r0, c1, r1, c1);
        } else {
            lemma_line_gap(g, r0, c0, r0, c1);
        }
    } else if exists|r: int, c: int| 0 <= r < n && 0 <= c < n - 1 && #[trigger] g[r][c] == g[r][c + 1] {
        let (r, c) = choose|r: int, c: int| 0 <= r < n && 0 <= c < n - 1 && #[trigger] g[r][c] == g[r][c + 1];
        let row = rotated(g, 0)[r];
        assert forall|i: int| 0 <= i < row.len() implies #[trigger] row[i] != BoardSpace::Vacant by {
            assert(g[r][i] != BoardSpace::Vacant);
        }
        lemma_pair_row_changes(row, c);
        lemma_row_moves(g, MoveDirection::Left, r);
    } else {
        let (r, c) = choose|r: int, c: int| 0 <= r < n - 1 && 0 <= c < n && #[trigger] g[r][c] == g[r + 1][c];
        let t = rotated(g, 1);
        let row = t[n - 1 - c];
        assert(row[r] == g[r][c]);
        assert(row[r + 1] == g[r + 1][c]);
        assert forall|i: int| 0 <= i < row.len() implies #[trigger] row[i] != BoardSpace::Vacant by {
            assert(row[i] == g[i][c]);
        }
        lemma_pair_row_changes(row, r);
        lemma_row_moves(g, MoveDirection::Up, n - 1 - c);
    }
}

/// A board that holds at least one tile has lost exactly when no direction
/// would change its grid.
pub proof fn lemma_lost_iff_no_move(board: GameBoard)
    requires
        exists|r: int, c: int|
            0 <= r < GAME_BOARD_SIZE && 0 <= c < GAME_BOARD_SIZE && #[trigger] board.cells[r][c]
                != BoardSpace::Vacant,
    ensures
        stuck(grid_of(board.cells)) <==> forall|dir: MoveDirection| #[trigger] shifted(grid_of(board.cells), dir) == grid_of(board.cells),
{
    let g = grid_of(board.cells);
    let n = GAME_BOARD_SIZE as int;
    let (r, c) = choose|r: int, c: int| 0 <= r < n && 0 <= c < n && #[trigger] board.cells[r][c] != BoardSpace::Vacant;
    assert(g[r][c] == board.cells[r][c]);
    if stuck(g) {
        assert forall|dir: MoveDirection| #[trigger] shifted(g, dir) == g by {
            lemma_stuck_settled(g, dir);
        }
    } else {
        lemma_unstuck_moves(g);
    }
}

/// A full grid with no two equal neighbours in any row or column is lost, and
/// no move changes it.
pub proof fn lemma_stuck_is_lost(board: GameBoard, dir: MoveDirection)
    requires
        stuck(grid_of(board.cells)),
    ensures
        shifted(grid_of(board.cells), dir) == grid_of(board.cells),
{
    lemma_stuck_settled(grid_of(board.cells), dir);
}

} // verus!
