use vstd::prelude::*;

use crate::board::{moved_to, stuck, GameBoard, MoveDirection};
use crate::codec::{
    cell_at, cell_count, cell_label, decode_board, decodes_to, label_of, labels_valid,
    score_text, score_text_of,
};
use crate::grid::{grid_of, BoardSpace, GAME_BOARD_SIZE};
use crate::text::{decimal, push_decimal};

verus! {

/// How a cell's button is coloured.
#[derive(Debug, Clone, Copy, PartialEq, Eq, Structural)]
pub enum ButtonKind {
    /// A tile of 2048 or more
    Success,
    /// Any other tile
    Primary,
    /// A vacant cell
    Secondary,
}

/// The button that renders one cell.
#[derive(Debug)]
pub struct CellButton {
    pub label: String,
    pub custom_id: String,
    pub disabled: bool,
    pub kind: ButtonKind,
}

/// A board as a message: its score text, its cells row by row, and whether
/// the four direction buttons are disabled.
#[derive(Debug)]
pub struct Rendering {
    pub content: String,
    pub cells: Vec<CellButton>,
    pub controls_disabled: bool,
}

/// The answer to a press on one of a game's buttons.
#[derive(Debug)]
pub enum ButtonReply {
    /// The message does not hold a board, or one too large to move
    Malformed,
    /// Someone other than the player pressed the button
    NotYourGame,
    /// The button is not one of the four directions
    Ignore,
    /// The board after the move
    Update(Rendering),
}

pub open spec fn kind_of(cell: BoardSpace) -> ButtonKind {
    match cell {
        BoardSpace::Tile(t) => if t >= 2048 {
            ButtonKind::Success
        } else {
            ButtonKind::Primary
        },
        BoardSpace::Vacant => ButtonKind::Secondary,
    }
}

/// The id of the button at column `x`, row `y`: `x-y`.
pub open spec fn button_id(x: nat, y: nat) -> Seq<char> {
    decimal(x) + seq!['-'] + decimal(y)
}

/// The direction that an action token names, if any.
pub open spec fn action_of(token: Seq<char>) -> Option<MoveDirection> {
    if token == seq!['u', 'p'] {
        Some(MoveDirection::Up)
    } else if token == seq!['d', 'o', 'w', 'n'] {
        Some(MoveDirection::Down)
    } else if token == seq!['l', 'e', 'f', 't'] {
        Some(MoveDirection::Left)
    } else if token == seq!['r', 'i', 'g', 'h', 't'] {
        Some(MoveDirection::Right)
    } else {
        None
    }
}

/// `button` renders the `i`-th cell of `b` in row-major order.
pub open spec fn renders_cell(b: GameBoard, i: int, button: CellButton) -> bool {
    let cell = cell_at(b.cells, i);
    &&& button.label@ == label_of(cell)
    &&& button.custom_id@ == button_id(
        (i % GAME_BOARD_SIZE as int) as nat,
        (i / GAME_BOARD_SIZE as int) as nat,
    )
    &&& button.disabled == (cell == BoardSpace::Vacant)
    &&& button.kind == kind_of(cell)
}

/// `r` renders `b`.
#[verifier::opaque]
pub open spec fn renders(b: GameBoard, r: Rendering) -> bool {
    let lost = stuck(grid_of(b.cells));
    &&& r.content@ == score_text_of(b.score as nat, lost)
    &&& r.controls_disabled == lost
    &&& r.cells@.len() == cell_count()
    &&& forall|i: int| 0 <= i < cell_count() ==> #[trigger] renders_cell(b, i, r.cells@[i])
}

/// The direction that an action token names, if any.
pub fn parse_action(token: &str) -> (r: Option<MoveDirection>)
    ensures
        r == action_of(token@),
{
    let up = "up";
    let down = "down";
    let left = "left";
    let right = "right";
    proof {
        reveal_strlit("up");
        reveal_strlit("down");
        reveal_strlit("left");
        reveal_strlit("right");
        assert(up@ =~= seq!['u', 'p']);
        assert(down@ =~= seq!['d', 'o', 'w', 'n']);
        assert(left@ =~= seq!['l', 'e', 'f', 't']);
        assert(right@ =~= seq!['r', 'i', 'g', 'h', 't']);
    }
    if text_eq(token, up) {
        Some(MoveDirection::Up)
    } else if text_eq(token, down) {
        Some(MoveDirection::Down)
    } else if text_eq(token, left) {
        Some(MoveDirection::Left)
    } else if text_eq(token, right) {
        Some(MoveDirection::Right)
    } else {
        None
    }
}

fn text_eq(a: &str, b: &str) -> (r: bool)
    ensures
        r == (a@ == b@),
{
    let n = a.unicode_len();
    if n != b.unicode_len() {
        return false;
    }
    let mut i: usize = 0;
    while i < n
        invariant
            n == a@.len(),
            n == b@.len(),
            i <= n,
            forall|j: int| 0 <= j < i ==> a@[j] == b@[j],
        decreases n - i,
    {
        if a.get_char(i) != b.get_char(i) {
            return false;
        }
        i += 1;
    }
    assert(a@ =~= b@);
    true
}

fn cell_button(cell: BoardSpace, x: usize, y: usize) -> (r: CellButton)
    ensures
        r.label@ == label_of(cell),
        r.custom_id@ == button_id(x as nat, y as nat),
        r.disabled == (cell == BoardSpace::Vacant),
        r.kind == kind_of(cell),
{
    let mut id = String::new();
    push_decimal(&mut id, x);
    proof {
        reveal_strlit("-");
    }
    id.append("-");
    push_decimal(&mut id, y);
    assert(id@ =~= button_id(x as nat, y as nat));
    let kind = match cell {
        BoardSpace::Tile(t) => if t >= 2048 {
            ButtonKind::Success
        } else {
            ButtonKind::Primary
        },
        BoardSpace::Vacant => ButtonKind::Secondary,
    };
    CellButton {
        label: cell_label(cell),
        custom_id: id,
        disabled: cell == BoardSpace::Vacant,
        kind,
    }
}

/// Renders `board` as a message.
pub fn render(board: &GameBoard) -> (r: Rendering)
    ensures
        renders(*board, r),
{
    let n: usize = GAME_BOARD_SIZE;
    let lost = board.has_lost();
    let mut cells: Vec<CellButton> = Vec::new();
    let mut y: usize = 0;
    while y < n
        invariant
            n == GAME_BOARD_SIZE,
            y <= n,
            cells@.len() == y * n,
            forall|i: int| 0 <= i < y * n ==> #[trigger] renders_cell(*board, i, cells@[i]),
        decreases n - y,
    {
        let mut x: usize = 0;
        while x < n
            invariant
                n == GAME_BOARD_SIZE,
                y < n,
                x <= n,
                cells@.len() == y * n + x,
                forall|i: int| 0 <= i < y * n + x ==> #[trigger] renders_cell(*board, i, cells@[i]),
            decreases n - x,
        {
            let ghost i = y * n + x;
            assert(i / n as int == y && i % n as int == x);
            cells.push(cell_button(board.cells[y][x], x, y));
            assert(renders_cell(*board, i, cells@[i]));
            x += 1;
        }
        y += 1;
    }
    let r = Rendering { content: score_text(board.score, lost), cells, controls_disabled: lost };
    proof {
        reveal(renders);
    }
    r
}

/// Moves `game` towards `dir` and renders the result.
fn play(game: GameBoard, dir: MoveDirection) -> (r: Rendering)
    requires
        game.in_limits(),
    ensures
        exists|after: GameBoard| moved_to(game, after, dir) && #[trigger] renders(after, r),
{
    let mut after = game;
    assert(after.fits_move(dir)) by {
        crate::board::lemma_limits_fit(game, dir);
    }
    after.move_tiles(dir);
    let r = render(&after);
    assert(moved_to(game, after, dir) && renders(after, r));
    r
}

/// Answers a press on `action` by `presser` in the game of `owner`, whose
/// message shows the cell labels `labels` and the text `content`.
pub fn press_button(
    labels: &Vec<String>,
    content: &str,
    presser: u64,
    owner: u64,
    action: &str,
) -> (r: ButtonReply)
    ensures
        !labels_valid(labels@) ==> r is Malformed,
        labels_valid(labels@) && presser != owner ==> r is NotYourGame,
        labels_valid(labels@) && presser == owner && action_of(action@) is None ==> r is Ignore,
        labels_valid(labels@) && presser == owner && action_of(action@) is Some ==> {
            let dir = action_of(action@)->0;
            &&& exists|b: GameBoard| decodes_to(labels@, content@, b)
            &&& forall|b: GameBoard|
                decodes_to(labels@, content@, b) ==> {
                    &&& !b.in_limits() ==> r is Malformed
                    &&& b.in_limits() ==> (r matches ButtonReply::Update(rd) && exists|after: GameBoard|
                        moved_to(b, after, dir) && #[trigger] renders(after, rd))
                }
        },
{
    let decoded = decode_board(labels, content);
    let game = match decoded {
        Some(b) => b,
        None => return ButtonReply::Malformed,
    };
    if presser != owner {
        return ButtonReply::NotYourGame;
    }
    let dir = match parse_action(action) {
        Some(d) => d,
        None => return ButtonReply::Ignore,
    };
    let ghost before = game;
    proof {
        lemma_decoded_unique(labels@, content@, before);
    }
    if !game.within_limits() {
        assert(!before.in_limits());
        assert(decodes_to(labels@, content@, before));
        return ButtonReply::Malformed;
    }
    let rd = play(game, dir);
    let r = ButtonReply::Update(rd);
    proof {
        assert forall|b: GameBoard| decodes_to(labels@, content@, b) implies exists|after: GameBoard|
            moved_to(b, after, dir) && #[trigger] renders(after, rd) by {
            assert(b == before);
        }
        assert(r matches ButtonReply::Update(x) && x == rd);
        assert(decodes_to(labels@, content@, before));
    }
    r
}

/// Only one board decodes from a message.
proof fn lemma_decoded_unique(labels: Seq<String>, content: Seq<char>, b: GameBoard)
    requires
        decodes_to(labels, content, b),
    ensures
        forall|c: GameBoard| decodes_to(labels, content, c) ==> c == b,
{
    reveal(decodes_to);
    assert forall|c: GameBoard| decodes_to(labels, content, c) implies c == b by {
        assert forall|r: int| 0 <= r < GAME_BOARD_SIZE implies c.cells[r] =~= b.cells[r] by {
            assert forall|x: int| 0 <= x < GAME_BOARD_SIZE implies c.cells[r][x] == b.cells[r][x] by {
                let i = r * GAME_BOARD_SIZE + x;
                assert(i / GAME_BOARD_SIZE as int == r && i % GAME_BOARD_SIZE as int == x);
                assert(Some(cell_at(c.cells, i)) == Some(cell_at(b.cells, i)));
            }
        }
        assert(c.cells =~= b.cells);
    }
}

} // verus!
