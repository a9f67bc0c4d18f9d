use vstd::prelude::*;

use crate::board::{GameBoard, TileSpawning};
use crate::grid::{vacant_cells, BoardSpace, Cells, GAME_BOARD_SIZE};
use crate::text::{
    all_digits, decimal, decimal_string, digit_char, digit_value, digits_value, lemma_digit_char, find, find_first, is_digit,
    is_space, leading_space, occurs_at, parse_decimal, parse_usize, push_decimal, trailing_space,
    trim, trimmed,
};

verus! {

/// The label of a vacant cell: a zero-width space, which renders as nothing.
pub open spec fn vacant_label() -> Seq<char> {
    seq!['\u{200b}']
}

/// The text in front of the score in a rendered message.
pub open spec fn score_prefix() -> Seq<char> {
    seq!['*', '*', 'S', 'c', 'o', 'r', 'e', ':', '*', '*', ' ']
}

/// The line in front of the score once the game is over.
pub open spec fn game_over_prefix() -> Seq<char> {
    seq!['*', '*', 'G', 'a', 'm', 'e', ' ', 'O', 'v', 'e', 'r', '!', '*', '*', '\n', '>', ' ']
}

/// The label that renders `cell`: its value in decimal, or the vacant label.
pub open spec fn label_of(cell: BoardSpace) -> Seq<char> {
    match cell {
        BoardSpace::Vacant => vacant_label(),
        BoardSpace::Tile(v) => decimal(v as nat),
    }
}

/// The cell that `label` renders, if it renders one.
pub open spec fn cell_of_label(label: Seq<char>) -> Option<BoardSpace> {
    if label == vacant_label() {
        Some(BoardSpace::Vacant)
    } else {
        match parse_usize(label) {
            Some(v) => Some(BoardSpace::Tile(v)),
            None => None,
        }
    }
}

/// The message text that shows `score`, with a game-over line in front once
/// the game is lost.
pub open spec fn score_text_of(score: nat, lost: bool) -> Seq<char> {
    if lost {
        game_over_prefix() + score_prefix() + decimal(score)
    } else {
        score_prefix() + decimal(score)
    }
}

/// The score that `content` shows: what follows the first score prefix, with
/// white space trimmed, read as a `usize`; 0 where there is no prefix or no
/// such number.
pub open spec fn score_of(content: Seq<char>) -> usize {
    match find(content, score_prefix()) {
        Some(i) => match parse_usize(
            trimmed(content.subrange(i + score_prefix().len(), content.len() as int)),
        ) {
            Some(v) => v,
            None => 0,
        },
        None => 0,
    }
}

/// The cell that the `i`-th label, in row-major order, stands for.
pub open spec fn cell_at(c: Cells, i: int) -> BoardSpace {
    c[i / GAME_BOARD_SIZE as int][i % GAME_BOARD_SIZE as int]
}

/// The number of cells of a board.
pub open spec fn cell_count() -> int {
    GAME_BOARD_SIZE * GAME_BOARD_SIZE
}

/// Every label is one that `cell_of_label` reads.
pub open spec fn labels_readable(labels: Seq<String>) -> bool {
    forall|i: int| 0 <= i < labels.len() ==> #[trigger] cell_of_label(labels[i]@) is Some
}

/// `b` is the board that `labels` and `content` render.
#[verifier::opaque]
pub open spec fn decodes_to(labels: Seq<String>, content: Seq<char>, b: GameBoard) -> bool {
    &&& b.score == score_of(content)
    &&& b.spawning == TileSpawning::Random
    &&& forall|i: int|
        0 <= i < cell_count() ==> Some(#[trigger] cell_at(b.cells, i)) == cell_of_label(labels[i]@)
}

/// `labels` hold one readable label for each cell.
pub open spec fn labels_valid(labels: Seq<String>) -> bool {
    labels.len() == cell_count() && labels_readable(labels)
}

impl BoardSpace {
    /// The text of the cell for a plain grid: its value, or nothing when vacant.
    pub fn text(&self) -> (r: String)
        ensures
            r@ == match *self {
                BoardSpace::Vacant => Seq::<char>::empty(),
                BoardSpace::Tile(n) => decimal(n as nat),
            },
    {
        match self {
            BoardSpace::Vacant => String::new(),
            BoardSpace::Tile(n) => decimal_string(*n),
        }
    }
}

/// The label of a cell.
pub fn cell_label(cell: BoardSpace) -> (r: String)
    ensures
        r@ == label_of(cell),
{
    match cell {
        BoardSpace::Vacant => {
            proof {
                reveal_strlit("\u{200b}");
            }
            String::from_str("\u{200b}")
        },
        BoardSpace::Tile(v) => decimal_string(v),
    }
}

/// The cell that `label` renders, if it renders one.
pub fn label_cell(label: &str) -> (r: Option<BoardSpace>)
    ensures
        r == cell_of_label(label@),
{
    proof {
        reveal_strlit("\u{200b}");
    }
    if label.unicode_len() == 1 && label.get_char(0) == '\u{200b}' {
        assert(label@ =~= vacant_label());
        return Some(BoardSpace::Vacant);
    }
    assert(label@ != vacant_label());
    match parse_decimal(label) {
        Some(v) => Some(BoardSpace::Tile(v)),
        None => None,
    }
}

/// The labels of all cells, row by row.
pub fn board_labels(board: &GameBoard) -> (r: Vec<String>)
    ensures
        r@.len() == cell_count(),
        forall|i: int| 0 <= i < cell_count() ==> #[trigger] r@[i]@ == label_of(cell_at(board.cells, i)),
{
    let n: usize = GAME_BOARD_SIZE;
    let mut labels: Vec<String> = Vec::new();
    let mut y: usize = 0;
    while y < n
        invariant
            n == GAME_BOARD_SIZE,
            y <= n,
            labels@.len() == y * n,
            forall|i: int| 0 <= i < y * n ==> #[trigger] labels@[i]@ == label_of(cell_at(board.cells, i)),
        decreases n - y,
    {
        let mut x: usize = 0;
        while x < n
            invariant
                n == GAME_BOARD_SIZE,
                y < n,
                x <= n,
                labels@.len() == y * n + x,
                forall|i: int| 0 <= i < y * n + x ==> #[trigger] labels@[i]@ == label_of(cell_at(board.cells, i)),
            decreases n - x,
        {
            let ghost i = y * n + x;
            assert(i / n as int == y && i % n as int == x);
            labels.push(cell_label(board.cells[y][x]));
            x += 1;
        }
        y += 1;
    }
    labels
}

/// The score shown in `content`; 0 where it shows none.
pub fn score_from_text(content: &str) -> (r: usize)
    ensures
        r == score_of(content@),
{
    let prefix = "**Score:** ";
    proof {
        reveal_strlit("**Score:** ");
        assert(prefix@ =~= score_prefix());
    }
    let found = find_first(content, prefix);
    match found {
        Some(start) => {
            let len = content.unicode_len();
            assert(start + 11 <= len);
            let rest = content.substring_char(start + 11, len);
            let number = trim(rest);
            let parsed = parse_decimal(number);
            assert(parsed == parse_usize(
                trimmed(content@.subrange(start + score_prefix().len(), content@.len() as int)),
            ));
            match parsed {
                Some(v) => v,
                None => 0,
            }
        },
        None => 0,
    }
}

/// The message text that shows `score`, led by a game-over line when `lost`.
pub fn score_text(score: usize, lost: bool) -> (r: String)
    ensures
        r@ == score_text_of(score as nat, lost),
{
    let mut s = String::new();
    if lost {
        proof {
            reveal_strlit("**Game Over!**\n> ");
        }
        s.append("**Game Over!**\n> ");
    }
    proof {
        reveal_strlit("**Score:** ");
    }
    s.append("**Score:** ");
    push_decimal(&mut s, score);
    proof {
        if lost {
            assert(s@ =~= score_text_of(score as nat, lost));
        } else {
            assert(s@ =~= score_text_of(score as nat, lost));
        }
    }
    s
}

/// Rebuilds a board from the labels of its cells, row by row, and the text
/// that shows its score. Gives `None` unless there is one readable label for
/// each cell.
pub fn decode_board(labels: &Vec<String>, content: &str) -> (r: Option<GameBoard>)
    ensures
        r is Some <==> labels_valid(labels@),
        r matches Some(b) ==> decodes_to(labels@, content@, b),
{
    let n: usize = GAME_BOARD_SIZE;
    if labels.len() != n * n {
        return None;
    }
    let mut cells: Cells = vacant_cells();
    let mut y: usize = 0;
    while y < n
        invariant
            n == GAME_BOARD_SIZE,
            y <= n,
            labels@.len() == n * n,
            forall|i: int| 0 <= i < y * n ==> cell_of_label(#[trigger] labels@[i]@) is Some,
            forall|i: int|
                0 <= i < y * n ==> Some(#[trigger] cell_at(cells, i)) == cell_of_label(labels@[i]@),
        decreases n - y,
    {
        let mut x: usize = 0;
        while x < n
            invariant
                n == GAME_BOARD_SIZE,
                y < n,
                x <= n,
                labels@.len() == n * n,
                forall|i: int| 0 <= i < y * n + x ==> cell_of_label(#[trigger] labels@[i]@) is Some,
                forall|i: int|
                    0 <= i < y * n + x ==> Some(#[trigger] cell_at(cells, i)) == cell_of_label(
                        labels@[i]@,
                    ),
            decreases n - x,
        {
            let ghost i = y * n + x;
            assert(i / n as int == y && i % n as int == x);
            let k = y * n + x;
            match label_cell(labels[k].as_str()) {
                Some(cell) => {
                    let ghost before = cells;
                    cells[y][x] = cell;
                    assert forall|j: int| 0 <= j < y * n + x + 1 implies Some(
                        #[trigger] cell_at(cells, j),
                    ) == cell_of_label(labels@[j]@) by {
                        if j < i {
                            assert(j / n as int != y || j % n as int != x);
                            assert(cell_at(cells, j) == cell_at(before, j));
                        }
                    }
                },
                None => {
                    assert(!labels_readable(labels@));
                    return None;
                },
            }
            x += 1;
        }
        y += 1;
    }
    let score = score_from_text(content);
    let b = GameBoard { cells, score, spawning: TileSpawning::Random };
    proof {
        reveal(decodes_to);
    }
    Some(b)
}

proof fn lemma_decimal_digits(n: nat)
    ensures
        decimal(n).len() > 0,
        all_digits(decimal(n)),
        digits_value(decimal(n)) == n,
    decreases n,
{
    if n >= 10 {
        lemma_decimal_digits(n / 10);
        lemma_digit_char((n % 10) as int);
        let d = decimal(n);
        assert(d.drop_last() =~= decimal(n / 10));
        assert(d.last() == digit_char((n % 10) as int));
        assert(digits_value(d) == (digits_value(decimal(n / 10)) * 10 + digit_value(d.last())) as nat);
        assert((n / 10) * 10 + n % 10 == n);
        assert forall|i: int| 0 <= i < d.len() implies #[trigger] is_digit(d[i]) by {
            if i < d.len() - 1 {
                assert(d[i] == decimal(n / 10)[i]);
            }
        }
    } else {
        lemma_digit_char(n as int);
        let d = decimal(n);
        assert(d.drop_last() =~= Seq::<char>::empty());
        assert(digits_value(Seq::<char>::empty()) == 0);
        assert(digits_value(d) == (digits_value(d.drop_last()) * 10 + digit_value(d.last())) as nat);
    }
}

/// A decimal numeral reads back as the number it shows.
proof fn lemma_parse_decimal(n: usize)
    ensures
        parse_usize(decimal(n as nat)) == Some(n),
        leading_space(decimal(n as nat)) == 0,
        trailing_space(decimal(n as nat)) == 0,
{
    let d = decimal(n as nat);
    lemma_decimal_digits(n as nat);
    assert(is_digit(d[0]) && is_digit(d.last()));
    assert(d[0] != '+');
}

/// A label reads back as the cell it renders.
pub proof fn lemma_label_round_trip(cell: BoardSpace)
    ensures
        cell_of_label(label_of(cell)) == Some(cell),
{
    if let BoardSpace::Tile(v) = cell {
        lemma_parse_decimal(v);
        lemma_decimal_digits(v as nat);
        assert(is_digit(decimal(v as nat)[0]));
        assert(label_of(cell) != vacant_label());
    }
}

/// No score prefix starts inside the game-over line.
proof fn lemma_game_over_line(d: Seq<char>)
    ensures
        forall|j: int|
            0 <= j < game_over_prefix().len() ==> !#[trigger] occurs_at(
                game_over_prefix() + score_prefix() + d,
                score_prefix(),
                j,
            ),
{
    let g = game_over_prefix();
    let p = score_prefix();
    let text = g + p + d;
    assert(g.len() == 17);
    assert forall|k: int| 0 <= k < 17 implies #[trigger] g[k] != 'S' by {
        assert(g[0] != 'S' && g[1] != 'S' && g[2] != 'S' && g[3] != 'S' && g[4] != 'S');
        assert(g[5] != 'S' && g[6] != 'S' && g[7] != 'S' && g[8] != 'S' && g[9] != 'S');
        assert(g[10] != 'S' && g[11] != 'S' && g[12] != 'S' && g[13] != 'S');
        assert(g[14] != 'S' && g[15] != 'S' && g[16] != 'S');
    }
    assert forall|j: int| 0 <= j < 17 implies !#[trigger] occurs_at(text, p, j) by {
        if j + 2 < 17 {
            assert(text[j + 2] == g[j + 2]);
        } else {
            assert(text[j + 2] == p[j + 2 - 17]);
        }
        if occurs_at(text, p, j) {
            assert(text.subrange(j, j + p.len())[2] == text[j + 2]);
        }
    }
}

/// A score text reads back as the score it shows.
#[verifier::rlimit(30)]
pub proof fn lemma_score_round_trip(score: usize, lost: bool)
    ensures
        score_of(score_text_of(score as nat, lost)) == score,
{
    let text = score_text_of(score as nat, lost);
    let p = score_prefix();
    let d = decimal(score as nat);
    let start: int = if lost { 17 } else { 0 };
    if lost {
        lemma_game_over_line(d);
        assert(text.subrange(start, start + p.len()) =~= p);
    } else {
        assert(text.subrange(start, start + p.len()) =~= p);
    }
    assert(occurs_at(text, p, start));
    let c = choose|c: int| occurs_at(text, p, c) && forall|j: int| 0 <= j < c ==> !#[trigger] occurs_at(text, p, j);
    if c < start {
        assert(!occurs_at(text, p, c));
    } else if c > start {
        assert(!occurs_at(text, p, start));
    }
    assert(find(text, p) == Some(start));
    let rest = text.subrange(start + p.len(), text.len() as int);
    assert(rest =~= d);
    lemma_parse_decimal(score);
    assert(trimmed(rest) =~= rest);
}

/// Decoding the labels and the score text of a board gives back its grid and
/// its score, whether or not the game is over: `labels` and the text are what
/// `board_labels` and `score_text` give for `board`, and `decoded` is what
/// `decode_board` gives for them.
pub proof fn lemma_round_trip(board: GameBoard, lost: bool, labels: Seq<String>, decoded: GameBoard)
    requires
        labels.len() == cell_count(),
        forall|i: int|
            0 <= i < cell_count() ==> #[trigger] labels[i]@ == label_of(cell_at(board.cells, i)),
        decodes_to(labels, score_text_of(board.score as nat, lost), decoded),
    ensures
        labels_valid(labels),
        decoded.cells == board.cells,
        decoded.score == board.score,
{
    reveal(decodes_to);
    let n = GAME_BOARD_SIZE as int;
    assert forall|i: int| 0 <= i < labels.len() implies #[trigger] cell_of_label(labels[i]@) is Some by {
        lemma_label_round_trip(cell_at(board.cells, i));
    }
    assert forall|r: int| 0 <= r < n implies decoded.cells[r] =~= board.cells[r] by {
        assert forall|x: int| 0 <= x < n implies decoded.cells[r][x] == board.cells[r][x] by {
            let i = r * n + x;
            assert(i / n == r && i % n == x);
            lemma_label_round_trip(cell_at(board.cells, i));
            assert(Some(cell_at(decoded.cells, i)) == cell_of_label(labels[i]@));
        }
    }
    assert(decoded.cells =~= board.cells);
    lemma_score_round_trip(board.score, lost);
}

} // verus!
