use lib_2048::BoardSpace::{Tile, Vacant};
use lib_2048::{rotate, BoardSpace, GameBoard, MoveDirection, TileSpawning, GAME_BOARD_SIZE};

const SAMPLE_GAME_BOARD: [[BoardSpace; GAME_BOARD_SIZE]; GAME_BOARD_SIZE] = [
    [Tile(2), Tile(2), Tile(2), Tile(2)],
    [Tile(2), Tile(8), Tile(1), Vacant],
    [Vacant, Vacant, Vacant, Vacant],
    [Tile(2), Tile(4), Tile(1), Tile(2)],
];

/// The sample board with tile spawning switched off, so that moves are reproducible.
fn sample() -> GameBoard {
    let mut board = GameBoard::from(SAMPLE_GAME_BOARD);
    board.spawning = TileSpawning::Disabled;
    board
}

fn tile_count(board: &GameBoard) -> usize {
    board.cells.iter().flatten().filter(|c| **c != Vacant).count()
}

#[test]
fn move_up() {
    let mut board = sample();

    board.move_tiles(MoveDirection::Up);

    const EXPECTED: [[BoardSpace; GAME_BOARD_SIZE]; GAME_BOARD_SIZE] = [
        [Tile(4), Tile(2), Tile(2), Tile(4)],
        [Tile(2), Tile(8), Tile(2), Vacant],
        [Vacant, Tile(4), Vacant, Vacant],
        [Vacant, Vacant, Vacant, Vacant],
    ];

    assert_eq!(board.cells, EXPECTED);
}

#[test]
fn move_down() {
    let mut board = sample();

    board.move_tiles(MoveDirection::Down);

    const EXPECTED: [[BoardSpace; GAME_BOARD_SIZE]; GAME_BOARD_SIZE] = [
        [Vacant, Vacant, Vacant, Vacant],
        [Vacant, Tile(2), Vacant, Vacant],
        [Tile(2), Tile(8), Tile(2), Vacant],
        [Tile(4), Tile(4), Tile(2), Tile(4)],
    ];

    assert_eq!(board.cells, EXPECTED);
}

#[test]
fn move_left() {
    let mut board = sample();

    board.move_tiles(MoveDirection::Left);

    const EXPECTED: [[BoardSpace; GAME_BOARD_SIZE]; GAME_BOARD_SIZE] = [
        [Tile(4), Tile(4), Vacant, Vacant],
        [Tile(2), Tile(8), Tile(1), Vacant],
        [Vacant, Vacant, Vacant, Vacant],
        [Tile(2), Tile(4), Tile(1), Tile(2)],
    ];

    assert_eq!(board.cells, EXPECTED);
}

#[test]
fn move_right() {
    let mut board = sample();

    board.move_tiles(MoveDirection::Right);

    const EXPECTED: [[BoardSpace; GAME_BOARD_SIZE]; GAME_BOARD_SIZE] = [
        [Vacant, Vacant, Tile(4), Tile(4)],
        [Vacant, Tile(2), Tile(8), Tile(1)],
        [Vacant, Vacant, Vacant, Vacant],
        [Tile(2), Tile(4), Tile(1), Tile(2)],
    ];

    assert_eq!(board.cells, EXPECTED);
}

#[test]
fn get() {
    let board = sample();
    let got = board.get((0, 0));
    assert_eq!(got, BoardSpace::Tile(2));
}

#[test]
fn set() {
    let mut board = sample();
    board.set((0, 0), BoardSpace::Tile(2048));

    const EXPECTED: [[BoardSpace; GAME_BOARD_SIZE]; GAME_BOARD_SIZE] = [
        [Tile(2048), Tile(2), Tile(2), Tile(2)],
        [Tile(2), Tile(8), Tile(1), Vacant],
        [Vacant, Vacant, Vacant, Vacant],
        [Tile(2), Tile(4), Tile(1), Tile(2)],
    ];

    assert_eq!(board.cells, EXPECTED);
}

#[test]
fn all_empty_spaces() {
    let board = sample();

    let expected = vec![(3, 1), (0, 2), (1, 2), (2, 2), (3, 2)];

    let got = board.all_empty_spaces();
    assert_eq!(got, expected);
}

#[test]
fn get_uses_column_then_row() {
    let board = sample();
    assert_eq!(board.get((3, 1)), Vacant);
    assert_eq!(board.get((1, 3)), Tile(4));
}

#[test]
fn move_scores_merged_tiles() {
    let mut board = sample();
    board.move_tiles(MoveDirection::Left);
    assert_eq!(board.score, 8);

    let mut board = sample();
    board.move_tiles(MoveDirection::Up);
    assert_eq!(board.score, 4 + 2 + 4);
}

#[test]
fn tile_merges_at_most_once() {
    let mut board = GameBoard::from([
        [Tile(2), Tile(2), Tile(4), Vacant],
        [Tile(4), Tile(4), Tile(4), Tile(4)],
        [Tile(2), Vacant, Vacant, Tile(2)],
        [Tile(2), Tile(4), Vacant, Tile(2)],
    ]);
    board.spawning = TileSpawning::Disabled;
    board.move_tiles(MoveDirection::Left);
    assert_eq!(
        board.cells,
        [
            [Tile(4), Tile(4), Vacant, Vacant],
            [Tile(8), Tile(8), Vacant, Vacant],
            [Tile(4), Vacant, Vacant, Vacant],
            [Tile(2), Tile(4), Tile(2), Vacant],
        ]
    );
    assert_eq!(board.score, 4 + 16 + 4);
}

#[test]
fn no_merge_through_other_tile() {
    let mut board = GameBoard::from([
        [Tile(2), Tile(4), Tile(2), Vacant],
        [Vacant; 4],
        [Vacant; 4],
        [Vacant; 4],
    ]);
    board.spawning = TileSpawning::Disabled;
    board.move_tiles(MoveDirection::Right);
    assert_eq!(board.cells[0], [Vacant, Tile(2), Tile(4), Tile(2)]);
    assert_eq!(board.score, 0);
}

#[test]
fn settled_move_changes_nothing() {
    let mut board = GameBoard::from(SAMPLE_GAME_BOARD);
    board.set((0, 0), Tile(16));
    board.set((1, 0), Tile(8));
    board.set((2, 0), Tile(4));
    board.set((3, 0), Tile(2));
    board.set((3, 3), Tile(32));
    let before = board;
    // a random source is present: a move that changes nothing must not spawn
    board.move_tiles(MoveDirection::Left);
    assert_eq!(board.cells, [
        [Tile(16), Tile(8), Tile(4), Tile(2)],
        [Tile(2), Tile(8), Tile(1), Vacant],
        [Vacant, Vacant, Vacant, Vacant],
        [Tile(2), Tile(4), Tile(1), Tile(32)],
    ]);
    assert_eq!(board.cells, before.cells);
    assert_eq!(board.score, before.score);
}

#[test]
fn move_spawns_one_tile() {
    let mut board = GameBoard::from(SAMPLE_GAME_BOARD);
    let before = tile_count(&board);
    board.move_tiles(MoveDirection::Left);
    // two merges remove two tiles, one spawn adds one
    assert_eq!(tile_count(&board), before - 2 + 1);
    let spawned: Vec<_> = board
        .cells
        .iter()
        .flatten()
        .filter(|c| **c == Tile(2) || **c == Tile(4))
        .collect();
    assert!(!spawned.is_empty());
}

#[test]
fn new_board_has_two_tiles() {
    let board = GameBoard::new();
    assert_eq!(tile_count(&board), 2);
    assert_eq!(board.score, 0);
    for cell in board.cells.iter().flatten() {
        assert!(*cell == Vacant || *cell == Tile(2) || *cell == Tile(4));
    }
}

#[test]
fn empty_board_is_all_vacant() {
    let board = GameBoard::empty();
    assert_eq!(board.cells, [[Vacant; 4]; 4]);
    assert_eq!(board.score, 0);
    assert_eq!(GameBoard::default().cells, [[Vacant; 4]; 4]);
    assert!(board.all_empty_spaces().len() == 16);
}

#[test]
fn full_board_without_pairs_is_lost() {
    let board = GameBoard::from([
        [Tile(2), Tile(4), Tile(2), Tile(4)],
        [Tile(4), Tile(2), Tile(4), Tile(2)],
        [Tile(2), Tile(4), Tile(2), Tile(4)],
        [Tile(4), Tile(2), Tile(4), Tile(2)],
    ]);
    assert!(board.has_lost());
    for dir in [MoveDirection::Left, MoveDirection::Up, MoveDirection::Right, MoveDirection::Down] {
        let mut b = board;
        b.move_tiles(dir);
        assert_eq!(b.cells, board.cells);
    }
}

#[test]
fn full_board_with_vertical_pair_is_not_lost() {
    let board = GameBoard::from([
        [Tile(2), Tile(4), Tile(2), Tile(4)],
        [Tile(4), Tile(2), Tile(4), Tile(2)],
        [Tile(2), Tile(4), Tile(2), Tile(4)],
        [Tile(2), Tile(8), Tile(16), Tile(32)],
    ]);
    assert!(!board.has_lost());
    let mut up = board;
    up.spawning = TileSpawning::Disabled;
    up.move_tiles(MoveDirection::Up);
    assert_ne!(up.cells, board.cells);
    assert_eq!(up.cells[2], [Tile(4), Tile(4), Tile(2), Tile(4)]);
    assert_eq!(up.cells[3], [Vacant, Tile(8), Tile(16), Tile(32)]);
}

#[test]
fn board_with_vacancy_is_not_lost() {
    assert!(!sample().has_lost());
    assert!(!GameBoard::empty().has_lost());
}

#[test]
fn rotate_quarter_turn() {
    let mut cells = SAMPLE_GAME_BOARD;
    rotate(&mut cells, 1);
    assert_eq!(
        cells,
        [
            [Tile(2), Vacant, Vacant, Tile(2)],
            [Tile(2), Tile(1), Vacant, Tile(1)],
            [Tile(2), Tile(8), Vacant, Tile(4)],
            [Tile(2), Tile(2), Vacant, Tile(2)],
        ]
    );
}

#[test]
fn rotate_composition_restores_grid() {
    for k in 0..4usize {
        let mut cells = SAMPLE_GAME_BOARD;
        rotate(&mut cells, k);
        rotate(&mut cells, (4 - k) % 4);
        assert_eq!(cells, SAMPLE_GAME_BOARD);
    }
    let mut cells = SAMPLE_GAME_BOARD;
    rotate(&mut cells, 4);
    assert_eq!(cells, SAMPLE_GAME_BOARD);
}

#[test]
fn within_limits_bounds() {
    let board = sample();
    assert!(board.within_limits());
    let mut big = sample();
    big.set((0, 0), Tile(usize::MAX / 32 + 1));
    assert!(!big.within_limits());
    let mut rich = sample();
    rich.score = usize::MAX / 2 + 1;
    assert!(!rich.within_limits());
}

#[test]
fn cell_text() {
    assert_eq!(Tile(2048).text(), "2048");
    assert_eq!(Vacant.text(), "");
}
