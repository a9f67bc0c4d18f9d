use lib_2048::BoardSpace::{Tile, Vacant};
use lib_2048::text::{decimal_string, find_first, parse_decimal, trim};
use lib_2048::{
    board_labels, cell_label, decode_board, label_cell, parse_action, press_button, render,
    score_from_text, score_text, ButtonKind, ButtonReply, GameBoard, MoveDirection,
};

const ZWS: &str = "\u{200b}";

fn sample() -> GameBoard {
    let mut board = GameBoard::from([
        [Tile(2), Tile(2), Tile(2), Tile(2)],
        [Tile(2), Tile(8), Tile(1), Vacant],
        [Vacant, Vacant, Vacant, Vacant],
        [Tile(2), Tile(4), Tile(1), Tile(4096)],
    ]);
    board.score = 1234;
    board
}

fn strings(items: &[&str]) -> Vec<String> {
    items.iter().map(|s| s.to_string()).collect()
}

#[test]
fn labels_of_cells() {
    assert_eq!(cell_label(Tile(2048)), "2048");
    assert_eq!(cell_label(Vacant), ZWS);
    let labels = board_labels(&sample());
    assert_eq!(labels.len(), 16);
    assert_eq!(labels[0], "2");
    assert_eq!(labels[7], ZWS);
    assert_eq!(labels[15], "4096");
}

#[test]
fn label_reading() {
    assert_eq!(label_cell(ZWS), Some(Vacant));
    assert_eq!(label_cell("16"), Some(Tile(16)));
    assert_eq!(label_cell("+16"), Some(Tile(16)));
    assert_eq!(label_cell(""), None);
    assert_eq!(label_cell("x"), None);
    assert_eq!(label_cell(" 16"), None);
}

#[test]
fn score_text_forms() {
    assert_eq!(score_text(0, false), "**Score:** 0");
    assert_eq!(score_text(1234, false), "**Score:** 1234");
    assert_eq!(score_text(56, true), "**Game Over!**\n> **Score:** 56");
}

#[test]
fn score_reading() {
    assert_eq!(score_from_text("**Score:** 1234"), 1234);
    assert_eq!(score_from_text("**Game Over!**\n> **Score:** 56"), 56);
    assert_eq!(score_from_text("**Score:**   77  \n"), 77);
    assert_eq!(score_from_text("no score here"), 0);
    assert_eq!(score_from_text("**Score:** many"), 0);
    assert_eq!(score_from_text("**Score:** 99999999999999999999999999"), 0);
}

#[test]
fn round_trip_keeps_grid_and_score() {
    for lost in [false, true] {
        let board = sample();
        let labels = board_labels(&board);
        let content = score_text(board.score, lost);
        let back = decode_board(&labels, &content).unwrap();
        assert_eq!(back.cells, board.cells);
        assert_eq!(back.score, board.score);
    }
    let mut big = GameBoard::empty();
    big.score = usize::MAX;
    big.set((2, 3), Tile(usize::MAX));
    let back = decode_board(&board_labels(&big), &score_text(big.score, false)).unwrap();
    assert_eq!(back.cells, big.cells);
    assert_eq!(back.score, usize::MAX);
}

#[test]
fn decode_refuses_bad_labels() {
    let mut labels = board_labels(&sample());
    labels[3] = "two".to_string();
    assert!(decode_board(&labels, "**Score:** 1").is_none());
    let short = strings(&["2", "4"]);
    assert!(decode_board(&short, "**Score:** 1").is_none());
}

#[test]
fn decode_without_score_gives_zero() {
    let labels = board_labels(&sample());
    let board = decode_board(&labels, "hello").unwrap();
    assert_eq!(board.score, 0);
}

#[test]
fn decimal_and_parse() {
    assert_eq!(decimal_string(0), "0");
    assert_eq!(decimal_string(907), "907");
    assert_eq!(decimal_string(usize::MAX), usize::MAX.to_string());
    assert_eq!(parse_decimal("907"), Some(907));
    assert_eq!(parse_decimal("+5"), Some(5));
    assert_eq!(parse_decimal("+"), None);
    assert_eq!(parse_decimal("-5"), None);
    assert_eq!(parse_decimal(&usize::MAX.to_string()), Some(usize::MAX));
    assert_eq!(parse_decimal("184467440737095516150"), None);
}

#[test]
fn trim_and_find() {
    assert_eq!(trim("  a b \t\n"), "a b");
    assert_eq!(trim("\u{3000}x\u{a0}"), "x");
    assert_eq!(trim("   "), "");
    assert_eq!(find_first("ab**Score:** 1", "**Score:** "), Some(2));
    assert_eq!(find_first("é**Score:** 1", "**Score:** "), Some(1));
    assert_eq!(find_first("abc", "**Score:** "), None);
}

#[test]
fn actions() {
    assert_eq!(parse_action("up"), Some(MoveDirection::Up));
    assert_eq!(parse_action("down"), Some(MoveDirection::Down));
    assert_eq!(parse_action("left"), Some(MoveDirection::Left));
    assert_eq!(parse_action("right"), Some(MoveDirection::Right));
    assert_eq!(parse_action("0-0"), None);
}

#[test]
fn rendering_of_board() {
    let r = render(&sample());
    assert_eq!(r.content, "**Score:** 1234");
    assert!(!r.controls_disabled);
    assert_eq!(r.cells.len(), 16);
    assert_eq!(r.cells[0].label, "2");
    assert_eq!(r.cells[0].custom_id, "0-0");
    assert_eq!(r.cells[0].kind, ButtonKind::Primary);
    assert!(!r.cells[0].disabled);
    assert_eq!(r.cells[7].label, ZWS);
    assert_eq!(r.cells[7].custom_id, "3-1");
    assert_eq!(r.cells[7].kind, ButtonKind::Secondary);
    assert!(r.cells[7].disabled);
    assert_eq!(r.cells[15].kind, ButtonKind::Success);
}

#[test]
fn rendering_of_lost_board() {
    let mut board = GameBoard::from([
        [Tile(2), Tile(4), Tile(2), Tile(4)],
        [Tile(4), Tile(2), Tile(4), Tile(2)],
        [Tile(2), Tile(4), Tile(2), Tile(4)],
        [Tile(4), Tile(2), Tile(4), Tile(2)],
    ]);
    board.score = 9;
    let r = render(&board);
    assert_eq!(r.content, "**Game Over!**\n> **Score:** 9");
    assert!(r.controls_disabled);
}

#[test]
fn button_press_outcomes() {
    let board = sample();
    let labels = board_labels(&board);
    let content = score_text(board.score, false);
    assert!(matches!(press_button(&labels, &content, 1, 2, "up"), ButtonReply::NotYourGame));
    assert!(matches!(press_button(&labels, &content, 1, 1, "2-2"), ButtonReply::Ignore));
    assert!(matches!(press_button(&strings(&["2"]), &content, 1, 1, "up"), ButtonReply::Malformed));
    match press_button(&labels, &content, 1, 1, "left") {
        ButtonReply::Update(r) => {
            assert_eq!(r.content, "**Score:** 1242");
            assert_eq!(r.cells[0].label, "4");
            assert_eq!(r.cells[1].label, "4");
            assert_eq!(r.cells.len(), 16);
        },
        other => panic!("unexpected reply {:?}", other),
    }
    let mut huge = sample();
    huge.set((0, 0), Tile(usize::MAX));
    let huge_labels = board_labels(&huge);
    assert!(matches!(press_button(&huge_labels, &content, 1, 1, "up"), ButtonReply::Malformed));
}
