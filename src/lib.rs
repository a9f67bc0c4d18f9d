//! A sliding-tile merge puzzle: the board engine, its rotation primitive,
//! and the codec that carries a board through a rendered chat message.

pub mod board;
pub mod bot;
pub mod codec;
pub mod grid;
pub mod moves;
mod random;
pub mod slide;
pub mod text;

pub use board::{GameBoard, MoveDirection, TileSpawning};
pub use bot::{parse_action, press_button, render, ButtonKind, ButtonReply, CellButton, Rendering};
pub use codec::{board_labels, cell_label, decode_board, label_cell, score_from_text, score_text};
pub use grid::{rotate, BoardSpace, Cells, GameBoardLocation, GAME_BOARD_SIZE, STARTING_TILES};
