//! Minesweeper engine: the grid model with deferred mine placement,
//! adjacency numbers, cascading reveal, flags and win/loss detection,
//! together with the session timer and the difficulty coordinator.
use vstd::prelude::*;

pub mod board;
pub mod cell;
pub mod difficulty;
pub mod manager;
pub mod screens;
pub mod time;
pub mod timer;

pub use board::GameBoard;
pub use cell::{Cell, CellContent, CellState};
pub use difficulty::Difficulty;
pub use manager::GameManager;
pub use screens::{GameOverOverlay, PauseOverlay, WelcomeScreen, WinOverlay};
pub use time::format_time;
pub use timer::GameTimer;
