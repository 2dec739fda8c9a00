use vstd::prelude::*;
use crate::board::GameBoard;
use crate::difficulty::Difficulty;
use crate::manager::GameManager;

verus! {

/// The panel shown when a game is lost.
pub struct GameOverOverlay;

/// The panel shown while a game is paused.
pub struct PauseOverlay;

/// The panel shown when a game is won.
pub struct WinOverlay;

/// The first screen, where the difficulty is chosen.
pub struct WelcomeScreen;

impl GameOverOverlay {
    pub fn new() -> Self {
        GameOverOverlay
    }

    /// The name of `difficulty` as the panel shows it.
    pub fn get_difficulty_name(&self, difficulty: Difficulty) -> (r: &'static str)
        ensures
            r@ == difficulty.label(),
    {
        difficulty.name()
    }
}

impl PauseOverlay {
    pub fn new() -> Self {
        PauseOverlay
    }
}

impl WinOverlay {
    pub fn new() -> Self {
        WinOverlay
    }

    /// The name of `difficulty` as the panel shows it.
    pub fn get_difficulty_name(&self, difficulty: Difficulty) -> (r: &'static str)
        ensures
            r@ == difficulty.label(),
    {
        difficulty.name()
    }
}

impl WelcomeScreen {
    pub fn new() -> Self {
        WelcomeScreen
    }

    /// Selects `difficulty`: `game_state` becomes a new board of its size; the timer is left
    /// alone.
    pub fn change_difficulty(
        &self,
        game_state: &mut GameBoard,
        game_manager: &mut GameManager,
        difficulty: Difficulty,
    )
        ensures
            final(game_manager).current_difficulty == difficulty,
            final(game_manager).show_mines == old(game_manager).show_mines,
            final(game_manager).timer == old(game_manager).timer,
            final(game_state).wf(),
            (final(game_state).width, final(game_state).height, final(game_state).mine_count)
                == difficulty.dimensions(),
            !final(game_state).game_started,
            !final(game_state).game_over,
            !final(game_state).game_won,
            !old(game_manager).show_mines ==> final(game_state).is_fresh(
                final(game_state).width as nat,
                final(game_state).height as nat,
                final(game_state).mine_count as nat,
            ),
    {
        *game_state = game_manager.board_for(difficulty);
        game_manager.current_difficulty = difficulty;
    }
}

} // verus!
