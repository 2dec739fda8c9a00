use vstd::prelude::*;
use crate::board::GameBoard;
use crate::difficulty::Difficulty;
use crate::timer::GameTimer;

verus! {

/// Ties the chosen difficulty to the board it is played on and to the session timer.
/// `show_mines` is the debugging switch that has boards built with their mines already placed.
#[derive(Debug, Clone)]
pub struct GameManager {
    pub timer: GameTimer,
    pub current_difficulty: Difficulty,
    pub show_mines: bool,
}

impl GameManager {
    /// A beginner session with a stopped timer at zero.
    pub fn new() -> (r: Self)
        ensures
            r.current_difficulty == Difficulty::Beginner,
            !r.show_mines,
            !r.timer.running(),
            r.timer.accumulated() == 0,
            !r.timer.started(),
    {
        GameManager { timer: GameTimer::new(), current_difficulty: Difficulty::Beginner, show_mines: false }
    }

    /// A board of the size and mine count of `difficulty`, built as `show_mines` asks.
    pub fn board_for(&self, difficulty: Difficulty) -> (r: GameBoard)
        ensures
            r.wf(),
            (r.width, r.height, r.mine_count) == difficulty.dimensions(),
            !r.game_started,
            !r.game_over,
            !r.game_won,
            !self.show_mines ==> r.is_fresh(r.width as nat, r.height as nat, r.mine_count as nat),
    {
        let (width, height, mines) = difficulty.get_dimensions();
        GameBoard::new_with_debug(width, height, mines, self.show_mines)
    }

    /// Begins a session at `difficulty`: the timer restarts from zero.
    pub fn start_game(&mut self, difficulty: Difficulty)
        ensures
            final(self).current_difficulty == difficulty,
            final(self).show_mines == old(self).show_mines,
            final(self).timer.running(),
            final(self).timer.started(),
            final(self).timer.accumulated() == 0,
    {
        self.current_difficulty = difficulty;
        self.timer.reset();
        self.timer.start();
    }

    /// Ends the session, won or lost: the timer stops with the time played.
    pub fn end_game(&mut self, won: bool)
        ensures
            final(self).current_difficulty == old(self).current_difficulty,
            final(self).show_mines == old(self).show_mines,
            !final(self).timer.running(),
            old(self).timer.running() ==> exists|n: u128|
                final(self).timer.accumulated() == old(self).timer.elapsed_at(n),
            !old(self).timer.running() ==> final(self).timer == old(self).timer,
    {
        self.timer.pause();
    }

    /// Pauses the timer.
    pub fn pause_game(&mut self)
        ensures
            final(self).current_difficulty == old(self).current_difficulty,
            final(self).show_mines == old(self).show_mines,
            !final(self).timer.running(),
            old(self).timer.running() ==> exists|n: u128|
                final(self).timer.accumulated() == old(self).timer.elapsed_at(n),
            !old(self).timer.running() ==> final(self).timer == old(self).timer,
    {
        self.timer.pause();
    }

    /// Resumes the timer.
    pub fn resume_game(&mut self)
        ensures
            final(self).current_difficulty == old(self).current_difficulty,
            final(self).show_mines == old(self).show_mines,
            final(self).timer.running(),
            final(self).timer.started(),
            final(self).timer.accumulated() == old(self).timer.accumulated(),
            old(self).timer.running() ==> final(self).timer == old(self).timer,
    {
        self.timer.start();
    }

    /// Replaces `game_board` by a new board of the current difficulty and resets the timer.
    pub fn reset_game(&mut self, game_board: &mut GameBoard)
        ensures
            final(self).current_difficulty == old(self).current_difficulty,
            final(self).show_mines == old(self).show_mines,
            final(game_board).wf(),
            (final(game_board).width, final(game_board).height, final(game_board).mine_count)
                == old(self).current_difficulty.dimensions(),
            !final(game_board).game_started,
            !final(game_board).game_over,
            !final(game_board).game_won,
            !old(self).show_mines ==> final(game_board).is_fresh(
                final(game_board).width as nat,
                final(game_board).height as nat,
                final(game_board).mine_count as nat,
            ),
            !final(self).timer.running(),
            final(self).timer.accumulated() == 0,
            !final(self).timer.started(),
    {
        *game_board = self.board_for(self.current_difficulty);
        self.timer.reset();
    }
}

impl Default for GameManager {
    fn default() -> (r: Self)
        ensures
            r.current_difficulty == Difficulty::Beginner,
            !r.show_mines,
            !r.timer.running(),
            r.timer.accumulated() == 0,
            !r.timer.started(),
    {
        Self::new()
    }
}

} // verus!
