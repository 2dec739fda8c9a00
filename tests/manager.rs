use std::time::{Duration, Instant};

use minesweeper::{
    Difficulty, GameBoard, GameManager, GameOverOverlay, PauseOverlay, WelcomeScreen, WinOverlay,
};

fn wait(ms: u64) {
    let start = Instant::now();
    while start.elapsed() < Duration::from_millis(ms) {}
}

#[test]
fn test_game_manager_initialization() {
    let manager = GameManager::new();

    assert_eq!(manager.current_difficulty, Difficulty::Beginner);
    assert!(!manager.timer.is_running());
    assert_eq!(manager.timer.get_elapsed(), 0);
}

#[test]
fn test_game_manager_default() {
    let manager = GameManager::default();

    assert_eq!(manager.current_difficulty, Difficulty::Beginner);
    assert!(!manager.timer.is_running());
}

#[test]
fn manager_test_start_game() {
    let mut manager = GameManager::new();

    manager.start_game(Difficulty::Expert);

    assert_eq!(manager.current_difficulty, Difficulty::Expert);
    assert!(manager.timer.is_running());
}

#[test]
fn test_start_game_different_difficulties() {
    let mut manager = GameManager::new();

    manager.start_game(Difficulty::Beginner);
    assert_eq!(manager.current_difficulty, Difficulty::Beginner);
    assert!(manager.timer.is_running());

    manager.start_game(Difficulty::Intermediate);
    assert_eq!(manager.current_difficulty, Difficulty::Intermediate);
    assert!(manager.timer.is_running());

    manager.start_game(Difficulty::Expert);
    assert_eq!(manager.current_difficulty, Difficulty::Expert);
    assert!(manager.timer.is_running());
}

#[test]
fn test_end_game_won() {
    let mut manager = GameManager::new();

    manager.start_game(Difficulty::Beginner);
    assert!(manager.timer.is_running());

    manager.end_game(true);
    assert!(!manager.timer.is_running());
}

#[test]
fn test_end_game_lost() {
    let mut manager = GameManager::new();

    manager.start_game(Difficulty::Beginner);
    assert!(manager.timer.is_running());

    manager.end_game(false);
    assert!(!manager.timer.is_running());
}

#[test]
fn test_pause_and_resume_game() {
    let mut manager = GameManager::new();

    manager.start_game(Difficulty::Beginner);
    assert!(manager.timer.is_running());

    manager.pause_game();
    assert!(!manager.timer.is_running());

    manager.resume_game();
    assert!(manager.timer.is_running());
}

#[test]
fn test_reset_game() {
    let mut manager = GameManager::new();
    let mut game_board = GameBoard::new(9, 9, 10);

    manager.start_game(Difficulty::Expert);
    game_board.start_game();
    game_board.reveal_cell(0, 0);

    assert!(game_board.game_started);
    assert!(!game_board.first_click);

    manager.reset_game(&mut game_board);

    assert_eq!(manager.current_difficulty, Difficulty::Expert);
    assert!(!manager.timer.is_running());
    assert_eq!(manager.timer.get_elapsed(), 0);

    assert!(!game_board.game_started);
    assert!(game_board.first_click);
    assert!(!game_board.game_over);
    assert!(!game_board.game_won);
}

#[test]
fn test_reset_game_different_difficulty() {
    let mut manager = GameManager::new();
    let mut game_board = GameBoard::new(9, 9, 10);

    manager.current_difficulty = Difficulty::Expert;

    manager.reset_game(&mut game_board);

    let (width, height, mines) = Difficulty::Expert.get_dimensions();
    assert_eq!(game_board.width, width);
    assert_eq!(game_board.height, height);
    assert_eq!(game_board.mine_count, mines);
}

#[test]
fn test_timer_integration() {
    let mut manager = GameManager::new();

    manager.start_game(Difficulty::Beginner);
    wait(10);

    let elapsed_before_pause = manager.timer.get_elapsed();
    assert!(elapsed_before_pause > 0);

    manager.pause_game();
    wait(10);
    let elapsed_after_pause = manager.timer.get_elapsed();
    let time_diff = (elapsed_after_pause / 1_000_000) as i64 - (elapsed_before_pause / 1_000_000) as i64;
    assert!(time_diff.abs() < 5);

    manager.resume_game();
    wait(10);
    let elapsed_after_resume = manager.timer.get_elapsed();
    assert!(elapsed_after_resume > elapsed_after_pause);
}

#[test]
fn test_game_manager_clone() {
    let mut manager = GameManager::new();
    manager.start_game(Difficulty::Intermediate);

    let cloned = manager.clone();
    assert_eq!(manager.current_difficulty, cloned.current_difficulty);
    assert_eq!(manager.timer.is_running(), cloned.timer.is_running());
}

#[test]
fn test_game_manager_debug() {
    let manager = GameManager::new();
    let debug_str = format!("{:?}", manager);
    assert!(debug_str.contains("GameManager"));
    assert!(debug_str.contains("Beginner"));
}

#[test]
fn reset_game_builds_the_expert_board() {
    let mut manager = GameManager::new();
    let mut game_board = GameBoard::new(9, 9, 10);
    manager.start_game(Difficulty::Expert);
    manager.reset_game(&mut game_board);
    assert_eq!((game_board.width, game_board.height, game_board.mine_count), (30, 16, 99));
    assert_eq!(game_board.board.len(), 16);
    assert_eq!(game_board.board[15].len(), 30);
    assert_eq!(game_board.board, GameBoard::new(30, 16, 99).board);
}

#[test]
fn reset_game_with_show_mines_places_them() {
    let mut manager = GameManager::new();
    manager.show_mines = true;
    let mut game_board = GameBoard::new(3, 3, 1);
    manager.reset_game(&mut game_board);
    assert_eq!(game_board.count_total_mines(), 10);
    assert!(!game_board.first_click);
    assert!(!game_board.game_started);
}

#[test]
fn change_difficulty_rebuilds_the_board() {
    let screen = WelcomeScreen::new();
    let mut manager = GameManager::new();
    let mut game_board = GameBoard::new(9, 9, 10);
    screen.change_difficulty(&mut game_board, &mut manager, Difficulty::Intermediate);
    assert_eq!(manager.current_difficulty, Difficulty::Intermediate);
    assert_eq!((game_board.width, game_board.height, game_board.mine_count), (16, 16, 40));
    assert!(game_board.first_click);
    assert!(!manager.timer.is_running());
}

#[test]
fn overlays_name_the_difficulty() {
    let lost = GameOverOverlay::new();
    let won = WinOverlay::new();
    let _paused = PauseOverlay::new();
    assert_eq!(lost.get_difficulty_name(Difficulty::Beginner), "Beginner");
    assert_eq!(lost.get_difficulty_name(Difficulty::Expert), "Expert");
    assert_eq!(won.get_difficulty_name(Difficulty::Intermediate), "Intermediate");
}
