use minesweeper::{CellContent, CellState, GameBoard};

#[test]
fn test_board_initialization() {
    let board = GameBoard::new(10, 8, 15);

    assert_eq!(board.width, 10);
    assert_eq!(board.height, 8);
    assert_eq!(board.mine_count, 15);
    assert_eq!(board.game_over, false);
    assert_eq!(board.game_won, false);
    assert_eq!(board.first_click, true);
    assert_eq!(board.game_started, false);

    assert_eq!(board.board.len(), 8);
    assert_eq!(board.board[0].len(), 10);
    for row in &board.board {
        for cell in row {
            assert_eq!(cell.content, CellContent::Empty);
            assert_eq!(cell.state, CellState::Hidden);
        }
    }
}

#[test]
fn test_mine_placement_excludes_first_click() {
    let mut board = GameBoard::new(5, 5, 5);
    board.start_game();

    board.place_mines(2, 2);

    assert_ne!(board.get_cell_content(2, 2), CellContent::Mine);
    assert_eq!(board.count_total_mines(), 5);
}

#[test]
fn test_number_calculation_simple_case() {
    let mut board = GameBoard::new(3, 3, 0);
    board.start_game();

    board.set_mine(1, 1);
    board.calculate_numbers();
    assert_eq!(board.get_cell_content(0, 0), CellContent::Number(1));
    assert_eq!(board.get_cell_content(0, 1), CellContent::Number(1));
    assert_eq!(board.get_cell_content(0, 2), CellContent::Number(1));
    assert_eq!(board.get_cell_content(1, 0), CellContent::Number(1));
    assert_eq!(board.get_cell_content(1, 2), CellContent::Number(1));
    assert_eq!(board.get_cell_content(2, 0), CellContent::Number(1));
    assert_eq!(board.get_cell_content(2, 1), CellContent::Number(1));
    assert_eq!(board.get_cell_content(2, 2), CellContent::Number(1));

    assert_eq!(board.get_cell_content(1, 1), CellContent::Mine);
}

#[test]
fn test_number_calculation_corner_mine() {
    let mut board = GameBoard::new(3, 3, 0);
    board.start_game();

    board.set_mine(0, 0);
    board.calculate_numbers();
    assert_eq!(board.get_cell_content(0, 1), CellContent::Number(1));
    assert_eq!(board.get_cell_content(1, 0), CellContent::Number(1));
    assert_eq!(board.get_cell_content(1, 1), CellContent::Number(1));

    assert_eq!(board.get_cell_content(0, 2), CellContent::Empty);
    assert_eq!(board.get_cell_content(1, 2), CellContent::Empty);
    assert_eq!(board.get_cell_content(2, 0), CellContent::Empty);
    assert_eq!(board.get_cell_content(2, 1), CellContent::Empty);
    assert_eq!(board.get_cell_content(2, 2), CellContent::Empty);
}

#[test]
fn test_number_calculation_multiple_mines() {
    let mut board = GameBoard::new(3, 3, 0);
    board.start_game();

    board.set_mine(0, 0);
    board.set_mine(1, 1);
    board.calculate_numbers();

    assert_eq!(board.get_cell_content(0, 1), CellContent::Number(2));

    assert_eq!(board.get_cell_content(1, 0), CellContent::Number(2));

    assert_eq!(board.get_cell_content(2, 2), CellContent::Number(1));
}

#[test]
fn test_count_adjacent_mines() {
    let mut board = GameBoard::new(3, 3, 0);
    board.start_game();

    board.set_mine(0, 0);
    board.set_mine(2, 2);

    assert_eq!(board.count_adjacent_mines(1, 1), 2);

    assert_eq!(board.count_adjacent_mines(0, 2), 0);

    assert_eq!(board.count_adjacent_mines(1, 0), 1);

    assert_eq!(board.count_adjacent_mines(0, 1), 1);

    assert_eq!(board.count_adjacent_mines(1, 2), 1);
}

#[test]
fn test_reveal_cell_basic() {
    let mut board = GameBoard::new(3, 3, 1);
    board.start_game();

    let result = board.reveal_cell(1, 1);
    assert!(result);
    assert_eq!(board.get_cell_state(1, 1), CellState::Revealed);
    assert_eq!(board.first_click, false);
}

#[test]
fn test_reveal_cell_out_of_bounds() {
    let mut board = GameBoard::new(3, 3, 1);
    board.start_game();

    let result = board.reveal_cell(5, 5);
    assert!(!result);
}

#[test]
fn test_reveal_cell_game_not_started() {
    let mut board = GameBoard::new(3, 3, 1);
    let result = board.reveal_cell(1, 1);
    assert!(!result);
}

#[test]
fn test_reveal_cell_already_revealed() {
    let mut board = GameBoard::new(3, 3, 1);
    board.start_game();

    let result1 = board.reveal_cell(1, 1);
    assert!(result1);

    let result2 = board.reveal_cell(1, 1);
    assert!(!result2);
}

#[test]
fn test_reveal_cell_cascade_empty() {
    let mut board = GameBoard::new(3, 3, 0);
    board.start_game();

    board.set_mine(2, 2);
    board.calculate_numbers();

    board.reveal_cell(0, 0);

    for y in 0..3 {
        for x in 0..3 {
            if !(x == 2 && y == 2) {
                assert_eq!(board.get_cell_state(x, y), CellState::Revealed);
            }
        }
    }

    assert_eq!(board.get_cell_state(2, 2), CellState::Hidden);
}

#[test]
fn test_game_over_on_mine_hit() {
    let mut board = GameBoard::new(3, 3, 1);
    board.start_game();

    board.set_mine(1, 1);
    board.calculate_numbers();
    board.first_click = false;

    let result = board.reveal_cell(1, 1);
    assert!(result);
    assert!(board.game_over);
    assert!(!board.game_won);

    assert_eq!(board.get_cell_state(1, 1), CellState::Revealed);
}

#[test]
fn test_win_condition() {
    let mut board = GameBoard::new(2, 2, 1);
    board.start_game();

    board.set_mine(1, 1);
    board.calculate_numbers();
    board.first_click = false;

    board.reveal_cell(0, 0);
    board.reveal_cell(0, 1);
    board.reveal_cell(1, 0);

    assert!(board.game_won);
    assert!(board.game_over);
}

#[test]
fn test_toggle_flag() {
    let mut board = GameBoard::new(3, 3, 1);
    board.start_game();

    let result1 = board.toggle_flag(1, 1);
    assert!(result1);
    assert_eq!(board.get_cell_state(1, 1), CellState::Flagged);

    let result2 = board.toggle_flag(1, 1);
    assert!(result2);
    assert_eq!(board.get_cell_state(1, 1), CellState::Hidden);

    board.reveal_cell(0, 0);
    let result3 = board.toggle_flag(0, 0);
    assert!(!result3);
}

#[test]
fn test_toggle_flag_out_of_bounds() {
    let mut board = GameBoard::new(3, 3, 1);
    board.start_game();

    let result = board.toggle_flag(5, 5);
    assert!(!result);
}

#[test]
fn test_toggle_flag_game_over() {
    let mut board = GameBoard::new(3, 3, 1);
    board.start_game();

    board.game_over = true;

    let result = board.toggle_flag(1, 1);
    assert!(!result);
}

#[test]
fn test_reset() {
    let mut board = GameBoard::new(3, 3, 1);
    board.start_game();

    board.reveal_cell(1, 1);
    board.toggle_flag(0, 0);

    board.reset();

    assert_eq!(board.game_over, false);
    assert_eq!(board.game_won, false);
    assert_eq!(board.first_click, true);
    assert_eq!(board.game_started, false);

    for row in &board.board {
        for cell in row {
            assert_eq!(cell.state, CellState::Hidden);
            assert_eq!(cell.content, CellContent::Empty);
        }
    }
}

#[test]
fn board_test_start_game() {
    let mut board = GameBoard::new(3, 3, 1);

    assert_eq!(board.game_started, false);

    board.start_game();

    assert_eq!(board.game_started, true);
}

#[test]
fn test_edge_case_single_cell_board() {
    let mut board = GameBoard::new(1, 1, 0);
    board.start_game();

    board.reveal_cell(0, 0);

    assert!(board.game_won);
    assert!(board.game_over);
}

#[test]
fn test_edge_case_all_mines_except_one() {
    let mut board = GameBoard::new(2, 2, 3);
    board.start_game();

    board.set_mine(0, 0);
    board.set_mine(0, 1);
    board.set_mine(1, 0);
    board.calculate_numbers();
    board.first_click = false;

    board.reveal_cell(1, 1);

    assert!(board.game_won);
    assert!(board.game_over);
}
