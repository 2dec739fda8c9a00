use minesweeper::{CellContent, CellState, GameBoard};

fn prepared(width: usize, height: usize, mines: &[(usize, usize)]) -> GameBoard {
    let mut board = GameBoard::new(width, height, mines.len());
    board.start_game();
    for &(x, y) in mines {
        board.set_mine(x, y);
    }
    board.calculate_numbers();
    board.first_click = false;
    board
}

fn mine_count_around(board: &GameBoard, x: usize, y: usize) -> u8 {
    let mut n = 0u8;
    for dy in -1i64..=1 {
        for dx in -1i64..=1 {
            if dx == 0 && dy == 0 {
                continue;
            }
            let nx = x as i64 + dx;
            let ny = y as i64 + dy;
            if nx >= 0 && ny >= 0 && (nx as usize) < board.width && (ny as usize) < board.height {
                if board.board[ny as usize][nx as usize].content == CellContent::Mine {
                    n += 1;
                }
            }
        }
    }
    n
}

#[test]
fn first_reveal_places_every_mine_elsewhere() {
    for _ in 0..20 {
        let mut board = GameBoard::new(9, 9, 10);
        board.start_game();
        assert!(board.reveal_cell(4, 4));
        assert_eq!(board.count_total_mines(), 10);
        assert_ne!(board.get_cell_content(4, 4), CellContent::Mine);
        assert_eq!(board.get_cell_state(4, 4), CellState::Revealed);
        assert!(!board.first_click);
    }
}

#[test]
fn placed_numbers_match_neighbouring_mines() {
    for _ in 0..20 {
        let mut board = GameBoard::new(16, 16, 40);
        board.place_mines(0, 0);
        assert_eq!(board.count_total_mines(), 40);
        for y in 0..16 {
            for x in 0..16 {
                let content = board.get_cell_content(x, y);
                if content != CellContent::Mine {
                    let n = mine_count_around(&board, x, y);
                    let expected = if n == 0 { CellContent::Empty } else { CellContent::Number(n) };
                    assert_eq!(content, expected);
                    assert_eq!(board.count_adjacent_mines(x, y), n);
                }
            }
        }
    }
}

#[test]
fn placement_fills_all_but_the_excluded_cell() {
    let mut board = GameBoard::new(2, 2, 3);
    board.place_mines(0, 0);
    assert_eq!(board.count_total_mines(), 3);
    assert_eq!(board.get_cell_content(0, 0), CellContent::Number(3));
}

#[test]
fn placement_stops_when_no_free_cell_is_left() {
    let mut board = GameBoard::new(2, 2, 3);
    board.set_mine(1, 1);
    board.place_mines(0, 0);
    assert_eq!(board.count_total_mines(), 3);
    assert_eq!(board.get_cell_content(0, 0), CellContent::Number(3));
}

#[test]
fn rejected_reveals_change_nothing() {
    let mut board = prepared(3, 3, &[(2, 2)]);
    board.toggle_flag(0, 0);
    let before = board.clone();

    assert!(!board.reveal_cell(0, 0));
    assert!(!board.reveal_cell(3, 0));
    assert!(!board.reveal_cell(0, 3));
    assert_eq!(board.board, before.board);
    assert_eq!(board.game_over, before.game_over);

    let mut idle = GameBoard::new(3, 3, 1);
    let idle_before = idle.clone();
    assert!(!idle.reveal_cell(1, 1));
    assert_eq!(idle.board, idle_before.board);
    assert!(idle.first_click);

    let mut played = prepared(3, 3, &[(2, 2)]);
    assert!(played.reveal_cell(2, 0));
    let played_before = played.clone();
    assert!(!played.reveal_cell(2, 0));
    assert_eq!(played.board, played_before.board);
}

#[test]
fn losing_reveals_every_mine() {
    let mut board = prepared(3, 3, &[(0, 0), (2, 2), (0, 2)]);
    assert!(board.toggle_flag(0, 2));
    assert!(board.reveal_cell(2, 2));
    assert!(board.game_over);
    assert!(!board.game_won);
    assert_eq!(board.get_cell_state(0, 0), CellState::Revealed);
    assert_eq!(board.get_cell_state(2, 2), CellState::Revealed);
    assert_eq!(board.get_cell_state(0, 2), CellState::Revealed);
    assert_eq!(board.get_cell_state(1, 1), CellState::Hidden);
    assert_eq!(board.get_cell_state(2, 0), CellState::Hidden);
}

#[test]
fn cascade_stops_at_numbered_cells() {
    let mut board = prepared(5, 1, &[(4, 0)]);
    assert!(board.reveal_cell(0, 0));
    assert_eq!(board.get_cell_state(0, 0), CellState::Revealed);
    assert_eq!(board.get_cell_state(1, 0), CellState::Revealed);
    assert_eq!(board.get_cell_state(2, 0), CellState::Revealed);
    assert_eq!(board.get_cell_content(3, 0), CellContent::Number(1));
    assert_eq!(board.get_cell_state(3, 0), CellState::Revealed);
    assert_eq!(board.get_cell_state(4, 0), CellState::Hidden);
    assert!(board.game_won);
    assert!(board.game_over);
}

#[test]
fn cascade_leaves_flags_and_far_cells() {
    let mut board = prepared(5, 3, &[(2, 0), (2, 1), (2, 2)]);
    assert!(board.toggle_flag(0, 2));
    assert!(board.reveal_cell(0, 0));
    assert_eq!(board.get_cell_state(0, 2), CellState::Flagged);
    assert_eq!(board.get_cell_state(0, 1), CellState::Revealed);
    assert_eq!(board.get_cell_state(1, 1), CellState::Revealed);
    assert_eq!(board.get_cell_state(3, 1), CellState::Hidden);
    assert_eq!(board.get_cell_state(4, 1), CellState::Hidden);
    assert!(!board.game_won);
    assert!(!board.game_over);
}

#[test]
fn flagged_safe_cell_does_not_block_the_win() {
    let mut board = prepared(2, 2, &[(1, 1)]);
    assert!(board.toggle_flag(0, 0));
    board.reveal_cell(0, 1);
    board.reveal_cell(1, 0);
    assert!(board.game_won);
    assert!(board.game_over);
}

#[test]
fn reset_matches_a_new_board() {
    let mut board = GameBoard::new(4, 3, 2);
    board.start_game();
    board.reveal_cell(0, 0);
    board.toggle_flag(3, 2);
    board.reset();
    let fresh = GameBoard::new(4, 3, 2);
    assert_eq!(board.board, fresh.board);
    assert_eq!((board.width, board.height, board.mine_count), (4, 3, 2));
    assert!(board.first_click);
    assert!(!board.game_started);
    assert!(!board.game_over);
    assert!(!board.game_won);
}

#[test]
fn flag_twice_restores_the_board() {
    let mut board = prepared(3, 3, &[(1, 1)]);
    let before = board.clone();
    assert!(board.toggle_flag(1, 1));
    assert_eq!(board.get_cell_state(1, 1), CellState::Flagged);
    assert!(board.toggle_flag(1, 1));
    assert_eq!(board.board, before.board);
}

#[test]
fn flag_refused_before_start() {
    let mut board = GameBoard::new(3, 3, 1);
    assert!(!board.toggle_flag(1, 1));
    assert_eq!(board.get_cell_state(1, 1), CellState::Hidden);
}

#[test]
fn show_mines_places_them_at_once() {
    for _ in 0..10 {
        let board = GameBoard::new_with_debug(9, 9, 10, true);
        assert!(!board.first_click);
        assert!(!board.game_started);
        assert_eq!(board.count_total_mines(), 10);
        for row in &board.board {
            for cell in row {
                assert_eq!(cell.state, CellState::Hidden);
            }
        }
    }
    let crowded = GameBoard::new_with_debug(2, 1, 5, true);
    assert_eq!(crowded.count_total_mines(), 1);
}

#[test]
fn without_show_mines_the_board_is_blank() {
    let board = GameBoard::new_with_debug(4, 4, 3, false);
    assert_eq!(board.board, GameBoard::new(4, 4, 3).board);
    assert!(board.first_click);
    assert_eq!(board.count_total_mines(), 0);
}

#[test]
fn mine_after_a_win_loses() {
    let mut board = prepared(2, 2, &[(1, 1)]);
    board.reveal_cell(0, 0);
    board.reveal_cell(0, 1);
    board.reveal_cell(1, 0);
    assert!(board.game_won);
    assert!(board.reveal_cell(1, 1));
    assert!(board.game_over);
    assert!(!board.game_won);
    assert_eq!(board.get_cell_state(1, 1), CellState::Revealed);
}

#[test]
fn cascade_does_not_jump_over_a_mine() {
    let mut board = prepared(6, 1, &[(2, 0)]);
    assert_eq!(board.get_cell_content(0, 0), CellContent::Empty);
    assert_eq!(board.get_cell_content(3, 0), CellContent::Number(1));
    assert!(board.reveal_cell(0, 0));
    assert_eq!(board.get_cell_state(0, 0), CellState::Revealed);
    assert_eq!(board.get_cell_state(1, 0), CellState::Revealed);
    for x in 2..6 {
        assert_eq!(board.get_cell_state(x, 0), CellState::Hidden);
    }
    assert!(!board.game_won);
    assert!(!board.game_over);
}
