use minesweeper::GameBoard;

fn is_hole(board: &GameBoard, i: usize, j: usize) -> bool {
    board.get_black_holes_count(i, j).is_none()
}

#[test]
fn board_populate_black_holes() {
    let dim = 10usize;
    let mut board = GameBoard::new(dim);
    let holes = 15;
    board.populate_black_holes(holes);
    let mut count = 0usize;
    for i in 0..dim {
        for j in 0..dim {
            count += if is_hole(&board, i, j) { 1 } else { 0 };
        }
    }
    assert_eq!(count, holes, "Wrong holes count");
}

#[test]
fn board_lose() {
    let dim = 10usize;
    let mut board = GameBoard::new(dim);
    board.populate_black_holes(10);
    assert!(!board.is_game_over(), "Wrong initial state");
    'l: for i in 0..dim {
        for j in 0..dim {
            if is_hole(&board, i, j) {
                board.open(i, j);
                break 'l;
            }
        }
    }
    assert!(
        board.is_game_over() && !board.is_won(),
        "Game state wasn't changed properly"
    );
    assert!(board.is_game_over(), "Game over flag did not properly");
}

#[test]
fn board_win() {
    let dim = 10usize;
    let mut board = GameBoard::new(dim);
    let mut flags = 10;
    board.populate_black_holes(flags);
    for i in 0..dim {
        for j in 0..dim {
            if is_hole(&board, i, j) {
                board.put_flag(i, j);
                flags -= 1;
                if flags > 0 {
                    assert!(!board.is_game_over(), "Game state changed incorrectly");
                }
            }
        }
    }
    assert!(board.is_won(), "Game state wasn't changed properly");
    assert!(board.is_game_over(), "Game over flag did not properly");
}

#[test]
fn board_formatted_shows_counts_and_holes() {
    let mut board = GameBoard::new(2);
    board.populate_black_holes(4);
    assert_eq!(board.formatted(false), "*   *  \n*   *  ");
    assert_eq!(board.formatted(true), "@   @  \n@   @  ");
}

#[test]
fn board_formatted_after_open() {
    let mut board = GameBoard::new(3);
    board.open(0, 0);
    assert_eq!(board.formatted(false), "0   0   0  \n0   0   0  \n0   0   0  ");
    assert!(!board.is_game_over());
}

#[test]
fn board_count_around_holes() {
    let mut board = GameBoard::new(3);
    board.populate_black_holes(8);
    let mut safe = (0, 0);
    for i in 0..3 {
        for j in 0..3 {
            if !is_hole(&board, i, j) {
                safe = (i, j);
            }
        }
    }
    let expected = match safe {
        (1, 1) => 8,
        (0, 0) | (0, 2) | (2, 0) | (2, 2) => 3,
        _ => 5,
    };
    assert_eq!(board.get_black_holes_count(safe.0, safe.1), Some(expected));
    board.open(safe.0, safe.1);
    assert!(board.is_open(safe.0, safe.1));
    assert!(!board.is_game_over());
}

#[test]
fn board_flag_on_safe_cell_blocks_win() {
    let mut board = GameBoard::new(2);
    board.populate_black_holes(1);
    let mut hole = (0, 0);
    let mut safe = (0, 0);
    for i in 0..2 {
        for j in 0..2 {
            if is_hole(&board, i, j) {
                hole = (i, j);
            } else {
                safe = (i, j);
            }
        }
    }
    board.put_flag(safe.0, safe.1);
    board.put_flag(hole.0, hole.1);
    assert!(!board.is_game_over());
    board.put_flag(safe.0, safe.1);
    assert!(board.is_won());
}

#[test]
fn board_moves_off_the_board_change_nothing() {
    let mut board = GameBoard::new(3);
    board.populate_black_holes(2);
    let before = board.formatted(true);
    board.open(3, 0);
    board.open(0, 7);
    board.put_flag(5, 5);
    assert_eq!(board.formatted(true), before);
    assert_eq!(board.formatted(false), "*   *   *  \n*   *   *  \n*   *   *  ");
    assert!(!board.is_game_over());
}

#[test]
fn board_finished_round_ignores_moves_anywhere() {
    let mut board = GameBoard::new(2);
    board.populate_black_holes(1);
    let mut hole = (0, 0);
    for i in 0..2 {
        for j in 0..2 {
            if is_hole(&board, i, j) {
                hole = (i, j);
            }
        }
    }
    board.open(hole.0, hole.1);
    assert!(board.is_game_over() && !board.is_won());
    let before = board.formatted(false);
    for (i, j) in [(0, 0), (0, 1), (1, 0), (1, 1), (9, 9), (0, 4)] {
        board.open(i, j);
        board.put_flag(i, j);
    }
    assert_eq!(board.formatted(false), before);
    assert!(board.is_game_over() && !board.is_won());
}
