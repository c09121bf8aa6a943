use minesweeper::{Game, GameModel, State};

fn create_game() -> GameModel {
    let mut game = GameModel::new();
    let mines = 99;
    game.start(16, 32, mines);
    game
}

fn is_hazard(game: &GameModel, r: usize, c: usize) -> bool {
    !game.get_cell(r, c).unwrap().is_safe()
}

#[test]
fn game_model_model_fill_mines() {
    let game = create_game();
    let (rows, cols) = game.board_size();
    let mut found = 0usize;
    for r in 0..rows {
        for c in 0..cols {
            if is_hazard(&game, r, c) {
                found += 1;
            }
        }
    }
    assert_eq!(found, game.mines());
}

#[test]
fn game_model_model_lose() {
    let mut game = create_game();
    let (rows, cols) = game.board_size();
    'outer: for r in 0..rows {
        for c in 0..cols {
            if is_hazard(&game, r, c) {
                game.open_cell(r, c);
                break 'outer;
            }
        }
    }
    assert_eq!(game.state(), State::Lose);
}

#[test]
fn model_win_by_open() {
    let mut game = create_game();
    let (rows, cols) = game.board_size();
    for r in 0..rows {
        for c in 0..cols {
            if !is_hazard(&game, r, c) {
                game.open_cell(r, c);
            }
        }
    }
    assert_eq!(game.state(), State::Win);
}

#[test]
fn model_win_by_flag() {
    let mut game = create_game();
    let (rows, cols) = game.board_size();
    for r in 0..rows {
        for c in 0..cols {
            if is_hazard(&game, r, c) {
                game.flag_cell(r, c);
            }
        }
    }
    assert_eq!(game.state(), State::Win);
}

#[test]
fn model_open_cell_empty_board() {
    let mut game = GameModel::new();
    game.start(16, 32, 0);
    game.open_cell(0, 0);
    let (rows, cols) = game.board_size();
    assert_eq!(rows, 16);
    assert_eq!(cols, 32);
    for r in 0..rows {
        for c in 0..cols {
            assert!(game.get_cell(r, c).unwrap().is_visible());
        }
    }
    assert_eq!(game.state(), State::Win);
}

fn create_small_game() -> Game {
    let mut game = Game::new();
    let mines = 10;
    game.start(9, 9, mines);
    game
}

#[test]
fn game_model_fill_mines() {
    let game = create_small_game();
    let (rows, cols) = game.board_size();
    let mut found = 0usize;
    for r in 0..rows {
        for c in 0..cols {
            if is_hazard(&game, r, c) {
                found += 1;
            }
        }
    }
    assert_eq!(found, game.mines());
}

#[test]
fn game_model_lose() {
    let mut game = create_small_game();
    let (rows, cols) = game.board_size();
    'outer: for r in 0..rows {
        for c in 0..cols {
            if is_hazard(&game, r, c) {
                game.open_cell(r, c);
                break 'outer;
            }
        }
    }
    assert_eq!(game.state(), State::Lose);
}
