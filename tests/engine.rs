use minesweeper::{
    cell_image, BoardError, Cell, CellImage, Configuration, GameModel, Renderer, State,
};

fn cells(game: &GameModel) -> Vec<Vec<Cell>> {
    let (rows, cols) = game.board_size();
    (0..rows)
        .map(|r| (0..cols).map(|c| game.get_cell(r, c).unwrap()).collect())
        .collect()
}

fn hazards_near(game: &GameModel, r: usize, c: usize) -> usize {
    let (rows, cols) = game.board_size();
    let mut n = 0;
    for dr in -1i64..=1 {
        for dc in -1i64..=1 {
            if dr == 0 && dc == 0 {
                continue;
            }
            let (nr, nc) = (r as i64 + dr, c as i64 + dc);
            if nr >= 0 && nc >= 0 && (nr as usize) < rows && (nc as usize) < cols {
                if !game.get_cell(nr as usize, nc as usize).unwrap().is_safe() {
                    n += 1;
                }
            }
        }
    }
    n
}

#[test]
fn single_cell_board_is_won_by_opening_it() {
    let mut game = GameModel::new();
    game.start(1, 1, 0);
    assert_eq!(game.get_cell(0, 0).unwrap().mines_count(), 0);
    game.open_cell(0, 0);
    assert!(game.get_cell(0, 0).unwrap().is_visible());
    assert_eq!(game.state(), State::Win);
}

#[test]
fn opening_the_placed_hazard_loses() {
    let mut game = GameModel::new();
    game.start_with_layout(2, 2, &vec![(0, 0)]);
    assert_eq!(game.mines(), 1);
    assert_eq!(game.state(), State::InProgress);
    game.open_cell(0, 0);
    assert_eq!(game.state(), State::Lose);
    for row in cells(&game) {
        for cell in row {
            assert!(!cell.is_visible());
        }
    }
}

#[test]
fn empty_three_by_three_opens_at_once() {
    let mut game = GameModel::new();
    game.start(3, 3, 0);
    game.open_cell(1, 1);
    for row in cells(&game) {
        for cell in row {
            assert!(cell.is_visible());
        }
    }
    assert_eq!(game.state(), State::Win);
}

#[test]
fn eight_flags_win_on_the_eighth() {
    let mut game = GameModel::new();
    game.start(3, 3, 8);
    let mut flagged = 0;
    for r in 0..3 {
        for c in 0..3 {
            if !game.get_cell(r, c).unwrap().is_safe() {
                assert_eq!(game.state(), State::InProgress);
                game.flag_cell(r, c);
                flagged += 1;
            }
        }
    }
    assert_eq!(flagged, 8);
    assert_eq!(game.state(), State::Win);
}

#[test]
fn reading_off_the_board_is_out_of_range() {
    let mut game = GameModel::new();
    game.start(3, 3, 1);
    assert_eq!(game.get_cell(5, 5), Err(BoardError::OutOfRange));
    assert_eq!(game.get_cell(0, 3), Err(BoardError::OutOfRange));
    assert_eq!(game.get_cell(3, 0), Err(BoardError::OutOfRange));
    assert!(game.get_cell(2, 2).is_ok());
}

#[test]
fn start_places_exactly_the_requested_hazards() {
    for mines in [0usize, 1, 5, 19, 24] {
        let mut game = GameModel::new();
        game.start(5, 5, mines);
        let n = cells(&game).iter().flatten().filter(|c| !c.is_safe()).count();
        assert_eq!(n, mines);
        assert_eq!(game.mines(), mines);
    }
}

#[test]
fn two_cells_one_hazard_always_one_hazard() {
    for _ in 0..50 {
        let mut game = GameModel::new();
        game.start(1, 2, 1);
        let n = cells(&game).iter().flatten().filter(|c| !c.is_safe()).count();
        assert_eq!(n, 1);
    }
}

#[test]
fn counts_match_neighbouring_hazards() {
    let mut game = GameModel::new();
    game.start(7, 9, 20);
    for r in 0..7 {
        for c in 0..9 {
            let cell = game.get_cell(r, c).unwrap();
            if cell.is_safe() {
                assert_eq!(cell.mines_count(), hazards_near(&game, r, c));
            }
        }
    }
}

#[test]
fn layout_counts_are_exact() {
    let mut game = GameModel::new();
    game.start_with_layout(3, 3, &vec![(0, 0), (0, 1), (2, 2)]);
    let expect = [[9, 9, 1], [2, 3, 2], [0, 1, 9]];
    for r in 0..3 {
        for c in 0..3 {
            let cell = game.get_cell(r, c).unwrap();
            if expect[r][c] == 9 {
                assert!(!cell.is_safe());
            } else {
                assert!(cell.is_safe());
                assert_eq!(cell.mines_count(), expect[r][c]);
            }
        }
    }
    assert_eq!(game.mines(), 3);
}

#[test]
fn layout_with_repeated_position_counts_it_once() {
    let mut game = GameModel::new();
    game.start_with_layout(2, 3, &vec![(1, 2), (1, 2)]);
    assert_eq!(game.mines(), 1);
    assert_eq!(game.board_size(), (2, 3));
}

#[test]
fn bad_layouts_change_nothing() {
    let mut game = GameModel::new();
    game.start_with_layout(2, 2, &vec![(0, 0)]);
    game.start_with_layout(2, 2, &vec![(0, 0), (0, 1), (1, 0), (1, 1)]);
    assert_eq!(game.mines(), 1);
    game.start_with_layout(2, 2, &vec![(2, 0)]);
    assert_eq!(game.mines(), 1);
    assert!(!game.get_cell(0, 0).unwrap().is_safe());
}

#[test]
fn opening_a_hazard_reveals_nothing() {
    let mut game = GameModel::new();
    game.start_with_layout(3, 3, &vec![(1, 1)]);
    game.open_cell(0, 0);
    assert!(game.get_cell(0, 0).unwrap().is_visible());
    let before = cells(&game);
    game.open_cell(1, 1);
    assert_eq!(game.state(), State::Lose);
    let after = cells(&game);
    for r in 0..3 {
        for c in 0..3 {
            assert_eq!(before[r][c].is_visible(), after[r][c].is_visible());
        }
    }
}

#[test]
fn cascade_stops_at_numbered_border() {
    // Hazard in the far corner: the cascade from (0,0) opens all but it.
    let mut game = GameModel::new();
    game.start_with_layout(4, 4, &vec![(3, 3)]);
    game.open_cell(0, 0);
    for r in 0..4 {
        for c in 0..4 {
            let cell = game.get_cell(r, c).unwrap();
            assert_eq!(cell.is_visible(), (r, c) != (3, 3));
        }
    }
    assert_eq!(game.state(), State::Win);
}

#[test]
fn cascade_does_not_cross_a_wall_of_numbers() {
    // A column of hazards splits the board; the right side stays hidden.
    let mut game = GameModel::new();
    game.start_with_layout(3, 5, &vec![(0, 2), (1, 2), (2, 2)]);
    game.open_cell(1, 0);
    for r in 0..3 {
        for c in 0..5 {
            let cell = game.get_cell(r, c).unwrap();
            assert_eq!(cell.is_visible(), c < 2);
        }
    }
    assert_eq!(game.state(), State::InProgress);
}

#[test]
fn opening_a_numbered_cell_reveals_only_it() {
    let mut game = GameModel::new();
    game.start_with_layout(3, 3, &vec![(0, 0)]);
    game.open_cell(1, 1);
    for r in 0..3 {
        for c in 0..3 {
            assert_eq!(game.get_cell(r, c).unwrap().is_visible(), (r, c) == (1, 1));
        }
    }
}

#[test]
fn opening_clears_flags_in_the_region() {
    let mut game = GameModel::new();
    game.start_with_layout(3, 3, &vec![(2, 2)]);
    game.flag_cell(0, 1);
    assert!(game.get_cell(0, 1).unwrap().is_flagged());
    game.open_cell(0, 0);
    let cell = game.get_cell(0, 1).unwrap();
    assert!(cell.is_visible());
    assert!(!cell.is_flagged());
    assert_eq!(game.state(), State::Win);
}

#[test]
fn flag_on_safe_cell_keeps_open_win_away() {
    let mut game = GameModel::new();
    game.start_with_layout(1, 3, &vec![(0, 0)]);
    game.flag_cell(0, 2);
    game.open_cell(0, 1);
    assert_eq!(game.state(), State::InProgress);
    game.flag_cell(0, 2);
    game.open_cell(0, 2);
    assert_eq!(game.state(), State::Win);
}

#[test]
fn open_win_ignores_hazard_flags() {
    let mut game = GameModel::new();
    game.start_with_layout(1, 3, &vec![(0, 0), (0, 2)]);
    game.flag_cell(0, 0);
    assert_eq!(game.state(), State::InProgress);
    game.open_cell(0, 1);
    assert_eq!(game.state(), State::Win);
}

#[test]
fn flag_win_with_no_other_flags() {
    let mut game = GameModel::new();
    game.start_with_layout(2, 2, &vec![(0, 0), (1, 1)]);
    game.flag_cell(0, 0);
    assert_eq!(game.state(), State::InProgress);
    game.flag_cell(1, 1);
    assert_eq!(game.state(), State::Win);
}

#[test]
fn flag_toggles_back() {
    let mut game = GameModel::new();
    game.start_with_layout(2, 2, &vec![(0, 0)]);
    game.flag_cell(1, 1);
    assert!(game.get_cell(1, 1).unwrap().is_flagged());
    game.flag_cell(1, 1);
    assert!(!game.get_cell(1, 1).unwrap().is_flagged());
    assert_eq!(game.state(), State::InProgress);
}

#[test]
fn revealed_cells_take_no_flag() {
    let mut game = GameModel::new();
    game.start_with_layout(2, 2, &vec![(0, 0)]);
    game.open_cell(1, 1);
    game.flag_cell(1, 1);
    assert!(!game.get_cell(1, 1).unwrap().is_flagged());
}

#[test]
fn finished_round_ignores_moves() {
    let mut game = GameModel::new();
    game.start_with_layout(2, 2, &vec![(0, 0)]);
    game.open_cell(0, 0);
    assert_eq!(game.state(), State::Lose);
    let before = cells(&game);
    game.open_cell(1, 1);
    game.flag_cell(0, 1);
    assert_eq!(cells(&game), before);
    assert_eq!(game.state(), State::Lose);

    let mut won = GameModel::new();
    won.start_with_layout(1, 2, &vec![(0, 0)]);
    won.open_cell(0, 1);
    assert_eq!(won.state(), State::Win);
    let before = cells(&won);
    won.flag_cell(0, 0);
    won.open_cell(0, 0);
    assert_eq!(cells(&won), before);
    assert_eq!(won.state(), State::Win);
}

#[test]
fn moves_off_the_board_change_nothing() {
    let mut game = GameModel::new();
    game.start_with_layout(2, 2, &vec![(0, 0)]);
    let before = cells(&game);
    game.open_cell(0, 5);
    game.open_cell(5, 0);
    game.flag_cell(2, 2);
    assert_eq!(cells(&game), before);
    assert_eq!(game.state(), State::InProgress);
}

#[test]
fn restart_keeps_size_and_hazard_count() {
    let mut game = GameModel::new();
    game.start(6, 7, 12);
    game.open_cell(0, 0);
    game.restart();
    assert_eq!(game.board_size(), (6, 7));
    assert_eq!(game.mines(), 12);
    assert_eq!(game.state(), State::InProgress);
    let all = cells(&game);
    assert_eq!(all.iter().flatten().filter(|c| !c.is_safe()).count(), 12);
    assert!(all.iter().flatten().all(|c| !c.is_visible() && !c.is_flagged()));
}

#[test]
fn full_or_empty_boards_are_refused() {
    let mut game = GameModel::new();
    game.start(2, 2, 4);
    assert_eq!(game.board_size(), (0, 0));
    game.start(0, 3, 0);
    assert_eq!(game.board_size(), (0, 0));
    game.start(2, 2, 1);
    game.start(2, 2, 9);
    assert_eq!(game.board_size(), (2, 2));
    assert_eq!(game.mines(), 1);
}

#[test]
fn restart_without_a_board_does_nothing() {
    let mut game = GameModel::new();
    game.restart();
    assert_eq!(game.board_size(), (0, 0));
    assert_eq!(game.state(), State::InProgress);
}

#[test]
fn configuration_values() {
    let config = Configuration;
    assert_eq!(config.window_title(), "Minesweeper");
    assert_eq!(config.row_count(), 10);
    assert_eq!(config.col_count(), 16);
    assert_eq!(config.mines_count(), 20);
}

#[test]
fn cell_pictures_follow_the_round() {
    let mut game = GameModel::new();
    game.start_with_layout(1, 3, &vec![(0, 0)]);
    game.flag_cell(0, 2);
    let pic = |g: &GameModel, c: usize, lost: bool| cell_image(&g.get_cell(0, c).unwrap(), lost);
    assert_eq!(pic(&game, 0, false), CellImage::Unknown);
    assert_eq!(pic(&game, 2, false), CellImage::Flag);
    game.open_cell(0, 1);
    assert_eq!(pic(&game, 1, false), CellImage::Number(1));
    assert_eq!(pic(&game, 0, true), CellImage::Bomb);
    game.flag_cell(0, 2);
    game.open_cell(0, 2);
    assert_eq!(pic(&game, 2, false), CellImage::Empty);
}

#[test]
fn renderer_names_images_column_by_column() {
    let mut game = GameModel::new();
    game.start_with_layout(2, 2, &vec![(1, 1)]);
    game.open_cell(0, 0);
    let mut renderer = Renderer::new().unwrap();
    let keys = renderer.draw(&game).unwrap();
    assert_eq!(keys, vec!["image_1", "hidden", "hidden", "hidden"]);
    game.open_cell(1, 1);
    let keys = renderer.draw(&game).unwrap();
    assert_eq!(keys, vec!["image_1", "hidden", "hidden", "hidden"]);
    assert_eq!(game.state(), State::Lose);

    let mut empty = GameModel::new();
    empty.start(2, 1, 0);
    empty.open_cell(0, 0);
    assert_eq!(renderer.draw(&empty).unwrap(), vec!["blank", "blank"]);
}
