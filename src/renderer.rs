use vstd::prelude::*;
use vstd::string::*;

use crate::game_model::{Board, GameModel, State};
use crate::grid::{Cell};

verus! {

/// The name of the image a cell is drawn with.
pub open spec fn image_key(cell: Cell) -> Seq<char> {
    if !cell.is_visible {
        "hidden"@
    } else if cell.is_flagged {
        "flagged"@
    } else if cell.is_safe {
        if cell.mines_count == 0 {
            "blank"@
        } else if cell.mines_count == 1 {
            "image_1"@
        } else if cell.mines_count == 2 {
            "image_2"@
        } else if cell.mines_count == 3 {
            "image_3"@
        } else if cell.mines_count == 4 {
            "image_4"@
        } else if cell.mines_count == 5 {
            "image_5"@
        } else if cell.mines_count == 6 {
            "image_6"@
        } else if cell.mines_count == 7 {
            "image_7"@
        } else {
            "image_8"@
        }
    } else {
        "bomb"@
    }
}

/// The image keys of a board, column after column, top to bottom.
pub open spec fn keys_of(b: Board) -> Seq<Seq<char>> {
    Seq::new(b.rows * b.cols, |i: int| image_key(b.cells[i % b.rows as int][i / b.rows as int]))
}

fn key_str(cell: Cell) -> (r: &'static str)
    requires
        cell.mines_count <= 8,
    ensures
        r@ == image_key(cell),
{
    if !cell.is_visible {
        "hidden"
    } else if cell.is_flagged {
        "flagged"
    } else if cell.is_safe {
        match cell.mines_count {
            0 => "blank",
            1 => "image_1",
            2 => "image_2",
            3 => "image_3",
            4 => "image_4",
            5 => "image_5",
            6 => "image_6",
            7 => "image_7",
            _ => "image_8",
        }
    } else {
        "bomb"
    }
}

/// Works out what to draw for a game.
pub struct Renderer {}

impl Renderer {
    pub fn new() -> (r: Result<Renderer, String>)
        ensures
            r.is_ok(),
    {
        Ok(Renderer {})
    }

    /// The image key of every cell, column after column, top to bottom.
    pub fn draw(&mut self, game: &GameModel) -> (r: Result<Vec<String>, String>)
        requires
            game@.wf(),
        ensures
            r matches Ok(keys) && keys@.len() == keys_of(game@).len() && forall|i: int|
                0 <= i < keys@.len() ==> (#[trigger] keys@[i])@ == keys_of(game@)[i],
    {
        match game.state() {
            State::InProgress => self.draw_board(game),
            State::Lose => self.draw_lose(game),
            State::Win => self.draw_win(game),
        }
    }

    fn draw_board(&mut self, game: &GameModel) -> (r: Result<Vec<String>, String>)
        requires
            game@.wf(),
        ensures
            r matches Ok(keys) && keys@.len() == keys_of(game@).len() && forall|i: int|
                0 <= i < keys@.len() ==> (#[trigger] keys@[i])@ == keys_of(game@)[i],
    {
        let (rows, cols) = game.board_size();
        let ghost b = game@;
        let mut keys: Vec<String> = Vec::new();
        let mut col: usize = 0;
        while col < cols
            invariant
                b == game@,
                b.wf(),
                rows == b.rows,
                cols == b.cols,
                col <= cols,
                keys@.len() == col * rows,
                forall|i: int| 0 <= i < keys@.len() ==> (#[trigger] keys@[i])@ == keys_of(b)[i],
            decreases cols - col,
        {
            let mut row: usize = 0;
            while row < rows
                invariant
                    b == game@,
                    b.wf(),
                    rows == b.rows,
                    cols == b.cols,
                    col < cols,
                    row <= rows,
                    keys@.len() == col * rows + row,
                    forall|i: int| 0 <= i < keys@.len() ==> (#[trigger] keys@[i])@ == keys_of(b)[i],
                decreases rows - row,
            {
                assert(col * rows + row < rows * cols) by (nonlinear_arith)
                    requires
                        col < cols,
                        row < rows,
                ;
                let cell = match game.get_cell(row, col) {
                    Ok(cell) => cell,
                    Err(_) => return Err(String::from_str("cell off the board")),
                };
                assert(cell.mines_count <= 8);
                let ghost i = col * rows + row;
                assert(i % rows as int == row && i / rows as int == col) by (nonlinear_arith)
                    requires
                        i == col * rows + row,
                        row < rows,
                ;
                keys.push(String::from_str(key_str(cell)));
                row = row + 1;
            }
            assert(col * rows + rows == (col + 1) * rows) by (nonlinear_arith);
            col = col + 1;
        }
        assert(cols * rows == rows * cols) by (nonlinear_arith);
        Ok(keys)
    }

    fn draw_win(&mut self, game: &GameModel) -> (r: Result<Vec<String>, String>)
        requires
            game@.wf(),
        ensures
            r matches Ok(keys) && keys@.len() == keys_of(game@).len() && forall|i: int|
                0 <= i < keys@.len() ==> (#[trigger] keys@[i])@ == keys_of(game@)[i],
    {
        self.draw_board(game)
    }

    fn draw_lose(&mut self, game: &GameModel) -> (r: Result<Vec<String>, String>)
        requires
            game@.wf(),
        ensures
            r matches Ok(keys) && keys@.len() == keys_of(game@).len() && forall|i: int|
                0 <= i < keys@.len() ==> (#[trigger] keys@[i])@ == keys_of(game@)[i],
    {
        self.draw_board(game)
    }
}

} // verus!
