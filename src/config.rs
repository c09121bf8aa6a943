use vstd::prelude::*;
use vstd::string::*;

verus! {

/// The settings a game is played with.
pub struct Configuration;

impl Configuration {
    pub fn window_title(&self) -> (r: String)
        ensures
            r@ == "Minesweeper"@,
    {
        String::from_str("Minesweeper")
    }

    pub fn row_count(&self) -> (r: usize)
        ensures
            r == 10,
    {
        10
    }

    pub fn col_count(&self) -> (r: usize)
        ensures
            r == 16,
    {
        16
    }

    pub fn mines_count(&self) -> (r: usize)
        ensures
            r == 20,
    {
        20
    }
}

/// A width and a height, in pixels.
pub struct Size {
    pub height: u32,
    pub width: u32,
}

} // verus!
