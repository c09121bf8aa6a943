use vstd::prelude::*;

use crate::grid::{Cell};

verus! {

/// The picture a cell is drawn with.
#[derive(Clone, Copy, Debug, PartialEq, Eq, Structural)]
pub enum CellImage {
    Bomb,
    Flag,
    Empty,
    Number(usize),
    Unknown,
}

/// Hazards show once the round is lost; otherwise a flag shows, then a
/// revealed cell's count (blank for none), and a hidden cell shows as such.
pub open spec fn image_of(cell: Cell, lost: bool) -> CellImage {
    if !cell.is_safe && lost {
        CellImage::Bomb
    } else if cell.is_flagged {
        CellImage::Flag
    } else if cell.is_visible {
        if cell.mines_count == 0 {
            CellImage::Empty
        } else {
            CellImage::Number(cell.mines_count)
        }
    } else {
        CellImage::Unknown
    }
}

pub fn cell_image(cell: &Cell, lost: bool) -> (r: CellImage)
    ensures
        r == image_of(*cell, lost),
{
    if !cell.is_safe && lost {
        CellImage::Bomb
    } else if cell.is_flagged {
        CellImage::Flag
    } else if cell.is_visible {
        if cell.mines_count == 0 {
            CellImage::Empty
        } else {
            CellImage::Number(cell.mines_count)
        }
    } else {
        CellImage::Unknown
    }
}

} // verus!
