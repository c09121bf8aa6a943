pub mod appearance;
pub mod cascade;
pub mod config;
pub mod counting;
pub mod game_board;
pub mod game_model;
pub mod grid;
pub mod laws;
pub mod renderer;
mod sampling;

pub use appearance::{cell_image, CellImage};
pub use config::{Configuration, Size};
pub use game_board::GameBoard;
pub use game_model::{Board, BoardError, Game, GameModel, State};
pub use grid::Cell;
pub use renderer::Renderer;
