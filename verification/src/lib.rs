//! A turn-based engine for the Game of Y on a triangular board.
//!
//! The board is a triangle of side `n` whose cells carry barycentric
//! coordinates: three non-negative components summing to `n - 1`. Two
//! players alternate placing pieces; a player wins by connecting all
//! three sides of the triangle with one group of adjacent own pieces.

mod bot;
mod coord;
mod game;
mod win;

pub use bot::{IntermediateBot, RandomBot, YBot, YBotRegistry};
pub use coord::Coordinates;
pub use game::{GameStatus, GameY, Movement, PlayerId, YError};
