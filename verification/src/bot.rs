//! Move-selection strategies: pure readers of the match's query surface
//! that propose a coordinate for the caller to feed back into the engine.

mod intermediate;
mod random;
mod registry;

pub use intermediate::IntermediateBot;
pub use random::RandomBot;
pub use registry::{YBot, YBotRegistry};
