//! From the lines of `Player.log` to events.
pub mod events;
pub mod extract;
pub mod scan;

pub use events::{Direction, ParsedEvent};
