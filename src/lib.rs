//! A small slot-result generator: a fixed number of random digits is dealt and
//! scored with poker-like groupings (repeated digits and ascending runs).
pub mod play;
pub mod prototype;
pub mod rules;
pub mod seed;
pub mod slots;
mod trusted;

pub use play::{Play, PlayModel};
pub use prototype::Game;
pub use slots::{Slots, SlotsError, SLOT_COUNT};
