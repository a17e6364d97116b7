//! Note naming, a Leitner practice scheduler and song sequencing for a
//! sheet-music reading trainer driven by a MIDI keyboard.

mod clock;
mod random;
pub mod config;
pub mod input;
pub mod keyboard;
pub mod scheduler;
pub mod smf;
pub mod song;
pub mod staff;
pub mod state;
pub mod trainer;
