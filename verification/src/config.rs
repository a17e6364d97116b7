//! User configuration: the physical range of the keyboard and the MIDI port
//! to connect to.

use vstd::prelude::*;

verus! {

/// Keyboard configuration.
#[derive(Debug, PartialEq)]
pub struct Config {
    /// Lowest MIDI note number the keyboard can send (e.g. 36 = C2 for 61 keys).
    pub midi_low: u8,
    /// Highest MIDI note number the keyboard can send (e.g. 96 = C7 for 61 keys).
    pub midi_high: u8,
    /// Substring of the MIDI input port name to connect to (`None`: the first port).
    pub midi_port: Option<String>,
}

impl Default for Config {
    /// F2 to C5 (a 32-key keyboard), first port.
    fn default() -> (c: Config)
        ensures
            c.midi_low == 41,
            c.midi_high == 72,
            c.midi_port is None,
    {
        Config { midi_low: 41, midi_high: 72, midi_port: None }
    }
}

} // verus!
