//! State remembered across sessions: the training range chosen by the user.

use crate::config::Config;
use vstd::prelude::*;

verus! {

/// The training range set by the user, if any.
#[derive(Debug, Clone, Copy, PartialEq, Eq, Structural)]
pub struct AppState {
    pub training_low: Option<u8>,
    pub training_high: Option<u8>,
}

impl Default for AppState {
    /// No training range set.
    fn default() -> (s: AppState)
        ensures
            s.training_low is None,
            s.training_high is None,
    {
        AppState { training_low: None, training_high: None }
    }
}

impl AppState {
    /// The range to train on: the one set by the user, each end falling back
    /// to the keyboard's own range.
    pub fn active_range(&self, config: &Config) -> (r: (u8, u8))
        ensures
            r.0 == match self.training_low {
                Some(low) => low,
                None => config.midi_low,
            },
            r.1 == match self.training_high {
                Some(high) => high,
                None => config.midi_high,
            },
    {
        let low = match self.training_low {
            Some(low) => low,
            None => config.midi_low,
        };
        let high = match self.training_high {
            Some(high) => high,
            None => config.midi_high,
        };
        (low, high)
    }

    /// Remembers `low..=high` as the training range.
    pub fn set_range(&mut self, low: u8, high: u8)
        ensures
            final(self).training_low == Some(low),
            final(self).training_high == Some(high),
    {
        self.training_low = Some(low);
        self.training_high = Some(high);
    }
}

} // verus!
