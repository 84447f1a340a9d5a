//! Audio device settings and the decision to reconnect when the default
//! output device changes.

use vstd::prelude::*;

use crate::text::str_eq;

verus! {

/// Sample format of the captured stream.
#[derive(Clone, Copy, Debug, PartialEq, Eq, Structural)]
pub struct AudioConfig {
    pub sample_rate: u32,
    pub channels: u16,
}

impl AudioConfig {
    /// Samples buffered between the capture thread and the analyzer: one
    /// second of interleaved audio.
    pub fn buffer_capacity(&self) -> (n: usize)
        requires
            self.sample_rate * self.channels <= usize::MAX,
        ensures
            n == self.sample_rate * self.channels,
    {
        self.sample_rate as usize * self.channels as usize
    }
}

/// Whether capture must move to another device: there is a default output
/// device and its name differs from the one being captured.
pub fn needs_reconnect(current: Option<&str>, connected: &str) -> (b: bool)
    ensures
        b == (match current {
            Some(name) => name@ != connected@,
            None => false,
        }),
{
    match current {
        Some(name) => !str_eq(name, connected),
        None => false,
    }
}

} // verus!
