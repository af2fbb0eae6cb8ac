//! Generation counters for delayed work (hover tooltips, editor flushes).
//!
//! Each new trigger takes a fresh token; when the delay is over, the work
//! runs only if its token is still the current one, so a later trigger
//! cancels an earlier one.
use vstd::prelude::*;

verus! {

/// The generation after `g`: one more, wrapping around at `u32::MAX`.
pub open spec fn next_generation(g: u32) -> u32 {
    if g == u32::MAX {
        0
    } else {
        (g + 1) as u32
    }
}

/// A counter of triggers.
pub struct Debounce {
    /// The current generation.
    pub generation: u32,
}

impl Debounce {
    /// A counter at generation 0.
    pub fn new() -> (d: Debounce)
        ensures
            d.generation == 0,
    {
        Debounce { generation: 0 }
    }

    /// Starts a new generation and hands out its token.
    pub fn bump(&mut self) -> (token: u32)
        ensures
            final(self).generation == next_generation(old(self).generation),
            token == final(self).generation,
    {
        self.generation = if self.generation == u32::MAX {
            0
        } else {
            self.generation + 1
        };
        self.generation
    }

    /// Cancels the pending work without handing out a token.
    pub fn cancel(&mut self)
        ensures
            final(self).generation == next_generation(old(self).generation),
    {
        self.bump();
    }

    /// Whether `token` still belongs to the current generation.
    pub fn is_current(&self, token: u32) -> (r: bool)
        ensures
            r == (token == self.generation),
    {
        token == self.generation
    }
}

/// A token handed out by one trigger is no longer current after the next
/// trigger or cancel.
pub proof fn later_trigger_cancels_earlier(g: u32)
    ensures
        next_generation(g) != g,
        next_generation(next_generation(g)) != next_generation(g),
{
}

} // verus!
