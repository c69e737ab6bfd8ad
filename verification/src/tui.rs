//! The terminal interface's state. The event loop and the drawing live
//! outside this crate; here is the part it keeps.

use vstd::prelude::*;

verus! {

/// A terminal interface bound to one server address, redrawing at a fixed
/// rate.
pub struct TUI {
    host: String,
    redraw_rate_ms: u64,
}

impl View for TUI {
    type V = (Seq<char>, u64);

    closed spec fn view(&self) -> (Seq<char>, u64) {
        (self.host@, self.redraw_rate_ms)
    }
}

/// Builds a terminal interface for the given server address, redrawing every
/// 200 milliseconds.
pub fn new(host: String) -> (r: TUI)
    ensures
        r@ == (host@, 200u64),
{
    TUI { host, redraw_rate_ms: 200 }
}

impl TUI {
    /// The server address this interface talks to.
    pub fn host(&self) -> (r: &String)
        ensures
            r@ == self@.0,
    {
        &self.host
    }

    /// How often the screen is redrawn, in milliseconds.
    pub fn redraw_rate_ms(&self) -> (r: u64)
        ensures
            r == self@.1,
    {
        self.redraw_rate_ms
    }
}

} // verus!
