//! The driver-facing game value: it carries only the verbosity flag that the
//! surrounding presentation layer sets and reads. The input loop, prompts and
//! rendering live entirely outside the core.

use vstd::prelude::*;

verus! {

/// Game-wide presentation state.
pub struct Game {
    debug: bool,
}

impl Game {
    /// The verbosity flag.
    pub closed spec fn verbose(&self) -> bool {
        self.debug
    }

    /// A fresh game with verbose logging off.
    pub fn new() -> (r: Game)
        ensures
            !r.verbose(),
    {
        Game { debug: false }
    }

    /// Turn verbose logging on or off.
    pub fn set_verbose(&mut self, v: bool)
        ensures
            final(self).verbose() == v,
    {
        self.debug = v;
    }

    /// Read the verbosity flag.
    pub fn is_verbose(&self) -> (r: bool)
        ensures
            r == self.verbose(),
    {
        self.debug
    }
}

} // verus!
