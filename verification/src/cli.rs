//! Plain values shared with the command-line front end.

use vstd::prelude::*;

verus! {

/// Whether output may be colourised.
#[derive(Debug, Clone, Copy, PartialEq, Eq, Structural)]
pub enum ColourSupport {
    Always,
    Auto,
    Never,
}

impl Default for ColourSupport {
    /// Colour is decided by the terminal unless overridden.
    fn default() -> (r: ColourSupport)
        ensures
            r == ColourSupport::Auto,
    {
        ColourSupport::Auto
    }
}

} // verus!
