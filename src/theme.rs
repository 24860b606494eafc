//! Which colour theme the viewer uses.
use vstd::prelude::*;

verus! {

/// Dark or light colours.
#[derive(Clone, Copy, Debug, PartialEq, Eq, Structural)]
pub enum ThemeMode {
    Dark,
    Light,
}

impl ThemeMode {
    /// The mode to use: dark.
    pub fn detect() -> (r: ThemeMode)
        ensures
            r == ThemeMode::Dark,
    {
        ThemeMode::Dark
    }
}

/// The mode that the session's theme is built from, chosen once at start.
pub fn init() -> (r: ThemeMode)
    ensures
        r == ThemeMode::Dark,
{
    ThemeMode::detect()
}

} // verus!
