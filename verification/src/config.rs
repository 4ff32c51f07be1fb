use vstd::prelude::*;

verus! {

/// Settings read at start-up.
#[derive(Clone, Copy, Debug, PartialEq, Eq, Structural)]
pub struct SettingsConfig {
    /// Whether colours are given as RGB rather than mapped to the 256-colour
    /// palette.
    pub true_color: bool,
}

/// What the program remembers from one run to the next.
#[derive(Clone, Debug, PartialEq, Eq)]
pub struct StateConfig {
    /// The names of the panels shown.
    pub active: Vec<String>,
}

} // verus!
