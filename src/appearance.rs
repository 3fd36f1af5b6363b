//! Theme and scale choices of the editor window.
use vstd::prelude::*;

verus! {

/// Catppuccin themes.
#[derive(Clone, Copy, Debug, PartialEq, Eq, Structural)]
pub enum ETheme {
    Frappe,
    Latte,
    Macchiato,
    Mocha,
}

/// App scale.
#[derive(Clone, Copy, Debug, PartialEq, Eq, Structural)]
pub enum EScale {
    Native,
    Small,
    Medium,
    Large,
}

impl EScale {
    /// Pixels per point, in hundredths.
    pub fn pixels_per_point_percent(self) -> (r: u32)
        ensures
            r == match self {
                EScale::Native => 120u32,
                EScale::Small => 200u32,
                EScale::Medium => 300u32,
                EScale::Large => 400u32,
            },
    {
        match self {
            EScale::Native => 120,
            EScale::Small => 200,
            EScale::Medium => 300,
            EScale::Large => 400,
        }
    }
}

} // verus!
