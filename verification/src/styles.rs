//! Appearance selectors for the presentation layer's buttons.
//!
//! The core keeps only the state these styles are chosen from; how a style
//! turns into colors and borders is the presentation layer's business.

use vstd::prelude::*;

verus! {

/// The style of the plain action buttons (load, save, close).
#[derive(Debug, Clone, Copy, Eq, PartialEq, Structural)]
pub struct GeneralButtonStyle {}

impl GeneralButtonStyle {
    pub fn new() -> (r: GeneralButtonStyle)
        ensures
            r == (GeneralButtonStyle {  }),
    {
        GeneralButtonStyle {  }
    }
}

/// The style of a slot button; a selected slot is drawn with an emphasized
/// border.
#[derive(Debug, Clone, Copy, Eq, PartialEq, Structural)]
pub struct PresetButtonStyle {
    pub selected: bool,
}

impl PresetButtonStyle {
    /// The style of an unselected slot.
    pub fn new() -> (r: PresetButtonStyle)
        ensures
            !r.selected,
    {
        PresetButtonStyle { selected: false }
    }

    /// The style of the slot the cursor points at.
    pub fn selected() -> (r: PresetButtonStyle)
        ensures
            r.selected,
    {
        PresetButtonStyle { selected: true }
    }
}

} // verus!
