//! Pointer-button bindings: the lookup key for the button command table.

use vstd::prelude::*;

verus! {

/// An immutable (modifier-mask, button-number) pair. Equality is over the
/// pair; the bound command lives in the table beside it.
#[derive(Clone, Copy, PartialEq, Eq, Structural, Hash, Debug)]
pub struct ButtonCombo {
    pub mask: u16,
    pub button: u8,
}

impl ButtonCombo {
    /// The combo for modifier mask `mask` and button `button`.
    pub fn new(mask: u16, button: u8) -> (r: ButtonCombo)
        ensures
            r == (ButtonCombo { mask, button }),
    {
        ButtonCombo { mask, button }
    }

    /// The button number.
    pub fn button(&self) -> (r: u8)
        ensures
            r == self.button,
    {
        self.button
    }

    /// The modifier mask.
    pub fn mask(&self) -> (r: u16)
        ensures
            r == self.mask,
    {
        self.mask
    }
}

} // verus!
