//! Keyboard bindings: the lookup key for the key command table, and the
//! keycode/keysym mapping read from the display server at startup.

use vstd::prelude::*;

verus! {

/// An immutable (modifier-mask, key-symbol) pair. Equality is over the
/// pair; the bound command lives in the table beside it.
#[derive(Clone, Copy, PartialEq, Eq, Structural, Hash, Debug)]
pub struct KeyCombo {
    pub mask: u16,
    pub key: u32,
}

impl KeyCombo {
    /// The combo for modifier mask `mask` and key symbol `key`.
    pub fn new(mask: u16, key: u32) -> (r: KeyCombo)
        ensures
            r == (KeyCombo { mask, key }),
    {
        KeyCombo { mask, key }
    }

    /// The key symbol.
    pub fn key(&self) -> (r: u32)
        ensures
            r == self.key,
    {
        self.key
    }

    /// The modifier mask.
    pub fn mask(&self) -> (r: u16)
        ensures
            r == self.mask,
    {
        self.mask
    }
}

/// The keyboard mapping the display server reported: `keysyms_per_keycode`
/// symbols for each keycode starting at `min_keycode`, flattened into one
/// list.
pub struct Keymap {
    keysyms: Vec<u32>,
    min_keycode: u8,
    keysyms_per_keycode: u8,
}

impl Keymap {
    /// The flattened symbol table.
    pub closed spec fn spec_keysyms(self) -> Seq<u32> {
        self.keysyms@
    }

    /// The first keycode the table covers.
    pub closed spec fn spec_min_keycode(self) -> int {
        self.min_keycode as int
    }

    /// Symbols stored per keycode.
    pub closed spec fn spec_per(self) -> int {
        self.keysyms_per_keycode as int
    }

    /// A mapping as the display server hands it over.
    pub fn new(keysyms: Vec<u32>, min_keycode: u8, keysyms_per_keycode: u8) -> (m: Keymap)
        ensures
            m.spec_keysyms() == keysyms@,
            m.spec_min_keycode() == min_keycode as int,
            m.spec_per() == keysyms_per_keycode as int,
    {
        Keymap { keysyms, min_keycode, keysyms_per_keycode }
    }

    /// The first keycode the mapping covers.
    pub fn min_keycode(&self) -> (r: u8)
        ensures
            r as int == self.spec_min_keycode(),
    {
        self.min_keycode
    }

    /// How many symbols the mapping stores per keycode.
    pub fn keysyms_per_keycode(&self) -> (r: u8)
        ensures
            r as int == self.spec_per(),
    {
        self.keysyms_per_keycode
    }

    /// How many symbols the mapping holds in all.
    pub fn keysym_count(&self) -> (r: usize)
        ensures
            r as int == self.spec_keysyms().len(),
    {
        self.keysyms.len()
    }

    /// The first (unshifted) symbol of `keycode`.
    pub fn get_keysym(&self, keycode: u8) -> (r: u32)
        requires
            self.spec_min_keycode() <= keycode as int,
            (keycode as int - self.spec_min_keycode()) * self.spec_per()
                < self.spec_keysyms().len(),
        ensures
            r == self.spec_keysyms()[(keycode as int - self.spec_min_keycode())
                * self.spec_per()],
    {
        proof {
            assert(self.min_keycode <= keycode);
            assert((keycode as int - self.min_keycode as int) * (self.keysyms_per_keycode as int)
                < self.keysyms@.len());
        }
        let diff: usize = (keycode - self.min_keycode) as usize;
        let n: usize = self.keysyms.len();
        proof {
            assert(diff as int == keycode as int - self.min_keycode as int);
            assert(diff as int * (self.keysyms_per_keycode as int) < n as int);
        }
        let index: usize = diff * self.keysyms_per_keycode as usize;
        self.keysyms[index]
    }

    /// The keycode of the first table entry holding `keysym`, or `0` when
    /// no keycode produces it.
    pub fn get_keycode(&self, keysym: u32) -> (r: u8)
        requires
            1 <= self.spec_per(),
            self.spec_keysyms().len() <= (256 - self.spec_min_keycode()) * self.spec_per(),
        ensures
            (exists|i: int| 0 <= i < self.spec_keysyms().len() && self.spec_keysyms()[i] == keysym)
                ==> ({
                let i = choose|i: int|
                    0 <= i < self.spec_keysyms().len() && self.spec_keysyms()[i] == keysym
                        && forall|j: int| 0 <= j < i ==> self.spec_keysyms()[j] != keysym;
                r as int == self.spec_min_keycode() + i / self.spec_per()
            }),
            (forall|i: int|
                0 <= i < self.spec_keysyms().len() ==> self.spec_keysyms()[i] != keysym) ==> r
                == 0,
    {
        let mut i: usize = 0;
        while i < self.keysyms.len()
            invariant
                i <= self.keysyms@.len(),
                1 <= self.spec_per(),
                self.spec_keysyms().len() <= (256 - self.spec_min_keycode()) * self.spec_per(),
                forall|j: int| 0 <= j < i as int ==> self.spec_keysyms()[j] != keysym,
            decreases self.keysyms@.len() - i,
        {
            if self.keysyms[i] == keysym {
                proof {
                    let per = self.spec_per();
                    vstd::arithmetic::div_mod::lemma_div_pos_is_pos(i as int, per);
                    vstd::arithmetic::div_mod::lemma_div_is_ordered(i as int, self.spec_keysyms().len() - 1, per);
                    assert((256 - self.spec_min_keycode()) * per == per * (256
                        - self.spec_min_keycode())) by (nonlinear_arith);
                    vstd::arithmetic::div_mod::lemma_multiply_divide_lt(
                        i as int,
                        per,
                        256 - self.spec_min_keycode(),
                    );
                }
                let code: u8 = self.min_keycode + (i / self.keysyms_per_keycode as usize) as u8;
                proof {
                    let w = choose|w: int|
                        0 <= w < self.spec_keysyms().len() && self.spec_keysyms()[w] == keysym
                            && forall|j: int| 0 <= j < w ==> self.spec_keysyms()[j] != keysym;
                    assert(w == i as int);
                }
                return code;
            }
            i = i + 1;
        }
        0
    }
}

} // verus!
