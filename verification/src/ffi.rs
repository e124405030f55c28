//! Plain records mirroring display-server protocol structures that the
//! process hands across its drawing boundary.

use vstd::prelude::*;

verus! {

/// The fields of a protocol visual-type record, as plain values.
#[allow(non_camel_case_types)]
#[derive(Clone, Copy, PartialEq, Eq, Structural, Debug)]
pub struct xcb_visualtype_t {
    pub visual_id: u32,
    pub _class: u8,
    pub bits_per_rgb_value: u8,
    pub colormap_entries: u16,
    pub red_mask: u32,
    pub green_mask: u32,
    pub blue_mask: u32,
    pub pad0: u8,
}

impl xcb_visualtype_t {
    /// A record with every field given.
    pub fn new(
        visual_id: u32,
        _class: u8,
        bits_per_rgb_value: u8,
        colormap_entries: u16,
        red_mask: u32,
        green_mask: u32,
        blue_mask: u32,
    ) -> (r: xcb_visualtype_t)
        ensures
            r == (xcb_visualtype_t {
                visual_id,
                _class,
                bits_per_rgb_value,
                colormap_entries,
                red_mask,
                green_mask,
                blue_mask,
                pad0: 0,
            }),
    {
        xcb_visualtype_t {
            visual_id,
            _class,
            bits_per_rgb_value,
            colormap_entries,
            red_mask,
            green_mask,
            blue_mask,
            pad0: 0,
        }
    }
}

} // verus!
