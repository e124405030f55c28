//! The record kept for one managed top-level window.

use vstd::prelude::*;

verus! {

/// One managed top-level window.
///
/// `handle` is the opaque display-server identifier of the window, stable
/// for the window's lifetime. Geometry is in virtual-screen pixels and
/// describes the window proper; the decoration border lies outside it.
/// A `floating` client is excluded from the tiling computation and keeps
/// whatever geometry the user gave it; a `fullscreen` client is forced to
/// exactly its monitor's bounds. `tag` is the single virtual desktop the
/// client belongs to, assigned by the owning monitor.
#[derive(Clone, Copy, PartialEq, Eq, Structural, Debug)]
pub struct Client {
    pub handle: u32,
    pub x: i32,
    pub y: i32,
    pub width: i32,
    pub height: i32,
    pub fullscreen: bool,
    pub floating: bool,
    pub tag: usize,
}

impl Client {
    /// A freshly mapped window, not yet assigned to a tag (the owning
    /// monitor sets `tag` when it accepts the client).
    pub fn new(
        handle: u32,
        x: i32,
        y: i32,
        width: i32,
        height: i32,
        fullscreen: bool,
        floating: bool,
    ) -> (c: Client)
        ensures
            c == (Client { handle, x, y, width, height, fullscreen, floating, tag: 0 }),
    {
        Client { handle, x, y, width, height, fullscreen, floating, tag: 0 }
    }

    /// True when the tiler may place this client: it is neither floating
    /// nor fullscreen.
    pub open spec fn spec_tiled(&self) -> bool {
        !self.floating && !self.fullscreen
    }

    /// Executable counterpart of [`Self::spec_tiled`].
    #[verifier::when_used_as_spec(spec_tiled)]
    pub fn tiled(&self) -> (r: bool)
        ensures
            r == self.spec_tiled(),
    {
        !self.floating && !self.fullscreen
    }
}

} // verus!
