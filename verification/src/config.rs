//! Fixed parameters of the layout engine and the event dispatcher.

use vstd::prelude::*;

verus! {

/// Number of virtual desktops. Tags are the integers `0 .. TAG_COUNT`.
pub const TAG_COUNT: usize = 9;

/// Width of the decoration border around every managed window, in pixels.
/// Tiled geometries are shrunk by twice this amount so neighbouring borders
/// do not overlap.
pub const BORDER_WIDTH: i32 = 2;

/// The master/stack split fraction is kept in thousandths of the monitor
/// width, clamped to `[MAIN_FACTOR_MIN, MAIN_FACTOR_MAX]`.
pub const MAIN_FACTOR_UNIT: i32 = 1000;

/// Lower clamp of the main factor (one tenth of the monitor width).
pub const MAIN_FACTOR_MIN: i32 = 100;

/// Upper clamp of the main factor (nine tenths of the monitor width).
pub const MAIN_FACTOR_MAX: i32 = 900;

/// Initial master/stack split: half of the monitor width.
pub const MAIN_FACTOR_DEFAULT: i32 = 500;

/// Minimum number of milliseconds between two applied drag/resize motion
/// deltas (one frame at roughly sixty frames per second).
pub const MOTION_INTERVAL_MS: u32 = 16;

/// Smallest legal monitor coordinate (display-server protocol limit).
pub const COORD_MIN: i32 = -32768;

/// Largest legal monitor coordinate (display-server protocol limit).
pub const COORD_MAX: i32 = 32767;

/// Largest legal monitor extent (display-server protocol limit).
pub const EXTENT_MAX: i32 = 65535;

} // verus!
