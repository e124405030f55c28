//! Core of a tiling window manager: the per-monitor master/stack layout
//! engine, the tag (virtual desktop) workspace model, the client lifecycle,
//! and the input-driven interaction state machine that drives them.
//!
//! Everything here is plain data and decisions. Display-server handles are
//! carried as opaque integers; the surrounding process performs the actual
//! protocol traffic and feeds events back in as plain values.

use vstd::prelude::*;

pub mod bar;
pub mod buttons;
pub mod client;
pub mod config;
pub mod ffi;
pub mod keys;
pub mod laws;
pub mod layout;
pub mod monitor;
pub mod rwm;

verus! {

/// Clamp an unbounded coordinate onto the `i32` range.
pub open spec fn clamp_i32(v: int) -> int {
    if v < i32::MIN as int {
        i32::MIN as int
    } else if v > i32::MAX as int {
        i32::MAX as int
    } else {
        v
    }
}

/// Addition of screen coordinates that cannot leave the `i32` range,
/// used wherever an event-supplied delta is applied to a geometry field.
pub fn add_clamped(a: i32, b: i32) -> (r: i32)
    ensures
        r as int == clamp_i32(a as int + b as int),
{
    let wide: i64 = a as i64 + b as i64;
    if wide < i32::MIN as i64 {
        i32::MIN
    } else if wide > i32::MAX as i64 {
        i32::MAX
    } else {
        wide as i32
    }
}

/// Subtraction of screen coordinates that cannot leave the `i32` range.
pub fn sub_clamped(a: i32, b: i32) -> (r: i32)
    ensures
        r as int == clamp_i32(a as int - b as int),
{
    let wide: i64 = a as i64 - b as i64;
    if wide < i32::MIN as i64 {
        i32::MIN
    } else if wide > i32::MAX as i64 {
        i32::MAX
    } else {
        wide as i32
    }
}

} // verus!
