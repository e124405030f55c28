//! The master/stack tiling geometry.
//!
//! Clients of one tag that are neither floating nor fullscreen are placed by
//! rank: rank `0` (the master) fills a left column whose width is the
//! monitor width scaled by the main factor (the full width when it is
//! alone); the remaining clients split the right column's height evenly,
//! the last one absorbing the rounding remainder. Each client's window is
//! its frame shrunk by twice the border width. The frames of one tag are
//! pairwise disjoint and together cover the monitor exactly
//! ([`lemma_frames_disjoint`], [`lemma_frames_cover`]).

use vstd::prelude::*;
use vstd::arithmetic::div_mod::{
    lemma_div_is_ordered, lemma_div_multiples_vanish, lemma_div_pos_is_pos,
    lemma_fundamental_div_mod, lemma_mod_bound,
};
use vstd::arithmetic::mul::{lemma_mul_inequality, lemma_mul_nonnegative};
use crate::config::{
    BORDER_WIDTH, COORD_MAX, COORD_MIN, EXTENT_MAX, MAIN_FACTOR_MAX, MAIN_FACTOR_MIN,
    MAIN_FACTOR_UNIT,
};

verus! {

/// A rectangle of the virtual screen: position of the top-left corner and
/// extent in pixels.
#[derive(Clone, Copy, PartialEq, Eq, Structural, Debug)]
pub struct Geometry {
    pub x: i32,
    pub y: i32,
    pub width: i32,
    pub height: i32,
}

/// A monitor's rectangle as the display-server protocol can express it.
pub open spec fn geometry_valid(g: Geometry) -> bool {
    &&& COORD_MIN as int <= g.x as int <= COORD_MAX as int
    &&& COORD_MIN as int <= g.y as int <= COORD_MAX as int
    &&& 0 <= g.width as int <= EXTENT_MAX as int
    &&& 0 <= g.height as int <= EXTENT_MAX as int
}

/// Whether the point `(px, py)` lies inside the rectangle `g` (half-open
/// on both axes).
pub open spec fn point_in(g: Geometry, px: int, py: int) -> bool {
    &&& g.x as int <= px < g.x as int + g.width as int
    &&& g.y as int <= py < g.y as int + g.height as int
}

/// A rectangle with unbounded coordinates, for specification use only.
/// When `w` or `h` is not positive the rectangle contains no point.
pub ghost struct Frame {
    pub x: int,
    pub y: int,
    pub w: int,
    pub h: int,
}

/// Whether the point `(px, py)` lies inside `f` (half-open on both axes).
pub open spec fn frame_contains(f: Frame, px: int, py: int) -> bool {
    &&& f.x <= px < f.x + f.w
    &&& f.y <= py < f.y + f.h
}

/// Width of the master column when `n` clients are tiled: the whole
/// monitor if the master is alone, else the monitor width scaled by the
/// main factor (in thousandths).
pub open spec fn master_width(mw: int, mf: int, n: int) -> int {
    if n == 1 {
        mw
    } else {
        mw * mf / (MAIN_FACTOR_UNIT as int)
    }
}

/// Height of one stack row before remainder absorption.
pub open spec fn stack_row_height(mh: int, n: int) -> int
    recommends
        2 <= n,
{
    mh / (n - 1)
}

/// The frame (window plus border) of the tiled client with rank `i` out of
/// `n` on a monitor `(mx, my, mw, mh)` with main factor `mf`.
pub open spec fn tile_frame(mx: int, my: int, mw: int, mh: int, mf: int, i: int, n: int) -> Frame
    recommends
        0 <= i < n,
{
    if i == 0 {
        Frame { x: mx, y: my, w: master_width(mw, mf, n), h: mh }
    } else {
        let mwid = master_width(mw, mf, n);
        let rh = stack_row_height(mh, n);
        Frame {
            x: mx + mwid,
            y: my + (i - 1) * rh,
            w: mw - mwid,
            h: if i == n - 1 { mh - (n - 2) * rh } else { rh },
        }
    }
}

/// The master column never leaves the monitor.
pub proof fn lemma_master_width_bounds(mw: int, mf: int, n: int)
    requires
        0 <= mw,
        0 <= mf <= MAIN_FACTOR_UNIT as int,
        1 <= n,
    ensures
        0 <= master_width(mw, mf, n) <= mw,
{
    if n != 1 {
        lemma_mul_nonnegative(mw, mf);
        lemma_div_pos_is_pos(mw * mf, MAIN_FACTOR_UNIT as int);
        lemma_mul_inequality(mf, MAIN_FACTOR_UNIT as int, mw);
        lemma_div_is_ordered(mw * mf, mw * (MAIN_FACTOR_UNIT as int), MAIN_FACTOR_UNIT as int);
        lemma_div_multiples_vanish(mw, MAIN_FACTOR_UNIT as int);
    }
}

/// The stack rows never leave the monitor.
pub proof fn lemma_row_height_bounds(mh: int, n: int)
    requires
        0 <= mh,
        2 <= n,
    ensures
        0 <= stack_row_height(mh, n),
        (n - 1) * stack_row_height(mh, n) <= mh,
{
    lemma_div_pos_is_pos(mh, n - 1);
    lemma_fundamental_div_mod(mh, n - 1);
    lemma_mod_bound(mh, n - 1);
}

/// Two distinct frames of one tag have no point in common, whatever the
/// monitor size: the master column ends where the stack column begins, and
/// the stack rows are stacked without overlap.
pub proof fn lemma_frames_disjoint(
    mx: int,
    my: int,
    mw: int,
    mh: int,
    mf: int,
    n: int,
    i: int,
    j: int,
)
    requires
        0 <= mw,
        0 <= mh,
        0 <= mf <= MAIN_FACTOR_UNIT as int,
        0 <= i < j < n,
    ensures
        forall|px: int, py: int|
            !(frame_contains(tile_frame(mx, my, mw, mh, mf, i, n), px, py)
                && frame_contains(tile_frame(mx, my, mw, mh, mf, j, n), px, py)),
{
    let fi = tile_frame(mx, my, mw, mh, mf, i, n);
    let fj = tile_frame(mx, my, mw, mh, mf, j, n);
    let rh = stack_row_height(mh, n);
    if i == 0 {
        // `fi` ends at `mx + master_width`, exactly where `fj` begins.
        assert(fi.x + fi.w == fj.x);
    } else {
        // Both frames lie in the stack column; `fi` ends at row `i`,
        // `fj` begins at row `j - 1 >= i`.
        lemma_div_pos_is_pos(mh, n - 1);
        lemma_mul_inequality(i, j - 1, rh);
        assert((i - 1) * rh + rh == i * rh) by (nonlinear_arith);
        assert(fi.y + fi.h <= fj.y);
    }
}

/// Every point of the monitor lies in some frame: the frames of one tag
/// cover the monitor area completely.
pub proof fn lemma_frames_cover(
    mx: int,
    my: int,
    mw: int,
    mh: int,
    mf: int,
    n: int,
    px: int,
    py: int,
)
    requires
        0 <= mw,
        0 <= mh,
        0 <= mf <= MAIN_FACTOR_UNIT as int,
        1 <= n,
        mx <= px < mx + mw,
        my <= py < my + mh,
    ensures
        exists|i: int|
            0 <= i < n && #[trigger] frame_contains(
                tile_frame(mx, my, mw, mh, mf, i, n),
                px,
                py,
            ),
{
    lemma_master_width_bounds(mw, mf, n);
    let mwid = master_width(mw, mf, n);
    if n == 1 {
        assert(frame_contains(tile_frame(mx, my, mw, mh, mf, 0, n), px, py));
    } else if px < mx + mwid {
        assert(frame_contains(tile_frame(mx, my, mw, mh, mf, 0, n), px, py));
    } else {
        let rh = stack_row_height(mh, n);
        lemma_row_height_bounds(mh, n);
        if rh == 0 {
            // Degenerate rows: the last frame alone spans the full height.
            assert((n - 2) * rh == 0) by (nonlinear_arith)
                requires rh == 0;
            assert(frame_contains(tile_frame(mx, my, mw, mh, mf, n - 1, n), px, py));
        } else {
            let q = (py - my) / rh;
            lemma_fundamental_div_mod(py - my, rh);
            lemma_mod_bound(py - my, rh);
            lemma_div_pos_is_pos(py - my, rh);
            if q <= n - 3 {
                assert(rh * q + rh == (q + 1) * rh) by (nonlinear_arith);
                assert(rh * q == q * rh) by (nonlinear_arith);
                assert(frame_contains(tile_frame(mx, my, mw, mh, mf, q + 1, n), px, py));
            } else {
                // `py` lies at or below row `n - 2`: the last frame holds it.
                lemma_mul_inequality(n - 2, q, rh);
                assert(rh * q == q * rh) by (nonlinear_arith);
                assert(frame_contains(tile_frame(mx, my, mw, mh, mf, n - 1, n), px, py));
            }
        }
    }
}

/// The frame of a tiled client, and the window geometry cut from it, stay
/// within machine coordinates.
pub proof fn lemma_frame_in_range(g: Geometry, mf: int, i: int, n: int)
    requires
        geometry_valid(g),
        MAIN_FACTOR_MIN as int <= mf <= MAIN_FACTOR_MAX as int,
        0 <= i < n,
    ensures
        ({
            let f = tile_frame(g.x as int, g.y as int, g.width as int, g.height as int, mf, i, n);
            &&& i32::MIN as int <= f.x <= i32::MAX as int
            &&& i32::MIN as int <= f.y <= i32::MAX as int
            &&& 0 <= f.w <= EXTENT_MAX as int
            &&& 0 <= f.h <= EXTENT_MAX as int
        }),
{
    let mx = g.x as int;
    let my = g.y as int;
    let mw = g.width as int;
    let mh = g.height as int;
    lemma_master_width_bounds(mw, mf, n);
    if i > 0 {
        let rh = stack_row_height(mh, n);
        lemma_row_height_bounds(mh, n);
        lemma_mul_nonnegative(i - 1, rh);
        lemma_mul_inequality(i - 1, n - 1, rh);
        lemma_mul_nonnegative(n - 2, rh);
        lemma_mul_inequality(n - 2, n - 1, rh);
    }
}

/// Compute the window geometry of the tiled client with rank `i` out of
/// `n`: its frame with twice the border width removed from each extent.
/// Returns `(x, y, width, height)`.
pub fn tile_geometry(g: &Geometry, mf: i32, i: usize, n: usize) -> (r: (i32, i32, i32, i32))
    requires
        geometry_valid(*g),
        MAIN_FACTOR_MIN as int <= mf as int <= MAIN_FACTOR_MAX as int,
        i < n,
    ensures
        ({
            let f = tile_frame(
                g.x as int,
                g.y as int,
                g.width as int,
                g.height as int,
                mf as int,
                i as int,
                n as int,
            );
            &&& r.0 as int == f.x
            &&& r.1 as int == f.y
            &&& r.2 as int == f.w - 2 * BORDER_WIDTH as int
            &&& r.3 as int == f.h - 2 * BORDER_WIDTH as int
        }),
{
    proof {
        lemma_frame_in_range(*g, mf as int, i as int, n as int);
        lemma_master_width_bounds(g.width as int, mf as int, n as int);
    }
    let mwid: i32 = if n == 1 {
        g.width
    } else {
        ((g.width as u32) * (mf as u32) / (MAIN_FACTOR_UNIT as u32)) as i32
    };
    if i == 0 {
        (g.x, g.y, mwid - 2 * BORDER_WIDTH, g.height - 2 * BORDER_WIDTH)
    } else {
        let rh: usize = (g.height as usize) / (n - 1);
        proof {
            lemma_row_height_bounds(g.height as int, n as int);
            lemma_mul_nonnegative(i as int - 1, rh as int);
            lemma_mul_inequality(i as int - 1, n as int - 1, rh as int);
            lemma_mul_nonnegative(n as int - 2, rh as int);
            lemma_mul_inequality(n as int - 2, n as int - 1, rh as int);
        }
        let y: i32 = g.y + (((i - 1) * rh) as i32);
        let h: i32 = if i == n - 1 {
            g.height - (((n - 2) * rh) as i32)
        } else {
            rh as i32
        };
        (g.x + mwid, y, g.width - mwid - 2 * BORDER_WIDTH, h - 2 * BORDER_WIDTH)
    }
}

} // verus!
