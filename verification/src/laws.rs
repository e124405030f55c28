//! The global guarantees of the layout engine, each proved once and for
//! all states the operations can reach.

use vstd::prelude::*;
use crate::client::Client;
use crate::config::{BORDER_WIDTH, MAIN_FACTOR_MAX, MAIN_FACTOR_MIN, MAIN_FACTOR_UNIT, TAG_COUNT};
use crate::layout::{
    frame_contains, geometry_valid, lemma_frame_in_range, lemma_frames_cover,
    lemma_frames_disjoint, point_in, tile_frame, Frame, Geometry,
};
use crate::monitor::{
    arrange_seq, arranged_client, clamp_main_factor, lemma_arrange_seq_wf_preserved,
    lemma_move_front_shape, lemma_rank_lt_count, lemma_tiled_count_bounds,
    lemma_tiled_count_monotone, lemma_tiled_count_step, move_front, rank_at, seq_has_handle,
    tiled_count, view_transition, Monitor,
};

verus! {

/// The main factor is clamped: one adjustment never leaves the legal
/// range; an adjustment as large as the whole range lands exactly on the
/// boundary; and pushing further in the same direction stays on the
/// boundary, so repeated application of any one delta converges there and
/// never exceeds it.
pub proof fn lemma_main_factor_clamped(mf: int, d: int)
    requires
        MAIN_FACTOR_MIN as int <= mf <= MAIN_FACTOR_MAX as int,
    ensures
        MAIN_FACTOR_MIN as int <= clamp_main_factor(mf + d) <= MAIN_FACTOR_MAX as int,
        d >= MAIN_FACTOR_MAX as int - MAIN_FACTOR_MIN as int ==> clamp_main_factor(mf + d)
            == MAIN_FACTOR_MAX as int,
        d <= MAIN_FACTOR_MIN as int - MAIN_FACTOR_MAX as int ==> clamp_main_factor(mf + d)
            == MAIN_FACTOR_MIN as int,
        d >= 0 ==> clamp_main_factor(mf + d) >= mf,
        d <= 0 ==> clamp_main_factor(mf + d) <= mf,
        clamp_main_factor(MAIN_FACTOR_MAX as int + d) == MAIN_FACTOR_MAX as int || d < 0,
        clamp_main_factor(MAIN_FACTOR_MIN as int + d) == MAIN_FACTOR_MIN as int || d > 0,
{
}

/// Viewing the same tag twice in a row reports a change the first time
/// exactly when the tag was not already selected, and never the second
/// time; viewing a different tag always reports a change.
pub proof fn lemma_view_twice(
    m0: Monitor,
    m1: Monitor,
    m2: Monitor,
    tag: usize,
    c1: bool,
    c2: bool,
)
    requires
        view_transition(m0, m1, tag, c1),
        view_transition(m1, m2, tag, c2),
    ensures
        c1 == (tag as int != m0.spec_selected()),
        !c2,
        tag as int != m0.spec_selected() ==> c1,
{
}

/// Two client lists whose mode flags agree position for position have the
/// same tiled count.
pub proof fn lemma_tiled_count_flags(a: Seq<Client>, b: Seq<Client>)
    requires
        a.len() == b.len(),
        forall|m: int|
            0 <= m < a.len() ==> (#[trigger] a[m]).floating == b[m].floating && a[m].fullscreen
                == b[m].fullscreen,
    ensures
        tiled_count(a) == tiled_count(b),
    decreases a.len(),
{
    if a.len() > 0 {
        lemma_tiled_count_flags(a.drop_last(), b.drop_last());
        assert(a.last().floating == b.last().floating);
        assert(a.last().fullscreen == b.last().fullscreen);
    }
}

/// Ranks agree as well when the flags agree.
pub proof fn lemma_rank_flags(a: Seq<Client>, b: Seq<Client>, m: int)
    requires
        a.len() == b.len(),
        forall|i: int|
            0 <= i < a.len() ==> (#[trigger] a[i]).floating == b[i].floating && a[i].fullscreen
                == b[i].fullscreen,
        0 <= m <= a.len(),
    ensures
        rank_at(a, m) == rank_at(b, m),
{
    lemma_tiled_count_flags(a.take(m), b.take(m));
}

/// Re-tiling is idempotent: arranging an already arranged tag changes
/// nothing, because the arrangement depends only on the order and flags,
/// which arranging preserves.
pub proof fn lemma_arrange_idempotent(s: Seq<Client>, g: Geometry, mf: i32)
    ensures
        arrange_seq(arrange_seq(s, g, mf), g, mf) == arrange_seq(s, g, mf),
{
    let s1 = arrange_seq(s, g, mf);
    let s2 = arrange_seq(s1, g, mf);
    lemma_arrange_seq_wf_preserved(s, g, mf, 0);
    lemma_arrange_seq_wf_preserved(s1, g, mf, 0);
    lemma_tiled_count_flags(s1, s);
    assert forall|m: int| 0 <= m < s.len() implies s2[m] == s1[m] by {
        lemma_rank_flags(s1, s, m);
        assert(s1[m] == arranged_client(s[m], g, mf, rank_at(s, m), tiled_count(s)));
        assert(s2[m] == arranged_client(s1[m], g, mf, rank_at(s1, m), tiled_count(s1)));
    }
    assert(s2 =~= s1);
}

/// Promotion to master: the promoted client stands first; on a tag where
/// it already was master (in particular on a single-client tag) the order
/// and hence the whole arranged layout are untouched; otherwise the prior
/// master becomes the first client of the stack.
pub proof fn lemma_swap_master(s: Seq<Client>, g: Geometry, mf: i32, k: int)
    requires
        0 <= k < s.len(),
    ensures
        move_front(s, k).len() == s.len(),
        move_front(s, k)[0] == s[k],
        k == 0 ==> move_front(s, k) == s,
        k == 0 ==> arrange_seq(move_front(s, k), g, mf) == arrange_seq(s, g, mf),
        k > 0 ==> move_front(s, k)[1] == s[0],
{
    lemma_move_front_shape(s, k);
    if k == 0 {
        assert(move_front(s, 0) =~= s);
    }
}

/// Toggling the floating flag twice on a client that was not floating
/// returns the arranged tag to exactly its former layout: the client
/// re-enters the tiling at its old slot, and every other client's
/// geometry is restored.
pub proof fn lemma_toggle_floating_twice(s: Seq<Client>, g: Geometry, mf: i32, k: int)
    requires
        0 <= k < s.len(),
        !s[k].floating,
    ensures
        ({
            let s0 = arrange_seq(s, g, mf);
            let c1 = Client { floating: !s0[k].floating, ..s0[k] };
            let s1 = arrange_seq(s0.update(k, c1), g, mf);
            let c2 = Client { floating: !s1[k].floating, ..s1[k] };
            let s2 = arrange_seq(s1.update(k, c2), g, mf);
            s2 == s0
        }),
{
    let s0 = arrange_seq(s, g, mf);
    let c1 = Client { floating: !s0[k].floating, ..s0[k] };
    let b1 = s0.update(k, c1);
    let s1 = arrange_seq(b1, g, mf);
    let c2 = Client { floating: !s1[k].floating, ..s1[k] };
    let b2 = s1.update(k, c2);
    let s2 = arrange_seq(b2, g, mf);
    lemma_arrange_seq_wf_preserved(s, g, mf, 0);
    lemma_arrange_seq_wf_preserved(b1, g, mf, 0);
    lemma_arrange_seq_wf_preserved(b2, g, mf, 0);
    // The toggled client floats through the middle state untouched, so
    // the second flip restores its record exactly.
    assert(s1[k] == b1[k]);
    assert(c2 == s0[k]);
    // Flags of the final base agree with those of the starting list.
    assert forall|m: int|
        0 <= m < s.len() implies (#[trigger] b2[m]).floating == s[m].floating && b2[m].fullscreen
        == s[m].fullscreen by {
        if m != k {
            assert(b1[m] == s0[m]);
        }
    }
    lemma_tiled_count_flags(b2, s);
    assert forall|m: int| 0 <= m < s.len() implies s2[m] == s0[m] by {
        lemma_rank_flags(b2, s, m);
        assert(s0[m] == arranged_client(s[m], g, mf, rank_at(s, m), tiled_count(s)));
        assert(s2[m] == arranged_client(b2[m], g, mf, rank_at(b2, m), tiled_count(b2)));
        if m != k {
            assert(b1[m] == s0[m]);
            if s[m].floating {
                assert(s1[m] == b1[m]);
                assert(b2[m] == s1[m]);
            } else if s[m].fullscreen {
                assert(b2[m] == s1[m]);
            } else {
                assert(b2[m] == s1[m]);
            }
        }
    }
    assert(s2 =~= s0);
}

/// Nothing is lost when two client lists are joined and re-tiled: a
/// window handle is present afterwards exactly when one of the lists held
/// it before.
pub proof fn lemma_concat_keeps_handles(
    a: Seq<Client>,
    b: Seq<Client>,
    g: Geometry,
    mf: i32,
    w: u32,
)
    ensures
        seq_has_handle(arrange_seq(a + b, g, mf), w) == (seq_has_handle(a, w) || seq_has_handle(
            b,
            w,
        )),
{
    let c = a + b;
    let s = arrange_seq(c, g, mf);
    lemma_arrange_seq_wf_preserved(c, g, mf, 0);
    if seq_has_handle(s, w) {
        let m = choose|m: int| 0 <= m < s.len() && s[m].handle == w;
        assert(c[m].handle == w);
        if m < a.len() {
            assert(a[m].handle == w);
        } else {
            assert(b[m - a.len()].handle == w);
        }
    }
    if seq_has_handle(a, w) {
        let m = choose|m: int| 0 <= m < a.len() && a[m].handle == w;
        assert(c[m].handle == w);
        assert(s[m].handle == w);
    }
    if seq_has_handle(b, w) {
        let m = choose|m: int| 0 <= m < b.len() && b[m].handle == w;
        assert(c[a.len() + m].handle == w);
        assert(s[a.len() + m].handle == w);
    }
}

/// The screen area a client occupies: its window plus the border drawn
/// around it.
pub open spec fn client_frame(c: Client) -> Frame {
    Frame {
        x: c.x as int,
        y: c.y as int,
        w: c.width as int + 2 * BORDER_WIDTH as int,
        h: c.height as int + 2 * BORDER_WIDTH as int,
    }
}

/// An arranged tiled client occupies exactly the frame of its rank.
proof fn lemma_arranged_frame(s: Seq<Client>, g: Geometry, mf: i32, k: int)
    requires
        geometry_valid(g),
        MAIN_FACTOR_MIN as int <= mf as int <= MAIN_FACTOR_MAX as int,
        0 <= k < s.len(),
        s[k].spec_tiled(),
    ensures
        client_frame(arrange_seq(s, g, mf)[k]) == tile_frame(
            g.x as int,
            g.y as int,
            g.width as int,
            g.height as int,
            mf as int,
            rank_at(s, k),
            tiled_count(s),
        ),
{
    lemma_rank_lt_count(s, k);
    lemma_frame_in_range(g, mf as int, rank_at(s, k), tiled_count(s));
}

/// Distinct tiled positions hold distinct ranks.
proof fn lemma_rank_strict(s: Seq<Client>, a: int, b: int)
    requires
        0 <= a < b < s.len(),
        s[a].spec_tiled(),
    ensures
        rank_at(s, a) < rank_at(s, b),
{
    lemma_tiled_count_step(s, a);
    lemma_tiled_count_monotone(s, a + 1, b);
}

/// Every rank below the tiled total is held by some tiled position.
proof fn lemma_rank_surjective(s: Seq<Client>, r: int)
    requires
        0 <= r < tiled_count(s),
    ensures
        exists|k: int|
            0 <= k < s.len() && (#[trigger] s[k]).spec_tiled() && rank_at(s, k) == r,
    decreases s.len(),
{
    lemma_tiled_count_bounds(s);
    let head = s.drop_last();
    if s.last().spec_tiled() && tiled_count(head) == r {
        let k = s.len() - 1;
        assert(s.take(k as int) =~= head);
        assert(s[k as int].spec_tiled() && rank_at(s, k as int) == r);
    } else {
        lemma_tiled_count_bounds(head);
        lemma_rank_surjective(head, r);
        let k = choose|k: int|
            0 <= k < head.len() && (#[trigger] head[k]).spec_tiled() && rank_at(head, k) == r;
        assert(s.take(k) =~= head.take(k));
        assert(s[k].spec_tiled() && rank_at(s, k) == r);
    }
}

/// However many clients are mapped into one tag, its tiled clients'
/// frames (window plus border) never overlap after arrangement: no point
/// of the screen lies in two of them.
pub proof fn lemma_tiled_frames_never_overlap(
    s: Seq<Client>,
    g: Geometry,
    mf: i32,
    a: int,
    b: int,
    px: int,
    py: int,
)
    requires
        geometry_valid(g),
        MAIN_FACTOR_MIN as int <= mf as int <= MAIN_FACTOR_MAX as int,
        0 <= a < b < s.len(),
        s[a].spec_tiled(),
        s[b].spec_tiled(),
    ensures
        !(frame_contains(client_frame(arrange_seq(s, g, mf)[a]), px, py) && frame_contains(
            client_frame(arrange_seq(s, g, mf)[b]),
            px,
            py,
        )),
{
    lemma_arranged_frame(s, g, mf, a);
    lemma_arranged_frame(s, g, mf, b);
    lemma_rank_strict(s, a, b);
    lemma_rank_lt_count(s, b);
    lemma_tiled_count_bounds(s.take(a));
    lemma_frames_disjoint(
        g.x as int,
        g.y as int,
        g.width as int,
        g.height as int,
        mf as int,
        tiled_count(s),
        rank_at(s, a),
        rank_at(s, b),
    );
}

/// Together the arranged tiled frames of a tag cover the monitor's whole
/// area: every point of the monitor lies in some tiled client's frame,
/// whenever the tag has a tiled client at all.
pub proof fn lemma_tiled_frames_cover(s: Seq<Client>, g: Geometry, mf: i32, px: int, py: int)
    requires
        geometry_valid(g),
        MAIN_FACTOR_MIN as int <= mf as int <= MAIN_FACTOR_MAX as int,
        tiled_count(s) >= 1,
        point_in(g, px, py),
    ensures
        exists|k: int|
            0 <= k < s.len() && (#[trigger] s[k]).spec_tiled() && frame_contains(
                client_frame(arrange_seq(s, g, mf)[k]),
                px,
                py,
            ),
{
    lemma_frames_cover(
        g.x as int,
        g.y as int,
        g.width as int,
        g.height as int,
        mf as int,
        tiled_count(s),
        px,
        py,
    );
    let r = choose|r: int|
        0 <= r < tiled_count(s) && #[trigger] frame_contains(
            tile_frame(
                g.x as int,
                g.y as int,
                g.width as int,
                g.height as int,
                mf as int,
                r,
                tiled_count(s),
            ),
            px,
            py,
        );
    lemma_rank_surjective(s, r);
    let k = choose|k: int|
        0 <= k < s.len() && (#[trigger] s[k]).spec_tiled() && rank_at(s, k) == r;
    lemma_arranged_frame(s, g, mf, k);
    assert(s[k].spec_tiled() && frame_contains(client_frame(arrange_seq(s, g, mf)[k]), px, py));
}

} // verus!
