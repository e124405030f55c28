//! One physical output and its workspace state: the clients of each tag in
//! their stacking order, the currently selected tag, and the master/stack
//! split factor. All layout decisions for the monitor happen here.

use vstd::prelude::*;
use crate::client::Client;
use crate::config::{
    BORDER_WIDTH, MAIN_FACTOR_DEFAULT, MAIN_FACTOR_MAX, MAIN_FACTOR_MIN, TAG_COUNT,
};
use crate::layout::{
    geometry_valid, lemma_frame_in_range, tile_frame, tile_geometry, Geometry,
};

verus! {

/// How many clients of `s` take part in tiling (neither floating nor
/// fullscreen).
pub open spec fn tiled_count(s: Seq<Client>) -> int
    decreases s.len(),
{
    if s.len() == 0 {
        0
    } else {
        tiled_count(s.drop_last()) + if s.last().spec_tiled() {
            1int
        } else {
            0int
        }
    }
}

/// The tiling rank of position `k` in `s`: how many tiled clients stand
/// before it.
pub open spec fn rank_at(s: Seq<Client>, k: int) -> int {
    tiled_count(s.take(k))
}

/// Whether some client of `s` carries the window handle `w`.
pub open spec fn seq_has_handle(s: Seq<Client>, w: u32) -> bool {
    exists|k: int| 0 <= k < s.len() && s[k].handle == w
}

/// The position of the client of `s` carrying `w` (meaningful only when
/// `seq_has_handle(s, w)` holds and handles in `s` are unique).
pub open spec fn handle_index(s: Seq<Client>, w: u32) -> int {
    choose|k: int| 0 <= k < s.len() && s[k].handle == w
}

/// What the tiler makes of one client: floating clients keep their
/// geometry, fullscreen clients are forced to exactly the monitor bounds,
/// and tiled clients receive the frame of their rank `r` out of `n`,
/// shrunk by twice the border width.
pub open spec fn arranged_client(c: Client, g: Geometry, mf: i32, r: int, n: int) -> Client {
    if c.floating {
        c
    } else if c.fullscreen {
        Client { x: g.x, y: g.y, width: g.width, height: g.height, ..c }
    } else {
        let f = tile_frame(g.x as int, g.y as int, g.width as int, g.height as int, mf as int, r, n);
        Client {
            x: f.x as i32,
            y: f.y as i32,
            width: (f.w - 2 * BORDER_WIDTH as int) as i32,
            height: (f.h - 2 * BORDER_WIDTH as int) as i32,
            ..c
        }
    }
}

/// A whole tag after re-tiling: every client replaced by its arranged
/// form, ranks and the tiled total taken from the order of `s`.
pub open spec fn arrange_seq(s: Seq<Client>, g: Geometry, mf: i32) -> Seq<Client> {
    Seq::new(s.len(), |k: int| arranged_client(s[k], g, mf, rank_at(s, k), tiled_count(s)))
}

/// The tiled count never leaves `[0, len]`.
pub proof fn lemma_tiled_count_bounds(s: Seq<Client>)
    ensures
        0 <= tiled_count(s) <= s.len(),
    decreases s.len(),
{
    if s.len() > 0 {
        lemma_tiled_count_bounds(s.drop_last());
    }
}

/// Extending a prefix by one position raises the tiled count by one
/// exactly when that position is tiled.
pub proof fn lemma_tiled_count_step(s: Seq<Client>, k: int)
    requires
        0 <= k < s.len(),
    ensures
        tiled_count(s.take(k + 1)) == tiled_count(s.take(k)) + if s[k].spec_tiled() {
            1int
        } else {
            0int
        },
{
    assert(s.take(k + 1).drop_last() =~= s.take(k));
    assert(s.take(k + 1).last() == s[k]);
}

/// The tiled count grows with the prefix.
pub proof fn lemma_tiled_count_monotone(s: Seq<Client>, a: int, b: int)
    requires
        0 <= a <= b <= s.len(),
    ensures
        tiled_count(s.take(a)) <= tiled_count(s.take(b)),
    decreases b - a,
{
    if a < b {
        lemma_tiled_count_monotone(s, a, b - 1);
        lemma_tiled_count_step(s, b - 1);
    }
}

/// A tiled client's rank lies strictly below the tiled total.
pub proof fn lemma_rank_lt_count(s: Seq<Client>, k: int)
    requires
        0 <= k < s.len(),
        s[k].spec_tiled(),
    ensures
        0 <= rank_at(s, k) < tiled_count(s),
{
    lemma_tiled_count_bounds(s.take(k));
    lemma_tiled_count_step(s, k);
    lemma_tiled_count_monotone(s, k + 1, s.len() as int);
    assert(s.take(s.len() as int) =~= s);
}

/// Re-tile one tag in place.
fn arrange_vec(v: &mut Vec<Client>, g: &Geometry, mf: i32)
    requires
        geometry_valid(*g),
        MAIN_FACTOR_MIN as int <= mf as int <= MAIN_FACTOR_MAX as int,
    ensures
        final(v)@ == arrange_seq(old(v)@, *g, mf),
{
    let ghost s = v@;
    let total = v.len();
    let mut n: usize = 0;
    let mut k: usize = 0;
    while k < total
        invariant
            k <= total,
            total == s.len(),
            v@ == s,
            n as int == tiled_count(s.take(k as int)),
            n <= k,
        decreases total - k,
    {
        proof {
            lemma_tiled_count_step(s, k as int);
        }
        let c = v[k];
        if c.tiled() {
            n = n + 1;
        }
        k = k + 1;
    }
    proof {
        assert(s.take(total as int) =~= s);
    }
    let mut r: usize = 0;
    let mut k: usize = 0;
    while k < total
        invariant
            k <= total,
            total == s.len(),
            v@.len() == s.len(),
            geometry_valid(*g),
            MAIN_FACTOR_MIN as int <= mf as int <= MAIN_FACTOR_MAX as int,
            n as int == tiled_count(s),
            r as int == rank_at(s, k as int),
            0 <= r <= k,
            forall|m: int| 0 <= m < k ==> v@[m] == arrange_seq(s, *g, mf)[m],
            forall|m: int| k <= m < total ==> v@[m] == s[m],
        decreases total - k,
    {
        let c = v[k];
        proof {
            lemma_tiled_count_step(s, k as int);
            lemma_tiled_count_bounds(s.take(k as int));
        }
        if c.floating {
            // Floating clients keep their geometry.
        } else if c.fullscreen {
            let mut nc = c;
            nc.x = g.x;
            nc.y = g.y;
            nc.width = g.width;
            nc.height = g.height;
            v[k] = nc;
        } else {
            proof {
                lemma_rank_lt_count(s, k as int);
                lemma_frame_in_range(*g, mf as int, r as int, n as int);
            }
            let (tx, ty, tw, th) = tile_geometry(g, mf, r, n);
            let mut nc = c;
            nc.x = tx;
            nc.y = ty;
            nc.width = tw;
            nc.height = th;
            v[k] = nc;
            r = r + 1;
        }
        k = k + 1;
    }
    proof {
        assert(v@ =~= arrange_seq(s, *g, mf));
    }
}

/// One physical output region with its independent workspace state.
pub struct Monitor {
    geometry: Geometry,
    clients: Vec<Vec<Client>>,
    selected: usize,
    main_factor: i32,
}

impl Monitor {
    /// The clients of tag `t`, in stacking (tiling) order.
    pub closed spec fn tag_clients(self, t: int) -> Seq<Client> {
        self.clients@[t]@
    }

    /// The monitor's rectangle.
    pub closed spec fn spec_geometry(self) -> Geometry {
        self.geometry
    }

    /// The currently selected (visible) tag.
    pub closed spec fn spec_selected(self) -> int {
        self.selected as int
    }

    /// The master/stack split in thousandths of the monitor width.
    pub closed spec fn spec_main_factor(self) -> i32 {
        self.main_factor
    }

    /// Every client record of every tag carries the tag it is filed under.
    pub closed spec fn tags_consistent(self) -> bool {
        forall|t: int, k: int|
            0 <= t < self.clients@.len() && 0 <= k < self.clients@[t]@.len() ==> (
            #[trigger] self.clients@[t]@[k]).tag == t
    }

    /// No two client records of this monitor share a window handle.
    pub closed spec fn handles_unique(self) -> bool {
        forall|t1: int, k1: int, t2: int, k2: int|
            0 <= t1 < self.clients@.len() && 0 <= k1 < self.clients@[t1]@.len() && 0 <= t2
                < self.clients@.len() && 0 <= k2 < self.clients@[t2]@.len() && (t1 != t2 || k1
                != k2) ==> #[trigger] self.clients@[t1]@[k1].handle != #[trigger] self.clients@[t2]@[k2].handle
    }

    /// Well-formedness: one client list per tag, a legal selected tag, a
    /// clamped main factor, a protocol-legal rectangle, consistent tag
    /// fields and unique handles.
    pub closed spec fn wf(self) -> bool {
        &&& self.clients@.len() == TAG_COUNT as int
        &&& 0 <= self.selected < TAG_COUNT as int
        &&& MAIN_FACTOR_MIN as int <= self.main_factor as int <= MAIN_FACTOR_MAX as int
        &&& geometry_valid(self.geometry)
        &&& self.tags_consistent()
        &&& self.handles_unique()
    }

    /// Whether some tag of this monitor holds the window `w`.
    pub closed spec fn has_client(self, w: u32) -> bool {
        exists|t: int| 0 <= t < self.clients@.len() && seq_has_handle(#[trigger] self.tag_clients(t), w)
    }

    /// The parts of the monitor that no client operation touches.
    pub open spec fn same_frame(self, other: Monitor) -> bool {
        &&& other.spec_geometry() == self.spec_geometry()
        &&& other.spec_selected() == self.spec_selected()
        &&& other.spec_main_factor() == self.spec_main_factor()
    }

    /// All client lists equal: nothing observable changed.
    pub open spec fn same_clients(self, other: Monitor) -> bool {
        forall|t: int|
            0 <= t < TAG_COUNT as int ==> #[trigger] other.tag_clients(t) == self.tag_clients(t)
    }

    /// `other` is `self` with tag `t` replaced by `s2` and everything else
    /// untouched.
    pub open spec fn with_tag_seq(self, other: Monitor, t: int, s2: Seq<Client>) -> bool {
        &&& self.same_frame(other)
        &&& other.tag_clients(t) == s2
        &&& forall|u: int|
            0 <= u < TAG_COUNT as int && u != t ==> #[trigger] other.tag_clients(u)
                == self.tag_clients(u)
    }

    /// The tag holding the window `w` (meaningful only when
    /// `has_client(w)` holds).
    pub open spec fn client_tag(self, w: u32) -> int {
        choose|t: int| 0 <= t < TAG_COUNT as int && seq_has_handle(self.tag_clients(t), w)
    }

    /// A fresh monitor for the output rectangle `(x, y, width, height)`:
    /// no clients yet, tag `0` selected, the split at its default.
    pub fn new(x: i32, y: i32, width: i32, height: i32) -> (m: Monitor)
        requires
            geometry_valid(Geometry { x, y, width, height }),
        ensures
            m.wf(),
            m.spec_geometry() == (Geometry { x, y, width, height }),
            m.spec_selected() == 0,
            m.spec_main_factor() == MAIN_FACTOR_DEFAULT,
            forall|t: int| 0 <= t < TAG_COUNT as int ==> #[trigger] m.tag_clients(t).len() == 0,
    {
        let mut clients: Vec<Vec<Client>> = Vec::new();
        let mut t: usize = 0;
        while t < TAG_COUNT
            invariant
                t <= TAG_COUNT,
                clients@.len() == t as int,
                forall|u: int| 0 <= u < t as int ==> (#[trigger] clients@[u])@.len() == 0,
            decreases TAG_COUNT - t,
        {
            clients.push(Vec::new());
            t = t + 1;
        }
        Monitor {
            geometry: Geometry { x, y, width, height },
            clients,
            selected: 0,
            main_factor: MAIN_FACTOR_DEFAULT,
        }
    }

    /// Left edge of the monitor.
    pub fn x(&self) -> (r: i32)
        ensures
            r == self.spec_geometry().x,
    {
        self.geometry.x
    }

    /// Top edge of the monitor.
    pub fn y(&self) -> (r: i32)
        ensures
            r == self.spec_geometry().y,
    {
        self.geometry.y
    }

    /// Width of the monitor.
    pub fn width(&self) -> (r: i32)
        ensures
            r == self.spec_geometry().width,
    {
        self.geometry.width
    }

    /// Height of the monitor.
    pub fn height(&self) -> (r: i32)
        ensures
            r == self.spec_geometry().height,
    {
        self.geometry.height
    }

    /// The currently selected tag.
    pub fn selected_tag(&self) -> (r: usize)
        ensures
            r as int == self.spec_selected(),
    {
        self.selected
    }

    /// Read access to the clients of one tag, in stacking order.
    pub fn clients_on(&self, tag: usize) -> (r: &Vec<Client>)
        requires
            self.wf(),
            (tag as int) < TAG_COUNT as int,
        ensures
            r@ == self.tag_clients(tag as int),
    {
        &self.clients[tag]
    }

    /// Whether this monitor tracks the window `w` on any tag.
    pub fn has_window(&self, w: u32) -> (r: bool)
        requires
            self.wf(),
        ensures
            r == self.has_client(w),
    {
        let mut t: usize = 0;
        while t < TAG_COUNT
            invariant
                t <= TAG_COUNT,
                self.wf(),
                forall|u: int|
                    0 <= u < t as int ==> !seq_has_handle(#[trigger] self.tag_clients(u), w),
            decreases TAG_COUNT - t,
        {
            match find_handle(&self.clients[t], w) {
                Some(k) => {
                    proof {
                        assert(self.tag_clients(t as int)[k as int].handle == w);
                        assert(seq_has_handle(self.tag_clients(t as int), w));
                    }
                    return true;
                },
                None => {},
            }
            t = t + 1;
        }
        false
    }

    /// Point-in-monitor test for pointer-to-monitor routing.
    pub fn contains(&self, px: i32, py: i32) -> (r: bool)
        requires
            self.wf(),
        ensures
            r == crate::layout::point_in(self.spec_geometry(), px as int, py as int),
    {
        let g = &self.geometry;
        px >= g.x && (px as i64) < g.x as i64 + g.width as i64 && py >= g.y && (py as i64)
            < g.y as i64 + g.height as i64
    }

    /// Change the selected tag. Reports whether the selection actually
    /// changed; a repeated view of the current tag is a no-op. On a real
    /// change the newly visible tag is re-tiled.
    pub fn view(&mut self, tag: usize) -> (changed: bool)
        requires
            old(self).wf(),
            (tag as int) < TAG_COUNT as int,
        ensures
            final(self).wf(),
            view_transition(*old(self), *final(self), tag, changed),
            forall|v: u32| final(self).has_client(v) ==> old(self).has_client(v),
    {
        if tag == self.selected {
            return false;
        }
        self.selected = tag;
        let g = self.geometry;
        let mf = self.main_factor;
        arrange_vec(&mut self.clients[tag], &g, mf);
        proof {
            lemma_arrange_seq_wf_preserved(old(self).tag_clients(tag as int), g, mf, tag as int);
            Monitor::lemma_wf_pointwise(*old(self), *self, tag as int);
        }
        true
    }

    /// Adjust the master/stack split by `delta` thousandths, clamped to
    /// its legal range, and re-tile the selected tag.
    pub fn main_factor(&mut self, delta: i32)
        requires
            old(self).wf(),
        ensures
            final(self).wf(),
            final(self).spec_main_factor() as int == clamp_main_factor(
                old(self).spec_main_factor() as int + delta as int,
            ),
            final(self).spec_geometry() == old(self).spec_geometry(),
            final(self).spec_selected() == old(self).spec_selected(),
            forall|t: int|
                0 <= t < TAG_COUNT as int && t != old(self).spec_selected() ==> #[trigger] final(self).tag_clients(t) == old(self).tag_clients(t),
            final(self).tag_clients(old(self).spec_selected()) == arrange_seq(
                old(self).tag_clients(old(self).spec_selected()),
                old(self).spec_geometry(),
                final(self).spec_main_factor(),
            ),
            forall|v: u32| final(self).has_client(v) ==> old(self).has_client(v),
    {
        let wide: i64 = self.main_factor as i64 + delta as i64;
        let clamped: i32 = if wide < MAIN_FACTOR_MIN as i64 {
            MAIN_FACTOR_MIN
        } else if wide > MAIN_FACTOR_MAX as i64 {
            MAIN_FACTOR_MAX
        } else {
            wide as i32
        };
        self.main_factor = clamped;
        let sel = self.selected;
        let g = self.geometry;
        let mf = self.main_factor;
        arrange_vec(&mut self.clients[sel], &g, mf);
        proof {
            lemma_arrange_seq_wf_preserved(old(self).tag_clients(sel as int), g, mf, sel as int);
            Monitor::lemma_wf_pointwise(*old(self), *self, sel as int);
        }
    }

    /// Update the output rectangle after a topology change and re-tile the
    /// selected tag against the new bounds.
    pub fn update(&mut self, x: i32, y: i32, width: i32, height: i32)
        requires
            old(self).wf(),
            geometry_valid(Geometry { x, y, width, height }),
        ensures
            final(self).wf(),
            final(self).spec_geometry() == (Geometry { x, y, width, height }),
            final(self).spec_selected() == old(self).spec_selected(),
            final(self).spec_main_factor() == old(self).spec_main_factor(),
            forall|t: int|
                0 <= t < TAG_COUNT as int && t != old(self).spec_selected() ==> #[trigger] final(self).tag_clients(t) == old(self).tag_clients(t),
            final(self).tag_clients(old(self).spec_selected()) == arrange_seq(
                old(self).tag_clients(old(self).spec_selected()),
                final(self).spec_geometry(),
                old(self).spec_main_factor(),
            ),
            forall|v: u32| final(self).has_client(v) ==> old(self).has_client(v),
    {
        self.geometry = Geometry { x, y, width, height };
        let sel = self.selected;
        let g = self.geometry;
        let mf = self.main_factor;
        arrange_vec(&mut self.clients[sel], &g, mf);
        proof {
            lemma_arrange_seq_wf_preserved(old(self).tag_clients(sel as int), g, mf, sel as int);
            Monitor::lemma_wf_pointwise(*old(self), *self, sel as int);
        }
    }
}

/// Everything [`Monitor::view`] promises: how the monitor after a
/// `view(tag)` call that reported `changed` relates to the one before.
pub open spec fn view_transition(pre: Monitor, post: Monitor, tag: usize, changed: bool) -> bool {
    &&& changed == (tag as int != pre.spec_selected())
    &&& post.spec_selected() == tag as int
    &&& post.spec_geometry() == pre.spec_geometry()
    &&& post.spec_main_factor() == pre.spec_main_factor()
    &&& forall|t: int|
        0 <= t < TAG_COUNT as int && t != tag as int ==> #[trigger] post.tag_clients(t)
            == pre.tag_clients(t)
    &&& post.tag_clients(tag as int) == if changed {
        arrange_seq(
            pre.tag_clients(tag as int),
            pre.spec_geometry(),
            pre.spec_main_factor(),
        )
    } else {
        pre.tag_clients(tag as int)
    }
}

/// The clamp applied to every main-factor adjustment.
pub open spec fn clamp_main_factor(v: int) -> int {
    if v < MAIN_FACTOR_MIN as int {
        MAIN_FACTOR_MIN as int
    } else if v > MAIN_FACTOR_MAX as int {
        MAIN_FACTOR_MAX as int
    } else {
        v
    }
}

/// Re-tiling changes geometry only: length, handles, flags and tag fields
/// survive, so tag consistency and handle uniqueness survive with them.
pub proof fn lemma_arrange_seq_wf_preserved(s: Seq<Client>, g: Geometry, mf: i32, t: int)
    ensures
        arrange_seq(s, g, mf).len() == s.len(),
        forall|k: int|
            0 <= k < s.len() ==> {
                let c = #[trigger] arrange_seq(s, g, mf)[k];
                &&& c.handle == s[k].handle
                &&& c.tag == s[k].tag
                &&& c.floating == s[k].floating
                &&& c.fullscreen == s[k].fullscreen
            },
{
}

/// Handles within one client list are pairwise distinct.
pub open spec fn seq_handles_unique(s: Seq<Client>) -> bool {
    forall|i: int, j: int| 0 <= i < j < s.len() ==> s[i].handle != s[j].handle
}

/// Clamp `v` into `[lo, hi]` (callers keep `lo <= hi`).
pub open spec fn clamp_range(v: int, lo: int, hi: int) -> int {
    if v < lo {
        lo
    } else if v > hi {
        hi
    } else {
        v
    }
}

/// The client list of one tag with position `k` promoted to the master
/// slot: the moved client first, everyone before it shifted back one
/// place, everyone after it unchanged.
pub open spec fn move_front(s: Seq<Client>, k: int) -> Seq<Client>
    recommends
        0 <= k < s.len(),
{
    s.remove(k).insert(0, s[k])
}

/// Shape of [`move_front`]: a permutation that pins every position.
pub proof fn lemma_move_front_shape(s: Seq<Client>, k: int)
    requires
        0 <= k < s.len(),
    ensures
        move_front(s, k).len() == s.len(),
        move_front(s, k)[0] == s[k],
        forall|m: int| 1 <= m <= k ==> #[trigger] move_front(s, k)[m] == s[m - 1],
        forall|m: int| k < m < s.len() ==> #[trigger] move_front(s, k)[m] == s[m],
{
    let s2 = move_front(s, k);
    assert forall|m: int| 1 <= m <= k implies #[trigger] s2[m] == s[m - 1] by {
        assert(s2[m] == s.remove(k)[m - 1]);
    }
    assert forall|m: int| k < m < s.len() implies #[trigger] s2[m] == s[m] by {
        assert(s2[m] == s.remove(k)[m - 1]);
    }
}

impl Monitor {
    /// Handles of distinct monitors never meet: required before clients
    /// can move between them.
    pub open spec fn disjoint_clients(self, other: Monitor) -> bool {
        forall|t1: int, k1: int, t2: int, k2: int|
            0 <= t1 < TAG_COUNT as int && 0 <= k1 < self.tag_clients(t1).len() && 0 <= t2
                < TAG_COUNT as int && 0 <= k2 < other.tag_clients(t2).len()
                ==> #[trigger] self.tag_clients(t1)[k1].handle
                != #[trigger] other.tag_clients(t2)[k2].handle
    }

    /// Locate the window `w`: its tag and position, if this monitor
    /// tracks it.
    fn find_any(&self, w: u32) -> (r: Option<(usize, usize)>)
        requires
            self.wf(),
        ensures
            match r {
                Some(p) => {
                    &&& (p.0 as int) < TAG_COUNT as int
                    &&& (p.1 as int) < self.tag_clients(p.0 as int).len()
                    &&& self.tag_clients(p.0 as int)[p.1 as int].handle == w
                    &&& self.has_client(w)
                    &&& self.client_tag(w) == p.0 as int
                    &&& handle_index(self.tag_clients(p.0 as int), w) == p.1 as int
                },
                None => !self.has_client(w),
            },
    {
        let mut t: usize = 0;
        while t < TAG_COUNT
            invariant
                t <= TAG_COUNT,
                self.wf(),
                forall|u: int|
                    0 <= u < t as int ==> !seq_has_handle(#[trigger] self.tag_clients(u), w),
            decreases TAG_COUNT - t,
        {
            match find_handle(&self.clients[t], w) {
                Some(k) => {
                    proof {
                        self.lemma_found_is_chosen(w, t as int, k as int);
                    }
                    return Some((t, k));
                },
                None => {},
            }
            t = t + 1;
        }
        None
    }

    /// Under uniqueness, any located occurrence is the one the
    /// specification functions name.
    proof fn lemma_found_is_chosen(self, w: u32, t: int, k: int)
        requires
            self.wf(),
            0 <= t < TAG_COUNT as int,
            0 <= k < self.tag_clients(t).len(),
            self.tag_clients(t)[k].handle == w,
        ensures
            self.has_client(w),
            self.client_tag(w) == t,
            handle_index(self.tag_clients(t), w) == k,
    {
        assert(seq_has_handle(self.tag_clients(t), w));
        assert(self.has_client(w));
        let t2 = self.client_tag(w);
        assert(0 <= t2 < TAG_COUNT as int && seq_has_handle(self.tag_clients(t2), w));
        let k2 = choose|m: int| 0 <= m < self.tag_clients(t2).len() && self.tag_clients(t2)[m].handle == w;
        assert(self.clients@[t2]@[k2].handle == w);
        assert(self.clients@[t]@[k].handle == w);
        if t2 != t || k2 != k {
            assert(false);
        }
        let k3 = handle_index(self.tag_clients(t), w);
        assert(0 <= k3 < self.tag_clients(t).len() && self.tag_clients(t)[k3].handle == w);
        if k3 != k {
            assert(self.clients@[t]@[k3].handle != self.clients@[t]@[k].handle);
            assert(false);
        }
    }

    /// One tag's list is free of duplicate handles.
    pub proof fn lemma_tag_unique(self, t: int)
        requires
            self.wf(),
            0 <= t < TAG_COUNT as int,
        ensures
            seq_handles_unique(self.tag_clients(t)),
    {
        assert forall|i: int, j: int| 0 <= i < j < self.tag_clients(t).len() implies self.tag_clients(
            t,
        )[i].handle != self.tag_clients(t)[j].handle by {
            assert(self.clients@[t]@[i].handle != self.clients@[t]@[j].handle);
        }
    }

    /// Re-establish well-formedness after one tag was replaced by `s2`,
    /// whose clients keep tag `t`, are free of duplicates, and carry only
    /// handles that tag `t` already had or the one fresh handle `fresh`.
    proof fn lemma_wf_tag_replace(pre: Monitor, post: Monitor, t: int, fresh: Option<u32>)
        requires
            pre.wf(),
            0 <= t < TAG_COUNT as int,
            post.clients@.len() == TAG_COUNT as int,
            0 <= post.selected < TAG_COUNT as int,
            MAIN_FACTOR_MIN as int <= post.main_factor as int <= MAIN_FACTOR_MAX as int,
            geometry_valid(post.geometry),
            forall|u: int|
                0 <= u < TAG_COUNT as int && u != t ==> #[trigger] post.tag_clients(u)
                    == pre.tag_clients(u),
            forall|k: int|
                0 <= k < post.tag_clients(t).len() ==> (#[trigger] post.tag_clients(t)[k]).tag
                    == t,
            seq_handles_unique(post.tag_clients(t)),
            forall|k: int|
                0 <= k < post.tag_clients(t).len() ==> seq_has_handle(
                    pre.tag_clients(t),
                    (#[trigger] post.tag_clients(t)[k]).handle,
                ) || (fresh is Some && post.tag_clients(t)[k].handle == fresh->0),
            fresh is Some ==> !pre.has_client(fresh->0),
        ensures
            post.wf(),
            forall|v: u32|
                post.has_client(v) ==> pre.has_client(v) || (fresh is Some && v == fresh->0),
    {
        assert forall|u: int, k: int|
            0 <= u < post.clients@.len() && 0 <= k < post.clients@[u]@.len() implies (
        #[trigger] post.clients@[u]@[k]).tag == u by {
            if u != t {
                assert(post.tag_clients(u) == pre.tag_clients(u));
                assert(pre.clients@[u]@[k].tag == u);
            } else {
                assert(post.tag_clients(t)[k].tag == t);
            }
        }
        assert forall|t1: int, k1: int, t2: int, k2: int|
            0 <= t1 < post.clients@.len() && 0 <= k1 < post.clients@[t1]@.len() && 0 <= t2
                < post.clients@.len() && 0 <= k2 < post.clients@[t2]@.len() && (t1 != t2 || k1
                != k2) implies #[trigger] post.clients@[t1]@[k1].handle
            != #[trigger] post.clients@[t2]@[k2].handle by {
            let w1 = post.clients@[t1]@[k1].handle;
            let w2 = post.clients@[t2]@[k2].handle;
            if t1 == t && t2 == t {
                assert(seq_handles_unique(post.tag_clients(t)));
                if k1 < k2 {
                    assert(post.tag_clients(t)[k1].handle != post.tag_clients(t)[k2].handle);
                } else {
                    assert(post.tag_clients(t)[k2].handle != post.tag_clients(t)[k1].handle);
                }
            } else if t1 == t {
                // `w2` sits on an untouched tag; `w1` is fresh or was on
                // tag `t` before.
                assert(post.tag_clients(t2) == pre.tag_clients(t2));
                assert(pre.clients@[t2]@[k2].handle == w2);
                if fresh is Some && w1 == fresh->0 {
                    assert(seq_has_handle(pre.tag_clients(t2), w2));
                    if w1 == w2 {
                        assert(pre.has_client(w1));
                        assert(false);
                    }
                } else {
                    assert(seq_has_handle(pre.tag_clients(t), w1));
                    let m = choose|m: int|
                        0 <= m < pre.tag_clients(t).len() && pre.tag_clients(t)[m].handle == w1;
                    assert(pre.clients@[t]@[m].handle != pre.clients@[t2]@[k2].handle);
                }
            } else if t2 == t {
                assert(post.tag_clients(t1) == pre.tag_clients(t1));
                assert(pre.clients@[t1]@[k1].handle == w1);
                if fresh is Some && w2 == fresh->0 {
                    assert(seq_has_handle(pre.tag_clients(t1), w1));
                    if w1 == w2 {
                        assert(pre.has_client(w2));
                        assert(false);
                    }
                } else {
                    assert(seq_has_handle(pre.tag_clients(t), w2));
                    let m = choose|m: int|
                        0 <= m < pre.tag_clients(t).len() && pre.tag_clients(t)[m].handle == w2;
                    assert(pre.clients@[t]@[m].handle != pre.clients@[t1]@[k1].handle);
                }
            } else {
                assert(post.tag_clients(t1) == pre.tag_clients(t1));
                assert(post.tag_clients(t2) == pre.tag_clients(t2));
                assert(pre.clients@[t1]@[k1].handle != pre.clients@[t2]@[k2].handle);
            }
        }
        assert forall|v: u32|
            post.has_client(v) implies pre.has_client(v) || (fresh is Some && v == fresh->0) by {
            let u = choose|u: int|
                0 <= u < post.clients@.len() && seq_has_handle(post.tag_clients(u), v);
            let k = choose|k: int|
                0 <= k < post.tag_clients(u).len() && post.tag_clients(u)[k].handle == v;
            if u != t {
                assert(post.tag_clients(u) == pre.tag_clients(u));
                assert(seq_has_handle(pre.tag_clients(u), v));
                assert(pre.has_client(v));
            } else {
                assert(post.tag_clients(t)[k].handle == v);
                if seq_has_handle(pre.tag_clients(t), v) {
                    assert(pre.has_client(v));
                }
            }
        }
    }

    /// File the client `c` under its own tag, at the end of that tag's
    /// stacking order, and re-tile the tag if it is the visible one.
    fn attach(&mut self, c: Client)
        requires
            old(self).wf(),
            !old(self).has_client(c.handle),
            (c.tag as int) < TAG_COUNT as int,
        ensures
            final(self).wf(),
            forall|v: u32| final(self).has_client(v) ==> old(self).has_client(v) || v == c.handle,
            ({
                let t = c.tag as int;
                let base = old(self).tag_clients(t).push(c);
                old(self).with_tag_seq(
                    *final(self),
                    t,
                    if t == old(self).spec_selected() {
                        arrange_seq(base, old(self).spec_geometry(), old(self).spec_main_factor())
                    } else {
                        base
                    },
                )
            }),
            final(self).has_client(c.handle),
    {
        let t = c.tag;
        self.clients[t].push(c);
        let g = self.geometry;
        let mf = self.main_factor;
        if t == self.selected {
            arrange_vec(&mut self.clients[t], &g, mf);
        }
        proof {
            let s2 = self.tag_clients(t as int);
            let base = old(self).tag_clients(t as int).push(c);
            if t == self.selected {
                lemma_arrange_seq_wf_preserved(base, g, mf, t as int);
            }
            old(self).lemma_tag_unique(t as int);
            assert(s2.len() == base.len());
            assert forall|k: int| 0 <= k < s2.len() implies (#[trigger] s2[k]).handle
                == base[k].handle && s2[k].tag == base[k].tag by {}
            assert forall|k: int| 0 <= k < s2.len() implies seq_has_handle(
                old(self).tag_clients(t as int),
                (#[trigger] s2[k]).handle,
            ) || s2[k].handle == c.handle by {
                if k < base.len() - 1 {
                    assert(base[k] == old(self).tag_clients(t as int)[k]);
                }
            }
            assert forall|i: int, j: int| 0 <= i < j < s2.len() implies s2[i].handle
                != s2[j].handle by {
                if j < base.len() - 1 {
                    assert(base[i] == old(self).tag_clients(t as int)[i]);
                    assert(base[j] == old(self).tag_clients(t as int)[j]);
                } else {
                    if i < base.len() - 1 {
                        assert(base[i] == old(self).tag_clients(t as int)[i]);
                        assert(seq_has_handle(old(self).tag_clients(t as int), base[i].handle));
                        if base[i].handle == c.handle {
                            assert(old(self).has_client(c.handle));
                        }
                    }
                }
            }
            assert forall|k: int| 0 <= k < s2.len() implies (#[trigger] s2[k]).tag
                == t as int by {
                if k < base.len() - 1 {
                    assert(old(self).clients@[t as int]@[k].tag == t as int);
                }
            }
            Monitor::lemma_wf_tag_replace(*old(self), *self, t as int, Some(c.handle));
            let last = base.len() - 1;
            assert(base[last] == c);
            assert(s2[last].handle == c.handle);
            assert(seq_has_handle(self.tag_clients(t as int), c.handle));
        }
    }

    /// Insert a new client: it joins the selected tag at the end of the
    /// stacking order and the tag is re-tiled.
    pub fn map(&mut self, client: Client)
        requires
            old(self).wf(),
            !old(self).has_client(client.handle),
        ensures
            final(self).wf(),
            forall|v: u32| final(self).has_client(v) ==> old(self).has_client(v) || v == client.handle,
            ({
                let sel = old(self).spec_selected();
                let placed = Client { tag: sel as usize, ..client };
                old(self).with_tag_seq(
                    *final(self),
                    sel,
                    arrange_seq(
                        old(self).tag_clients(sel).push(placed),
                        old(self).spec_geometry(),
                        old(self).spec_main_factor(),
                    ),
                )
            }),
            final(self).has_client(client.handle),
    {
        let sel = self.selected;
        let mut c = client;
        c.tag = sel;
        self.attach(c);
    }

    /// Take the window `w` out of this monitor, handing its record back
    /// for a transfer elsewhere; an untracked window changes nothing and
    /// yields nothing.
    pub fn remove(&mut self, w: u32) -> (r: Option<Client>)
        requires
            old(self).wf(),
        ensures
            final(self).wf(),
            forall|v: u32| final(self).has_client(v) ==> old(self).has_client(v),
            !old(self).has_client(w) ==> old(self).same_frame(*final(self)) && old(self).same_clients(*final(self)),
            old(self).has_client(w) ==> ({
                let t = old(self).client_tag(w);
                let k = handle_index(old(self).tag_clients(t), w);
                let gone = old(self).tag_clients(t).remove(k);
                old(self).with_tag_seq(
                    *final(self),
                    t,
                    if t == old(self).spec_selected() {
                        arrange_seq(gone, old(self).spec_geometry(), old(self).spec_main_factor())
                    } else {
                        gone
                    },
                )
            }),
            !final(self).has_client(w),
            r == if old(self).has_client(w) {
                Some(
                    old(self).tag_clients(old(self).client_tag(w))[handle_index(
                        old(self).tag_clients(old(self).client_tag(w)),
                        w,
                    )],
                )
            } else {
                Option::<Client>::None
            },
            r is Some ==> (r->0).tag as int == old(self).client_tag(w),
    {
        match self.find_any(w) {
            None => {
                proof {
                    assert(old(self).same_clients(*self));
                }
                None
            },
            Some((t, k)) => {
                let ghost pre = *self;
                let removed = self.clients[t].remove(k);
                let sel = self.selected;
                if t == sel {
                    let g = self.geometry;
                    let mf = self.main_factor;
                    arrange_vec(&mut self.clients[t], &g, mf);
                }
                proof {
                    let s0 = pre.tag_clients(t as int);
                    let gone = s0.remove(k as int);
                    let s2 = self.tag_clients(t as int);
                    if t == sel {
                        lemma_arrange_seq_wf_preserved(gone, pre.geometry, pre.main_factor, t as int);
                    }
                    pre.lemma_tag_unique(t as int);
                    assert forall|m: int| 0 <= m < s2.len() implies seq_has_handle(
                        s0,
                        (#[trigger] s2[m]).handle,
                    ) by {
                        assert(s2[m].handle == gone[m].handle);
                        if m < k as int {
                            assert(gone[m] == s0[m]);
                        } else {
                            assert(gone[m] == s0[m + 1]);
                        }
                    }
                    assert forall|i: int, j: int| 0 <= i < j < s2.len() implies s2[i].handle
                        != s2[j].handle by {
                        assert(s2[i].handle == gone[i].handle);
                        assert(s2[j].handle == gone[j].handle);
                        let i0: int = if i < k as int { i } else { i + 1 };
                        let j0: int = if j < k as int { j } else { j + 1 };
                        assert(gone[i] == s0[i0]);
                        assert(gone[j] == s0[j0]);
                    }
                    assert forall|m: int| 0 <= m < s2.len() implies (#[trigger] s2[m]).tag
                        == t as int by {
                        assert(s2[m].tag == gone[m].tag);
                        let m0: int = if m < k as int { m } else { m + 1 };
                        assert(gone[m] == s0[m0]);
                        assert(pre.clients@[t as int]@[m0].tag == t as int);
                    }
                    Monitor::lemma_wf_tag_replace(pre, *self, t as int, None);
                    // The removed handle is gone from every tag.
                    assert forall|u: int|
                        0 <= u < self.clients@.len() implies !seq_has_handle(
                        #[trigger] self.tag_clients(u),
                        w,
                    ) by {
                        if u == t as int {
                            if seq_has_handle(s2, w) {
                                let m = choose|m: int| 0 <= m < s2.len() && s2[m].handle == w;
                                let m0: int = if m < k as int { m } else { m + 1 };
                                assert(s2[m].handle == gone[m].handle);
                                assert(gone[m] == s0[m0]);
                                assert(pre.clients@[t as int]@[m0].handle == w);
                                assert(pre.clients@[t as int]@[k as int].handle == w);
                                assert(false);
                            }
                        } else {
                            if seq_has_handle(self.tag_clients(u), w) {
                                let m = choose|m: int|
                                    0 <= m < self.tag_clients(u).len() && self.tag_clients(u)[m].handle
                                        == w;
                                assert(pre.clients@[u]@[m].handle == w);
                                assert(pre.clients@[t as int]@[k as int].handle == w);
                                assert(false);
                            }
                        }
                    }
                }
                proof {
                    assert(pre.clients@[t as int]@[k as int].tag == t as int);
                }
                Some(removed)
            },
        }
    }

    /// Remove the window `w` if present, re-tiling the tag it stood on if
    /// that tag is visible; removing an untracked window changes nothing.
    pub fn unmap(&mut self, w: u32)
        requires
            old(self).wf(),
        ensures
            final(self).wf(),
            forall|v: u32| final(self).has_client(v) ==> old(self).has_client(v),
            !old(self).has_client(w) ==> old(self).same_frame(*final(self)) && old(self).same_clients(*final(self)),
            old(self).has_client(w) ==> ({
                let t = old(self).client_tag(w);
                let k = handle_index(old(self).tag_clients(t), w);
                let gone = old(self).tag_clients(t).remove(k);
                old(self).with_tag_seq(
                    *final(self),
                    t,
                    if t == old(self).spec_selected() {
                        arrange_seq(gone, old(self).spec_geometry(), old(self).spec_main_factor())
                    } else {
                        gone
                    },
                )
            }),
            !final(self).has_client(w),
    {
        let _removed = self.remove(w);
    }
}

/// One tag of `m` with position `k` replaced by `c2`, re-tiled when that
/// tag is the visible one.
pub open spec fn tag_after_update(m: Monitor, t: int, k: int, c2: Client) -> Seq<Client> {
    let s2 = m.tag_clients(t).update(k, c2);
    if t == m.spec_selected() {
        arrange_seq(s2, m.spec_geometry(), m.spec_main_factor())
    } else {
        s2
    }
}

impl Monitor {
    /// Re-establish well-formedness when tag `t` changed without touching
    /// any handle or tag field (geometry or flag edits, re-tiling).
    proof fn lemma_wf_pointwise(pre: Monitor, post: Monitor, t: int)
        requires
            pre.wf(),
            0 <= t < TAG_COUNT as int,
            post.clients@.len() == TAG_COUNT as int,
            0 <= post.selected < TAG_COUNT as int,
            MAIN_FACTOR_MIN as int <= post.main_factor as int <= MAIN_FACTOR_MAX as int,
            geometry_valid(post.geometry),
            forall|u: int|
                0 <= u < TAG_COUNT as int && u != t ==> #[trigger] post.tag_clients(u)
                    == pre.tag_clients(u),
            post.tag_clients(t).len() == pre.tag_clients(t).len(),
            forall|m: int|
                0 <= m < pre.tag_clients(t).len() ==> (#[trigger] post.tag_clients(t)[m]).handle
                    == pre.tag_clients(t)[m].handle && post.tag_clients(t)[m].tag
                    == pre.tag_clients(t)[m].tag,
        ensures
            post.wf(),
            forall|v: u32| post.has_client(v) ==> pre.has_client(v),
    {
        pre.lemma_tag_unique(t);
        assert forall|m: int| 0 <= m < post.tag_clients(t).len() implies (#[trigger] post.tag_clients(
            t,
        )[m]).tag == t by {
            assert(pre.clients@[t]@[m].tag == t);
        }
        assert forall|i: int, j: int| 0 <= i < j < post.tag_clients(t).len() implies post.tag_clients(
            t,
        )[i].handle != post.tag_clients(t)[j].handle by {
            assert(pre.tag_clients(t)[i].handle != pre.tag_clients(t)[j].handle);
        }
        assert forall|m: int| 0 <= m < post.tag_clients(t).len() implies seq_has_handle(
            pre.tag_clients(t),
            (#[trigger] post.tag_clients(t)[m]).handle,
        ) by {
            assert(pre.tag_clients(t)[m].handle == post.tag_clients(t)[m].handle);
        }
        Monitor::lemma_wf_tag_replace(pre, post, t, None);
    }

    /// Overwrite the mode flags of the client at `(t, k)` and re-tile its
    /// tag if visible.
    fn set_client_flags(&mut self, t: usize, k: usize, floating: bool, fullscreen: bool)
        requires
            old(self).wf(),
            (t as int) < TAG_COUNT as int,
            (k as int) < old(self).tag_clients(t as int).len(),
        ensures
            final(self).wf(),
            forall|v: u32| final(self).has_client(v) ==> old(self).has_client(v),
            ({
                let c = old(self).tag_clients(t as int)[k as int];
                let c2 = Client { floating, fullscreen, ..c };
                old(self).with_tag_seq(
                    *final(self),
                    t as int,
                    tag_after_update(*old(self), t as int, k as int, c2),
                )
            }),
    {
        let mut c = self.clients[t][k];
        c.floating = floating;
        c.fullscreen = fullscreen;
        self.clients[t][k] = c;
        if t == self.selected {
            let g = self.geometry;
            let mf = self.main_factor;
            arrange_vec(&mut self.clients[t], &g, mf);
            proof {
                lemma_arrange_seq_wf_preserved(
                    old(self).tag_clients(t as int).update(k as int, c),
                    g,
                    mf,
                    t as int,
                );
            }
        }
        proof {
            Monitor::lemma_wf_pointwise(*old(self), *self, t as int);
        }
    }

    /// Flip the floating flag of the window `w`; leaving floating returns
    /// the client to the tiling order at its old position.
    pub fn toggle_floating(&mut self, w: u32)
        requires
            old(self).wf(),
        ensures
            final(self).wf(),
            forall|v: u32| final(self).has_client(v) ==> old(self).has_client(v),
            !old(self).has_client(w) ==> old(self).same_frame(*final(self)) && old(self).same_clients(*final(self)),
            old(self).has_client(w) ==> ({
                let t = old(self).client_tag(w);
                let k = handle_index(old(self).tag_clients(t), w);
                let c = old(self).tag_clients(t)[k];
                let c2 = Client { floating: !c.floating, ..c };
                old(self).with_tag_seq(
                    *final(self),
                    t,
                    tag_after_update(*old(self), t, k, c2),
                )
            }),
    {
        match self.find_any(w) {
            None => {},
            Some((t, k)) => {
                let c = self.clients[t][k];
                self.set_client_flags(t, k, !c.floating, c.fullscreen);
            },
        }
    }

    /// Flip the fullscreen flag of the window `w`; a fullscreen client is
    /// forced to exactly the monitor bounds when its tag is arranged.
    pub fn toggle_fullscreen(&mut self, w: u32)
        requires
            old(self).wf(),
        ensures
            final(self).wf(),
            forall|v: u32| final(self).has_client(v) ==> old(self).has_client(v),
            !old(self).has_client(w) ==> old(self).same_frame(*final(self)) && old(self).same_clients(*final(self)),
            old(self).has_client(w) ==> ({
                let t = old(self).client_tag(w);
                let k = handle_index(old(self).tag_clients(t), w);
                let c = old(self).tag_clients(t)[k];
                let c2 = Client { fullscreen: !c.fullscreen, ..c };
                old(self).with_tag_seq(
                    *final(self),
                    t,
                    tag_after_update(*old(self), t, k, c2),
                )
            }),
    {
        match self.find_any(w) {
            None => {},
            Some((t, k)) => {
                let c = self.clients[t][k];
                self.set_client_flags(t, k, c.floating, !c.fullscreen);
            },
        }
    }

    /// Make the window `w` floating (a no-op when it already floats).
    pub fn set_floating(&mut self, w: u32)
        requires
            old(self).wf(),
        ensures
            final(self).wf(),
            forall|v: u32| final(self).has_client(v) ==> old(self).has_client(v),
            !old(self).has_client(w) ==> old(self).same_frame(*final(self)) && old(self).same_clients(*final(self)),
            old(self).has_client(w) ==> ({
                let t = old(self).client_tag(w);
                let k = handle_index(old(self).tag_clients(t), w);
                let c = old(self).tag_clients(t)[k];
                let c2 = Client { floating: true, ..c };
                old(self).with_tag_seq(
                    *final(self),
                    t,
                    tag_after_update(*old(self), t, k, c2),
                )
            }),
    {
        match self.find_any(w) {
            None => {},
            Some((t, k)) => {
                let c = self.clients[t][k];
                self.set_client_flags(t, k, true, c.fullscreen);
            },
        }
    }

    /// Make the window `w` fullscreen; its geometry becomes exactly the
    /// monitor bounds when its tag is arranged.
    pub fn set_fullscreen(&mut self, w: u32)
        requires
            old(self).wf(),
        ensures
            final(self).wf(),
            forall|v: u32| final(self).has_client(v) ==> old(self).has_client(v),
            !old(self).has_client(w) ==> old(self).same_frame(*final(self)) && old(self).same_clients(*final(self)),
            old(self).has_client(w) ==> ({
                let t = old(self).client_tag(w);
                let k = handle_index(old(self).tag_clients(t), w);
                let c = old(self).tag_clients(t)[k];
                let c2 = Client { fullscreen: true, ..c };
                old(self).with_tag_seq(
                    *final(self),
                    t,
                    tag_after_update(*old(self), t, k, c2),
                )
            }),
    {
        match self.find_any(w) {
            None => {},
            Some((t, k)) => {
                let c = self.clients[t][k];
                self.set_client_flags(t, k, c.floating, true);
            },
        }
    }

    /// Move the floating window `w` by `(dx, dy)`; tiled and fullscreen
    /// clients, and untracked windows, are left alone.
    pub fn drag(&mut self, w: u32, dx: i32, dy: i32)
        requires
            old(self).wf(),
        ensures
            final(self).wf(),
            forall|v: u32| final(self).has_client(v) ==> old(self).has_client(v),
            old(self).same_frame(*final(self)),
            !(old(self).has_client(w) && old(self).tag_clients(old(self).client_tag(w))[handle_index(
                old(self).tag_clients(old(self).client_tag(w)),
                w,
            )].floating) ==> old(self).same_clients(*final(self)),
            (old(self).has_client(w) && old(self).tag_clients(old(self).client_tag(w))[handle_index(
                old(self).tag_clients(old(self).client_tag(w)),
                w,
            )].floating) ==> ({
                let t = old(self).client_tag(w);
                let k = handle_index(old(self).tag_clients(t), w);
                let c = old(self).tag_clients(t)[k];
                let c2 = Client {
                    x: crate::clamp_i32(c.x as int + dx as int) as i32,
                    y: crate::clamp_i32(c.y as int + dy as int) as i32,
                    ..c
                };
                old(self).with_tag_seq(*final(self), t, old(self).tag_clients(t).update(k, c2))
            }),
    {
        match self.find_any(w) {
            None => {},
            Some((t, k)) => {
                let c = self.clients[t][k];
                if c.floating {
                    let mut c2 = c;
                    c2.x = crate::add_clamped(c.x, dx);
                    c2.y = crate::add_clamped(c.y, dy);
                    self.clients[t][k] = c2;
                    proof {
                        Monitor::lemma_wf_pointwise(*old(self), *self, t as int);
                    }
                }
            },
        }
    }

    /// Grow or shrink the floating window `w` by `(dx, dy)`; tiled and
    /// fullscreen clients, and untracked windows, are left alone.
    pub fn resize(&mut self, w: u32, dx: i32, dy: i32)
        requires
            old(self).wf(),
        ensures
            final(self).wf(),
            forall|v: u32| final(self).has_client(v) ==> old(self).has_client(v),
            old(self).same_frame(*final(self)),
            !(old(self).has_client(w) && old(self).tag_clients(old(self).client_tag(w))[handle_index(
                old(self).tag_clients(old(self).client_tag(w)),
                w,
            )].floating) ==> old(self).same_clients(*final(self)),
            (old(self).has_client(w) && old(self).tag_clients(old(self).client_tag(w))[handle_index(
                old(self).tag_clients(old(self).client_tag(w)),
                w,
            )].floating) ==> ({
                let t = old(self).client_tag(w);
                let k = handle_index(old(self).tag_clients(t), w);
                let c = old(self).tag_clients(t)[k];
                let c2 = Client {
                    width: crate::clamp_i32(c.width as int + dx as int) as i32,
                    height: crate::clamp_i32(c.height as int + dy as int) as i32,
                    ..c
                };
                old(self).with_tag_seq(*final(self), t, old(self).tag_clients(t).update(k, c2))
            }),
    {
        match self.find_any(w) {
            None => {},
            Some((t, k)) => {
                let c = self.clients[t][k];
                if c.floating {
                    let mut c2 = c;
                    c2.width = crate::add_clamped(c.width, dx);
                    c2.height = crate::add_clamped(c.height, dy);
                    self.clients[t][k] = c2;
                    proof {
                        Monitor::lemma_wf_pointwise(*old(self), *self, t as int);
                    }
                }
            },
        }
    }

    /// Answer a direct size request: a floating client is granted the
    /// requested extents; a tiled or fullscreen client keeps the
    /// authoritative geometry the tiler gave it.
    pub fn configure_request(
        &mut self,
        w: u32,
        want_width: bool,
        want_height: bool,
        width: i32,
        height: i32,
    )
        requires
            old(self).wf(),
        ensures
            final(self).wf(),
            forall|v: u32| final(self).has_client(v) ==> old(self).has_client(v),
            old(self).same_frame(*final(self)),
            !(old(self).has_client(w) && old(self).tag_clients(old(self).client_tag(w))[handle_index(
                old(self).tag_clients(old(self).client_tag(w)),
                w,
            )].floating) ==> old(self).same_clients(*final(self)),
            (old(self).has_client(w) && old(self).tag_clients(old(self).client_tag(w))[handle_index(
                old(self).tag_clients(old(self).client_tag(w)),
                w,
            )].floating) ==> ({
                let t = old(self).client_tag(w);
                let k = handle_index(old(self).tag_clients(t), w);
                let c = old(self).tag_clients(t)[k];
                let c2 = Client {
                    width: if want_width { width } else { c.width },
                    height: if want_height { height } else { c.height },
                    ..c
                };
                old(self).with_tag_seq(*final(self), t, old(self).tag_clients(t).update(k, c2))
            }),
    {
        match self.find_any(w) {
            None => {},
            Some((t, k)) => {
                let c = self.clients[t][k];
                if c.floating {
                    let mut c2 = c;
                    if want_width {
                        c2.width = width;
                    }
                    if want_height {
                        c2.height = height;
                    }
                    self.clients[t][k] = c2;
                    proof {
                        Monitor::lemma_wf_pointwise(*old(self), *self, t as int);
                    }
                }
            },
        }
    }
}

/// A client as it re-enters another monitor: its offset from the old
/// monitor's origin is kept, clamped so the top-left corner stays inside
/// the destination.
pub open spec fn reanchored(c: Client, dst: Geometry, sx: i32, sy: i32) -> Client {
    Client {
        x: clamp_range(
            dst.x as int + c.x as int - sx as int,
            dst.x as int,
            dst.x as int + if dst.width as int > 0 {
                dst.width as int - 1
            } else {
                0int
            },
        ) as i32,
        y: clamp_range(
            dst.y as int + c.y as int - sy as int,
            dst.y as int,
            dst.y as int + if dst.height as int > 0 {
                dst.height as int - 1
            } else {
                0int
            },
        ) as i32,
        ..c
    }
}

impl Monitor {
    /// Promote the window `w` to the master slot of its tag: it moves to
    /// the front of the stacking order, the prior master becomes the first
    /// stack client, and the tag is re-tiled if visible. Only a tiled
    /// client is promoted; floating, fullscreen and untracked windows
    /// change nothing.
    pub fn swap(&mut self, w: u32)
        requires
            old(self).wf(),
        ensures
            final(self).wf(),
            forall|v: u32| final(self).has_client(v) ==> old(self).has_client(v),
            old(self).same_frame(*final(self)),
            !(old(self).has_client(w) && old(self).tag_clients(old(self).client_tag(w))[handle_index(
                old(self).tag_clients(old(self).client_tag(w)),
                w,
            )].spec_tiled()) ==> old(self).same_clients(*final(self)),
            (old(self).has_client(w) && old(self).tag_clients(old(self).client_tag(w))[handle_index(
                old(self).tag_clients(old(self).client_tag(w)),
                w,
            )].spec_tiled()) ==> ({
                let t = old(self).client_tag(w);
                let k = handle_index(old(self).tag_clients(t), w);
                let s2 = move_front(old(self).tag_clients(t), k);
                old(self).with_tag_seq(
                    *final(self),
                    t,
                    if t == old(self).spec_selected() {
                        arrange_seq(s2, old(self).spec_geometry(), old(self).spec_main_factor())
                    } else {
                        s2
                    },
                )
            }),
    {
        match self.find_any(w) {
            None => {},
            Some((t, k)) => {
                let c = self.clients[t][k];
                if c.tiled() {
                    let ghost pre = *self;
                    let moved = self.clients[t].remove(k);
                    self.clients[t].insert(0, moved);
                    proof {
                        let s0 = pre.tag_clients(t as int);
                        let s2 = self.tag_clients(t as int);
                        assert(s2 == move_front(s0, k as int));
                        lemma_move_front_shape(s0, k as int);
                        pre.lemma_tag_unique(t as int);
                        assert forall|m: int| 0 <= m < s2.len() implies ((#[trigger] s2[m]).tag
                            == t as int && seq_has_handle(s0, s2[m].handle)) by {
                            let m0: int = if m == 0 {
                                k as int
                            } else if m <= k as int {
                                m - 1
                            } else {
                                m
                            };
                            assert(s2[m] == s0[m0]);
                            assert(pre.clients@[t as int]@[m0].tag == t as int);
                            assert(s0[m0].handle == s2[m].handle);
                        }
                        assert forall|i: int, j: int| 0 <= i < j < s2.len() implies s2[i].handle
                            != s2[j].handle by {
                            let i0: int = if i == 0 {
                                k as int
                            } else if i <= k as int {
                                i - 1
                            } else {
                                i
                            };
                            let j0: int = if j == 0 {
                                k as int
                            } else if j <= k as int {
                                j - 1
                            } else {
                                j
                            };
                            assert(s2[i] == s0[i0]);
                            assert(s2[j] == s0[j0]);
                            if i0 < j0 {
                                assert(s0[i0].handle != s0[j0].handle);
                            } else {
                                assert(s0[j0].handle != s0[i0].handle);
                            }
                        }
                        Monitor::lemma_wf_tag_replace(pre, *self, t as int, None);
                    }
                    if t == self.selected {
                        let ghost mid = *self;
                        let g = self.geometry;
                        let mf = self.main_factor;
                        arrange_vec(&mut self.clients[t], &g, mf);
                        proof {
                            lemma_arrange_seq_wf_preserved(mid.tag_clients(t as int), g, mf, t as int);
                            Monitor::lemma_wf_pointwise(mid, *self, t as int);
                        }
                    }
                }
            },
        }
    }

    /// Hand a client from another monitor to this one: its position is
    /// re-anchored to this monitor's rectangle (`src_x`, `src_y` are the
    /// origin of the monitor it came from), it keeps its tag and joins
    /// that tag's stacking order at the end.
    pub fn add(&mut self, client: Client, src_x: i32, src_y: i32)
        requires
            old(self).wf(),
            !old(self).has_client(client.handle),
            (client.tag as int) < TAG_COUNT as int,
        ensures
            final(self).wf(),
            forall|v: u32| final(self).has_client(v) ==> old(self).has_client(v) || v == client.handle,
            final(self).has_client(client.handle),
            ({
                let t = client.tag as int;
                let placed = reanchored(client, old(self).spec_geometry(), src_x, src_y);
                let base = old(self).tag_clients(t).push(placed);
                old(self).with_tag_seq(
                    *final(self),
                    t,
                    if t == old(self).spec_selected() {
                        arrange_seq(base, old(self).spec_geometry(), old(self).spec_main_factor())
                    } else {
                        base
                    },
                )
            }),
    {
        let g = self.geometry;
        let mut c = client;
        let lox: i64 = g.x as i64;
        let hix: i64 = lox + if g.width > 0 {
            (g.width - 1) as i64
        } else {
            0i64
        };
        let vx: i64 = g.x as i64 + client.x as i64 - src_x as i64;
        c.x = if vx < lox {
            g.x
        } else if vx > hix {
            hix as i32
        } else {
            vx as i32
        };
        let loy: i64 = g.y as i64;
        let hiy: i64 = loy + if g.height > 0 {
            (g.height - 1) as i64
        } else {
            0i64
        };
        let vy: i64 = g.y as i64 + client.y as i64 - src_y as i64;
        c.y = if vy < loy {
            g.y
        } else if vy > hiy {
            hiy as i32
        } else {
            vy as i32
        };
        proof {
            assert(c == reanchored(client, g, src_x, src_y));
        }
        self.attach(c);
    }

    /// Move the window `w` to another tag of this monitor: it leaves its
    /// old tag's order and joins the end of the target tag's order; each
    /// of the two tags is re-tiled if visible. Moving to the tag it is
    /// already on, or moving an untracked window, changes nothing.
    pub fn tag(&mut self, target: usize, w: u32)
        requires
            old(self).wf(),
            (target as int) < TAG_COUNT as int,
        ensures
            final(self).wf(),
            forall|v: u32| final(self).has_client(v) ==> old(self).has_client(v) || v == w,
            old(self).same_frame(*final(self)),
            (!old(self).has_client(w) || old(self).client_tag(w) == target as int) ==> old(self).same_clients(*final(self)),
            (old(self).has_client(w) && old(self).client_tag(w) != target as int) ==> ({
                let t = old(self).client_tag(w);
                let k = handle_index(old(self).tag_clients(t), w);
                let c = old(self).tag_clients(t)[k];
                let moved = Client { tag: target, ..c };
                let gone = old(self).tag_clients(t).remove(k);
                let put = old(self).tag_clients(target as int).push(moved);
                let g = old(self).spec_geometry();
                let mf = old(self).spec_main_factor();
                &&& forall|u: int|
                    0 <= u < TAG_COUNT as int && u != t && u != target as int
                        ==> #[trigger] final(self).tag_clients(u) == old(self).tag_clients(u)
                &&& final(self).tag_clients(t) == (if t == old(self).spec_selected() {
                    arrange_seq(gone, g, mf)
                } else {
                    gone
                })
                &&& final(self).tag_clients(target as int) == (if target as int == old(
                    self,
                ).spec_selected() {
                    arrange_seq(put, g, mf)
                } else {
                    put
                })
            }),
    {
        match self.find_any(w) {
            None => {},
            Some((t, _k)) => {
                if t != target {
                    match self.remove(w) {
                        None => {},
                        Some(c0) => {
                            let mut c = c0;
                            c.tag = target;
                            self.attach(c);
                        },
                    }
                }
            },
        }
    }

    /// Move every client of this monitor to `other`, tag by tag, each
    /// appended behind `other`'s own clients of the same tag; `other`'s
    /// visible tag is re-tiled afterwards. Used when display topology
    /// shrinks: no client is lost.
    pub fn transfer(&mut self, other: &mut Monitor)
        requires
            old(self).wf(),
            old(other).wf(),
            old(self).disjoint_clients(*old(other)),
        ensures
            final(self).wf(),
            final(other).wf(),
            forall|v: u32| !final(self).has_client(v),
            forall|v: u32|
                final(other).has_client(v) == (old(other).has_client(v) || old(self).has_client(
                    v,
                )),
            old(self).same_frame(*final(self)),
            old(other).same_frame(*final(other)),
            forall|t: int|
                0 <= t < TAG_COUNT as int ==> #[trigger] final(self).tag_clients(t).len() == 0,
            forall|t: int|
                0 <= t < TAG_COUNT as int && t != old(other).spec_selected()
                    ==> #[trigger] final(other).tag_clients(t) == old(other).tag_clients(t)
                    + old(self).tag_clients(t),
            final(other).tag_clients(old(other).spec_selected()) == arrange_seq(
                old(other).tag_clients(old(other).spec_selected()) + old(self).tag_clients(
                    old(other).spec_selected(),
                ),
                old(other).spec_geometry(),
                old(other).spec_main_factor(),
            ),
    {
        let mut t: usize = 0;
        while t < TAG_COUNT
            invariant
                t <= TAG_COUNT,
                self.clients@.len() == TAG_COUNT as int,
                other.clients@.len() == TAG_COUNT as int,
                self.geometry == old(self).geometry,
                self.selected == old(self).selected,
                self.main_factor == old(self).main_factor,
                other.geometry == old(other).geometry,
                other.selected == old(other).selected,
                other.main_factor == old(other).main_factor,
                forall|u: int| 0 <= u < t as int ==> (#[trigger] self.clients@[u])@.len() == 0,
                forall|u: int|
                    0 <= u < t as int ==> (#[trigger] other.clients@[u])@ == old(other).tag_clients(
                        u,
                    ) + old(self).tag_clients(u),
                forall|u: int|
                    t as int <= u < TAG_COUNT as int ==> #[trigger] self.clients@[u] == old(
                        self,
                    ).clients@[u],
                forall|u: int|
                    t as int <= u < TAG_COUNT as int ==> #[trigger] other.clients@[u] == old(
                        other,
                    ).clients@[u],
            decreases TAG_COUNT - t,
        {
            let mut moved: Vec<Client> = Vec::new();
            core::mem::swap(&mut moved, &mut self.clients[t]);
            other.clients[t].append(&mut moved);
            t = t + 1;
        }
        let ghost mid = *other;
        proof {
            assert(self.wf()) by {
                assert(old(self).wf());
            }
            assert forall|u: int, k: int|
                0 <= u < mid.clients@.len() && 0 <= k < mid.clients@[u]@.len() implies (
            #[trigger] mid.clients@[u]@[k]).tag == u by {
                let so = old(other).tag_clients(u);
                let ss = old(self).tag_clients(u);
                assert(mid.tag_clients(u) == so + ss);
                if k < so.len() {
                    assert((so + ss)[k] == so[k]);
                    assert(old(other).clients@[u]@[k].tag == u);
                } else {
                    assert((so + ss)[k] == ss[k - so.len()]);
                    assert(old(self).clients@[u]@[k - so.len()].tag == u);
                }
            }
            assert forall|t1: int, k1: int, t2: int, k2: int|
                0 <= t1 < mid.clients@.len() && 0 <= k1 < mid.clients@[t1]@.len() && 0 <= t2
                    < mid.clients@.len() && 0 <= k2 < mid.clients@[t2]@.len() && (t1 != t2 || k1
                    != k2) implies #[trigger] mid.clients@[t1]@[k1].handle
                != #[trigger] mid.clients@[t2]@[k2].handle by {
                let so1 = old(other).tag_clients(t1);
                let ss1 = old(self).tag_clients(t1);
                let so2 = old(other).tag_clients(t2);
                let ss2 = old(self).tag_clients(t2);
                assert(mid.tag_clients(t1) == so1 + ss1);
                assert(mid.tag_clients(t2) == so2 + ss2);
                if k1 < so1.len() && k2 < so2.len() {
                    assert((so1 + ss1)[k1] == so1[k1]);
                    assert((so2 + ss2)[k2] == so2[k2]);
                    assert(old(other).clients@[t1]@[k1].handle != old(other).clients@[t2]@[k2].handle);
                } else if k1 < so1.len() {
                    assert((so1 + ss1)[k1] == so1[k1]);
                    assert((so2 + ss2)[k2] == ss2[k2 - so2.len()]);
                    assert(old(self).tag_clients(t2)[k2 - so2.len()].handle != old(
                        other,
                    ).tag_clients(t1)[k1].handle);
                } else if k2 < so2.len() {
                    assert((so1 + ss1)[k1] == ss1[k1 - so1.len()]);
                    assert((so2 + ss2)[k2] == so2[k2]);
                    assert(old(self).tag_clients(t1)[k1 - so1.len()].handle != old(
                        other,
                    ).tag_clients(t2)[k2].handle);
                } else {
                    assert((so1 + ss1)[k1] == ss1[k1 - so1.len()]);
                    assert((so2 + ss2)[k2] == ss2[k2 - so2.len()]);
                    assert(old(self).clients@[t1]@[k1 - so1.len()].handle != old(
                        self,
                    ).clients@[t2]@[k2 - so2.len()].handle);
                }
            }
            assert(mid.wf());
        }
        let sel = other.selected;
        let g = other.geometry;
        let mf = other.main_factor;
        arrange_vec(&mut other.clients[sel], &g, mf);
        proof {
            lemma_arrange_seq_wf_preserved(mid.tag_clients(sel as int), g, mf, sel as int);
            Monitor::lemma_wf_pointwise(mid, *other, sel as int);
            assert forall|v: u32|
                old(other).has_client(v) || old(self).has_client(v) implies other.has_client(
                v,
            ) by {
                if old(other).has_client(v) {
                    let u = choose|u: int|
                        0 <= u < old(other).clients@.len() && seq_has_handle(
                            #[trigger] old(other).tag_clients(u),
                            v,
                        );
                    let k = choose|k: int|
                        0 <= k < old(other).tag_clients(u).len() && old(other).tag_clients(u)[k].handle
                            == v;
                    assert(mid.tag_clients(u) == old(other).tag_clients(u) + old(self).tag_clients(u));
                    assert(mid.tag_clients(u)[k].handle == v);
                    assert(other.tag_clients(u)[k].handle == v);
                    assert(seq_has_handle(other.tag_clients(u), v));
                    assert(other.has_client(v));
                } else {
                    let u = choose|u: int|
                        0 <= u < old(self).clients@.len() && seq_has_handle(
                            #[trigger] old(self).tag_clients(u),
                            v,
                        );
                    let k = choose|k: int|
                        0 <= k < old(self).tag_clients(u).len() && old(self).tag_clients(u)[k].handle
                            == v;
                    assert(mid.tag_clients(u) == old(other).tag_clients(u) + old(self).tag_clients(u));
                    let k2 = old(other).tag_clients(u).len() + k;
                    assert(mid.tag_clients(u)[k2].handle == v);
                    assert(other.tag_clients(u)[k2].handle == v);
                    assert(seq_has_handle(other.tag_clients(u), v));
                    assert(other.has_client(v));
                }
            }
        }
    }
}

/// The record of the window `w` on `pre` (meaningful when
/// `pre.has_client(w)` holds).
pub open spec fn client_of(pre: Monitor, w: u32) -> Client {
    pre.tag_clients(pre.client_tag(w))[handle_index(pre.tag_clients(pre.client_tag(w)), w)]
}

/// No observable change.
pub open spec fn untouched(pre: Monitor, post: Monitor) -> bool {
    pre.same_frame(post) && pre.same_clients(post)
}

/// What [`Monitor::swap`] does.
pub open spec fn swap_transition(pre: Monitor, post: Monitor, w: u32) -> bool {
    if !(pre.has_client(w) && client_of(pre, w).spec_tiled()) {
        untouched(pre, post)
    } else {
        let t = pre.client_tag(w);
        let k = handle_index(pre.tag_clients(t), w);
        let s2 = move_front(pre.tag_clients(t), k);
        pre.with_tag_seq(
            post,
            t,
            if t == pre.spec_selected() {
                arrange_seq(s2, pre.spec_geometry(), pre.spec_main_factor())
            } else {
                s2
            },
        )
    }
}

/// A flag edit on the client of `w`, leaving it with the given flags.
pub open spec fn flags_transition(pre: Monitor, post: Monitor, w: u32, fl: bool, fs: bool) -> bool {
    if !pre.has_client(w) {
        untouched(pre, post)
    } else {
        let t = pre.client_tag(w);
        let k = handle_index(pre.tag_clients(t), w);
        let c = client_of(pre, w);
        pre.with_tag_seq(
            post,
            t,
            tag_after_update(pre, t, k, Client { floating: fl, fullscreen: fs, ..c }),
        )
    }
}

/// What [`Monitor::toggle_floating`] does.
pub open spec fn toggle_floating_transition(pre: Monitor, post: Monitor, w: u32) -> bool {
    flags_transition(pre, post, w, !client_of(pre, w).floating, client_of(pre, w).fullscreen)
}

/// What [`Monitor::toggle_fullscreen`] does.
pub open spec fn toggle_fullscreen_transition(pre: Monitor, post: Monitor, w: u32) -> bool {
    flags_transition(pre, post, w, client_of(pre, w).floating, !client_of(pre, w).fullscreen)
}

/// What [`Monitor::set_floating`] does.
pub open spec fn set_floating_transition(pre: Monitor, post: Monitor, w: u32) -> bool {
    flags_transition(pre, post, w, true, client_of(pre, w).fullscreen)
}

/// What [`Monitor::set_fullscreen`] does.
pub open spec fn set_fullscreen_transition(pre: Monitor, post: Monitor, w: u32) -> bool {
    flags_transition(pre, post, w, client_of(pre, w).floating, true)
}

/// What [`Monitor::unmap`] does.
pub open spec fn unmap_transition(pre: Monitor, post: Monitor, w: u32) -> bool {
    if !pre.has_client(w) {
        untouched(pre, post)
    } else {
        let t = pre.client_tag(w);
        let k = handle_index(pre.tag_clients(t), w);
        let gone = pre.tag_clients(t).remove(k);
        pre.with_tag_seq(
            post,
            t,
            if t == pre.spec_selected() {
                arrange_seq(gone, pre.spec_geometry(), pre.spec_main_factor())
            } else {
                gone
            },
        )
    }
}

/// What [`Monitor::map`] does.
pub open spec fn map_transition(pre: Monitor, post: Monitor, client: Client) -> bool {
    let sel = pre.spec_selected();
    let placed = Client { tag: sel as usize, ..client };
    pre.with_tag_seq(
        post,
        sel,
        arrange_seq(
            pre.tag_clients(sel).push(placed),
            pre.spec_geometry(),
            pre.spec_main_factor(),
        ),
    )
}

/// What [`Monitor::main_factor`] does.
pub open spec fn main_factor_transition(pre: Monitor, post: Monitor, delta: i32) -> bool {
    &&& post.spec_main_factor() as int == clamp_main_factor(
        pre.spec_main_factor() as int + delta as int,
    )
    &&& post.spec_geometry() == pre.spec_geometry()
    &&& post.spec_selected() == pre.spec_selected()
    &&& forall|t: int|
        0 <= t < TAG_COUNT as int && t != pre.spec_selected() ==> #[trigger] post.tag_clients(t)
            == pre.tag_clients(t)
    &&& post.tag_clients(pre.spec_selected()) == arrange_seq(
        pre.tag_clients(pre.spec_selected()),
        pre.spec_geometry(),
        post.spec_main_factor(),
    )
}

/// What [`Monitor::drag`] does.
pub open spec fn drag_transition(pre: Monitor, post: Monitor, w: u32, dx: i32, dy: i32) -> bool {
    if !(pre.has_client(w) && client_of(pre, w).floating) {
        untouched(pre, post)
    } else {
        let t = pre.client_tag(w);
        let k = handle_index(pre.tag_clients(t), w);
        let c = client_of(pre, w);
        let c2 = Client {
            x: crate::clamp_i32(c.x as int + dx as int) as i32,
            y: crate::clamp_i32(c.y as int + dy as int) as i32,
            ..c
        };
        pre.with_tag_seq(post, t, pre.tag_clients(t).update(k, c2))
    }
}

/// What [`Monitor::resize`] does.
pub open spec fn resize_transition(pre: Monitor, post: Monitor, w: u32, dx: i32, dy: i32) -> bool {
    if !(pre.has_client(w) && client_of(pre, w).floating) {
        untouched(pre, post)
    } else {
        let t = pre.client_tag(w);
        let k = handle_index(pre.tag_clients(t), w);
        let c = client_of(pre, w);
        let c2 = Client {
            width: crate::clamp_i32(c.width as int + dx as int) as i32,
            height: crate::clamp_i32(c.height as int + dy as int) as i32,
            ..c
        };
        pre.with_tag_seq(post, t, pre.tag_clients(t).update(k, c2))
    }
}

/// What [`Monitor::configure_request`] does.
pub open spec fn configure_transition(
    pre: Monitor,
    post: Monitor,
    w: u32,
    want_width: bool,
    want_height: bool,
    width: i32,
    height: i32,
) -> bool {
    if !(pre.has_client(w) && client_of(pre, w).floating) {
        untouched(pre, post)
    } else {
        let t = pre.client_tag(w);
        let k = handle_index(pre.tag_clients(t), w);
        let c = client_of(pre, w);
        let c2 = Client {
            width: if want_width { width } else { c.width },
            height: if want_height { height } else { c.height },
            ..c
        };
        pre.with_tag_seq(post, t, pre.tag_clients(t).update(k, c2))
    }
}

/// What [`Monitor::tag`] does.
pub open spec fn tag_transition(pre: Monitor, post: Monitor, target: usize, w: u32) -> bool {
    if !pre.has_client(w) || pre.client_tag(w) == target as int {
        untouched(pre, post)
    } else {
        let t = pre.client_tag(w);
        let k = handle_index(pre.tag_clients(t), w);
        let c = client_of(pre, w);
        let moved = Client { tag: target, ..c };
        let gone = pre.tag_clients(t).remove(k);
        let put = pre.tag_clients(target as int).push(moved);
        let g = pre.spec_geometry();
        let mf = pre.spec_main_factor();
        &&& pre.same_frame(post)
        &&& forall|u: int|
            0 <= u < TAG_COUNT as int && u != t && u != target as int ==> #[trigger] post.tag_clients(
                u,
            ) == pre.tag_clients(u)
        &&& post.tag_clients(t) == (if t == pre.spec_selected() {
            arrange_seq(gone, g, mf)
        } else {
            gone
        })
        &&& post.tag_clients(target as int) == (if target as int == pre.spec_selected() {
            arrange_seq(put, g, mf)
        } else {
            put
        })
    }
}

/// What [`Monitor::add`] does.
pub open spec fn add_transition(pre: Monitor, post: Monitor, client: Client, sx: i32, sy: i32) -> bool {
    let t = client.tag as int;
    let placed = reanchored(client, pre.spec_geometry(), sx, sy);
    let base = pre.tag_clients(t).push(placed);
    pre.with_tag_seq(
        post,
        t,
        if t == pre.spec_selected() {
            arrange_seq(base, pre.spec_geometry(), pre.spec_main_factor())
        } else {
            base
        },
    )
}

/// What [`Monitor::update`] does.
pub open spec fn update_transition(pre: Monitor, post: Monitor, g2: Geometry) -> bool {
    &&& post.spec_geometry() == g2
    &&& post.spec_selected() == pre.spec_selected()
    &&& post.spec_main_factor() == pre.spec_main_factor()
    &&& forall|t: int|
        0 <= t < TAG_COUNT as int && t != pre.spec_selected() ==> #[trigger] post.tag_clients(t)
            == pre.tag_clients(t)
    &&& post.tag_clients(pre.spec_selected()) == arrange_seq(
        pre.tag_clients(pre.spec_selected()),
        g2,
        pre.spec_main_factor(),
    )
}

/// An untouched monitor tracks exactly the windows it tracked before.
pub proof fn lemma_untouched_has(pre: Monitor, post: Monitor)
    requires
        pre.wf(),
        pre.same_clients(post),
        post.wf(),
    ensures
        forall|v: u32| post.has_client(v) == pre.has_client(v),
{
    assert forall|v: u32| post.has_client(v) == pre.has_client(v) by {
        if post.has_client(v) {
            let u = choose|u: int|
                0 <= u < post.clients@.len() && seq_has_handle(post.tag_clients(u), v);
            assert(post.tag_clients(u) == pre.tag_clients(u));
            assert(pre.has_client(v));
        }
        if pre.has_client(v) {
            let u = choose|u: int|
                0 <= u < pre.clients@.len() && seq_has_handle(pre.tag_clients(u), v);
            assert(post.tag_clients(u) == pre.tag_clients(u));
            assert(post.has_client(v));
        }
    }
}

/// A tracked window has a well-defined tag, position and record.
pub proof fn lemma_client_of_found(m: Monitor, w: u32)
    requires
        m.wf(),
        m.has_client(w),
    ensures
        0 <= m.client_tag(w) < TAG_COUNT as int,
        0 <= handle_index(m.tag_clients(m.client_tag(w)), w) < m.tag_clients(
            m.client_tag(w),
        ).len(),
        client_of(m, w).handle == w,
        client_of(m, w).tag == m.client_tag(w),
        seq_has_handle(m.tag_clients(m.client_tag(w)), w),
{
    let u = choose|u: int| 0 <= u < m.clients@.len() && seq_has_handle(#[trigger] m.tag_clients(u), w);
    assert(seq_has_handle(m.tag_clients(u), w));
    let t = m.client_tag(w);
    assert(0 <= t < TAG_COUNT as int && seq_has_handle(m.tag_clients(t), w));
    let k = handle_index(m.tag_clients(t), w);
    assert(0 <= k < m.tag_clients(t).len() && m.tag_clients(t)[k].handle == w);
    assert(m.clients@[t]@[k].tag == t);
}

/// A monitor with empty tags tracks no window at all.
pub proof fn lemma_empty_has(m: Monitor)
    requires
        m.wf(),
        forall|t: int| 0 <= t < TAG_COUNT as int ==> #[trigger] m.tag_clients(t).len() == 0,
    ensures
        forall|v: u32| !m.has_client(v),
{
    assert forall|v: u32| !m.has_client(v) by {
        if m.has_client(v) {
            let u = choose|u: int|
                0 <= u < m.clients@.len() && seq_has_handle(m.tag_clients(u), v);
            let k = choose|k: int|
                0 <= k < m.tag_clients(u).len() && m.tag_clients(u)[k].handle == v;
            assert(false);
        }
    }
}

/// Two monitors that share no window handle are disjoint position by
/// position, as a client transfer between them requires.
pub proof fn lemma_has_disjoint_to_indexed(a: Monitor, b: Monitor)
    requires
        a.wf(),
        b.wf(),
        forall|v: u32| !(a.has_client(v) && b.has_client(v)),
    ensures
        a.disjoint_clients(b),
{
    assert forall|t1: int, k1: int, t2: int, k2: int|
        0 <= t1 < TAG_COUNT as int && 0 <= k1 < a.tag_clients(t1).len() && 0 <= t2
            < TAG_COUNT as int && 0 <= k2 < b.tag_clients(t2).len()
        implies #[trigger] a.tag_clients(t1)[k1].handle
        != #[trigger] b.tag_clients(t2)[k2].handle by {
        let v = a.tag_clients(t1)[k1].handle;
        if b.tag_clients(t2)[k2].handle == v {
            assert(seq_has_handle(a.tag_clients(t1), v));
            assert(a.has_client(v));
            assert(seq_has_handle(b.tag_clients(t2), v));
            assert(b.has_client(v));
            assert(!(a.has_client(v) && b.has_client(v)));
        }
    }
}

/// First client of `v` carrying the handle `w`, if any.
pub fn find_handle(v: &Vec<Client>, w: u32) -> (r: Option<usize>)
    ensures
        match r {
            Some(k) => {
                &&& (k as int) < v@.len()
                &&& v@[k as int].handle == w
                &&& forall|m: int| 0 <= m < k as int ==> v@[m].handle != w
            },
            None => !seq_has_handle(v@, w),
        },
{
    let mut k: usize = 0;
    while k < v.len()
        invariant
            k <= v@.len(),
            forall|m: int| 0 <= m < k as int ==> v@[m].handle != w,
        decreases v@.len() - k,
    {
        if v[k].handle == w {
            return Some(k);
        }
        k = k + 1;
    }
    None
}

} // verus!
