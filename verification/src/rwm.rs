//! The session controller: it owns the monitors, the focus, and the
//! pointer-interaction state, and turns every incoming event into state
//! changes plus a list of protocol actions for the surrounding process to
//! perform.

use vstd::prelude::*;
use crate::buttons::ButtonCombo;
use crate::client::Client;
use crate::config::{MOTION_INTERVAL_MS, TAG_COUNT};
use crate::keys::KeyCombo;
use crate::layout::{geometry_valid, point_in, Geometry};
use crate::monitor::{
    add_transition, client_of, configure_transition, drag_transition, main_factor_transition,
    map_transition, resize_transition, set_floating_transition, set_fullscreen_transition,
    swap_transition, tag_transition, toggle_floating_transition, toggle_fullscreen_transition,
    unmap_transition, untouched, update_transition, view_transition, Monitor,
};

verus! {

/// The pointer-interaction mode: idle, or one grab in progress with the
/// grabbed window, the anchor position, and the time of the last applied
/// motion (`0` right after the grab).
#[derive(Clone, Copy, PartialEq, Eq, Structural, Debug)]
pub enum State {
    Idle,
    Dragging(u32, i32, i32, u32),
    Resizing(u32, i32, i32, u32),
}

/// One protocol request the surrounding process must issue.
#[derive(Clone, Copy, PartialEq, Eq, Structural, Debug)]
pub enum Action {
    GrabKeyboard,
    UngrabKeyboard,
    SetBorderNormal(u32),
    SetBorderHighlight(u32),
    SetInputFocus(u32),
    GrabPointerDrag,
    GrabPointerResize,
    UngrabPointer,
    SendDelete(u32),
    ForceKill(u32),
    RedrawStatus,
}

/// One bindable command, the closed set of things a key or button can do.
#[derive(Clone, PartialEq, Eq, Debug)]
pub enum Command {
    Spawn(String),
    Kill,
    Swap,
    ToggleFullscreen,
    ToggleFloating,
    MainFactor(i32),
    View(usize),
    MoveToTag(usize),
    TagMon,
    Quit,
    Drag,
    Resize,
}

/// First command bound to `key` in a table, scanned front to back.
pub open spec fn table_lookup<K>(s: Seq<(K, Command)>, key: K) -> Option<Command>
    decreases s.len(),
{
    if s.len() == 0 {
        None
    } else if s[0].0 == key {
        Some(s[0].1)
    } else {
        table_lookup(s.subrange(1, s.len() as int), key)
    }
}

/// The border and input-focus requests a focus change from `prev` to
/// `next` must issue: restore the old border, then highlight and focus
/// the new window.
pub open spec fn focus_actions(prev: Option<u32>, next: Option<u32>) -> Seq<Action> {
    let restore: Seq<Action> = match prev {
        Some(a) => seq![Action::SetBorderNormal(a)],
        None => Seq::empty(),
    };
    match next {
        Some(b) => restore + seq![Action::SetBorderHighlight(b), Action::SetInputFocus(b)],
        None => restore,
    }
}

/// The actions a focus request actually issues: none at all when the
/// target is already focused.
pub open spec fn focus_effect(prev: Option<u32>, next: Option<u32>) -> Seq<Action> {
    if next == prev {
        Seq::empty()
    } else {
        focus_actions(prev, next)
    }
}

/// A scan hit inside a lookup table at position `i` pins the result.
proof fn lemma_table_hit<K>(s: Seq<(K, Command)>, key: K, i: int)
    requires
        0 <= i < s.len(),
        s[i].0 == key,
        forall|j: int| 0 <= j < i ==> s[j].0 != key,
    ensures
        table_lookup(s, key) == Some(s[i].1),
    decreases i,
{
    if i > 0 {
        let tail = s.subrange(1, s.len() as int);
        lemma_table_hit(tail, key, i - 1);
    }
}

/// A scan with no hit pins the result to nothing.
proof fn lemma_table_miss<K>(s: Seq<(K, Command)>, key: K)
    requires
        forall|j: int| 0 <= j < s.len() ==> s[j].0 != key,
    ensures
        table_lookup(s, key) is None,
    decreases s.len(),
{
    if s.len() > 0 {
        lemma_table_miss(s.subrange(1, s.len() as int), key);
    }
}

/// The fixed-size test on a size-hints property: equal, nonzero minimum
/// and maximum extents.
pub open spec fn hints_fixed(d: Seq<u32>) -> bool {
    let min_w = d[5] as u16;
    let min_h = d[6] as u16;
    let max_w = d[7] as u16;
    let max_h = d[8] as u16;
    min_w > 0 && min_h > 0 && min_w == max_w && min_h == max_h
}

/// The client a fixed-size window becomes: floating at its hinted
/// position and minimum size.
pub open spec fn hinted_client(window: u32, d: Seq<u32>) -> Client {
    Client {
        handle: window,
        x: (d[1] as i16) as i32,
        y: (d[2] as i16) as i32,
        width: (d[5] as u16) as i32,
        height: (d[6] as u16) as i32,
        fullscreen: false,
        floating: true,
        tag: 0,
    }
}

/// Executable counterpart of [`hints_fixed`].
pub fn size_hints_fixed(d: &Vec<u32>) -> (r: bool)
    requires
        d@.len() >= 9,
    ensures
        r == hints_fixed(d@),
{
    let min_w: u16 = #[verifier::truncate] (d[5] as u16);
    let min_h: u16 = #[verifier::truncate] (d[6] as u16);
    let max_w: u16 = #[verifier::truncate] (d[7] as u16);
    let max_h: u16 = #[verifier::truncate] (d[8] as u16);
    min_w > 0 && min_h > 0 && min_w == max_w && min_h == max_h
}

/// The first monitor of `ms` whose rectangle holds `(px, py)`.
pub open spec fn first_hit(ms: Seq<Monitor>, px: i32, py: i32) -> Option<int>
    decreases ms.len(),
{
    if ms.len() == 0 {
        None
    } else if point_in(ms[0].spec_geometry(), px as int, py as int) {
        Some(0int)
    } else {
        match first_hit(ms.subrange(1, ms.len() as int), px, py) {
            Some(i) => Some(i + 1),
            None => None,
        }
    }
}

/// A scan hit at position `i` pins [`first_hit`].
proof fn lemma_first_hit_at(ms: Seq<Monitor>, px: i32, py: i32, i: int)
    requires
        0 <= i < ms.len(),
        point_in(ms[i].spec_geometry(), px as int, py as int),
        forall|j: int|
            0 <= j < i ==> !point_in(
                (#[trigger] ms[j]).spec_geometry(),
                px as int,
                py as int,
            ),
    ensures
        first_hit(ms, px, py) == Some(i),
    decreases i,
{
    if i > 0 {
        lemma_first_hit_at(ms.subrange(1, ms.len() as int), px, py, i - 1);
    }
}

/// A scan without a hit pins [`first_hit`] to nothing.
proof fn lemma_first_hit_none(ms: Seq<Monitor>, px: i32, py: i32)
    requires
        forall|j: int|
            0 <= j < ms.len() ==> !point_in(
                (#[trigger] ms[j]).spec_geometry(),
                px as int,
                py as int,
            ),
    ensures
        first_hit(ms, px, py) is None,
    decreases ms.len(),
{
    if ms.len() > 0 {
        lemma_first_hit_none(ms.subrange(1, ms.len() as int), px, py);
    }
}

/// Milliseconds between two protocol timestamps, with the timestamp
/// wrap-around folded in.
pub open spec fn spec_elapsed(now: u32, last: u32) -> int {
    (now as int - last as int) % 0x1_0000_0000
}

/// Whether a motion at `now` may be applied when the last applied motion
/// was at `last` (`0` meaning none yet).
pub open spec fn throttle_passed(last: u32, now: u32) -> bool {
    last == 0 || spec_elapsed(now, last) > MOTION_INTERVAL_MS as int
}

/// Executable counterpart of [`spec_elapsed`].
fn elapsed(now: u32, last: u32) -> (r: u32)
    ensures
        r as int == spec_elapsed(now, last),
{
    if now >= last {
        proof {
            vstd::arithmetic::div_mod::lemma_small_mod(
                (now - last) as nat,
                0x1_0000_0000 as nat,
            );
        }
        now - last
    } else {
        let wide: i64 = 0x1_0000_0000i64 + now as i64 - last as i64;
        proof {
            let d = now as int - last as int;
            vstd::arithmetic::div_mod::lemma_mod_add_multiples_vanish(d, 0x1_0000_0000);
            vstd::arithmetic::div_mod::lemma_small_mod(
                (d + 0x1_0000_0000) as nat,
                0x1_0000_0000 as nat,
            );
        }
        wide as u32
    }
}

/// Whether the monitor list no longer matches the reported outputs.
pub open spec fn topology_dirty(pre: Seq<Monitor>, screens: Seq<Geometry>) -> bool {
    pre.len() != screens.len() || exists|i: int|
        0 <= i < pre.len() && (#[trigger] pre[i]).spec_geometry() != screens[i]
}

/// The whole window-management state: the monitors, the pointer-driven
/// interaction mode, the focus, and the command tables resolved at
/// startup.
pub struct Rwm {
    monitors: Vec<Monitor>,
    monitor: usize,
    focused: Option<u32>,
    state: State,
    keys: Vec<(KeyCombo, Command)>,
    buttons: Vec<(ButtonCombo, Command)>,
}

impl Rwm {
    /// The monitors, in output order.
    pub closed spec fn spec_monitors(self) -> Seq<Monitor> {
        self.monitors@
    }

    /// The index of the active monitor.
    pub closed spec fn spec_monitor(self) -> int {
        self.monitor as int
    }

    /// The window holding input focus, if any.
    pub closed spec fn spec_focused(self) -> Option<u32> {
        self.focused
    }

    /// The pointer-interaction mode.
    pub closed spec fn spec_state(self) -> State {
        self.state
    }

    /// The key command table.
    pub closed spec fn spec_keys(self) -> Seq<(KeyCombo, Command)> {
        self.keys@
    }

    /// The button command table.
    pub closed spec fn spec_buttons(self) -> Seq<(ButtonCombo, Command)> {
        self.buttons@
    }

    /// The command tables never change after startup.
    pub open spec fn same_tables(self, other: Rwm) -> bool {
        &&& other.spec_keys() == self.spec_keys()
        &&& other.spec_buttons() == self.spec_buttons()
    }

    /// All monitors equal except possibly position `i`.
    pub open spec fn monitors_same_except(self, other: Rwm, i: int) -> bool {
        &&& other.spec_monitors().len() == self.spec_monitors().len()
        &&& forall|j: int|
            0 <= j < self.spec_monitors().len() && j != i ==> #[trigger] other.spec_monitors()[j]
                == self.spec_monitors()[j]
    }

    /// Well-formedness: a valid active-monitor index, every monitor
    /// well-formed, and no window tracked by two monitors at once.
    pub closed spec fn wf(self) -> bool {
        &&& (self.monitors@.len() == 0 ==> self.monitor == 0)
        &&& (self.monitors@.len() > 0 ==> (self.monitor as int) < self.monitors@.len())
        &&& forall|i: int| 0 <= i < self.monitors@.len() ==> (#[trigger] self.monitors@[i]).wf()
        &&& forall|i: int, j: int, v: u32|
            0 <= i < j < self.monitors@.len() ==> !(#[trigger] self.monitors@[i].has_client(v)
                && #[trigger] self.monitors@[j].has_client(v))
    }

    /// Re-establish controller well-formedness after one monitor changed,
    /// its handles a subset of what it had plus at most one window that no
    /// other monitor holds.
    proof fn lemma_wf_after_one(pre: Rwm, post: Rwm, idx: int, fresh: Option<u32>)
        requires
            pre.wf(),
            0 <= idx < pre.monitors@.len(),
            post.monitors@.len() == pre.monitors@.len(),
            (post.monitor as int) < post.monitors@.len(),
            forall|j: int|
                0 <= j < pre.monitors@.len() && j != idx ==> #[trigger] post.monitors@[j]
                    == pre.monitors@[j],
            post.monitors@[idx].wf(),
            forall|v: u32|
                post.monitors@[idx].has_client(v) ==> pre.monitors@[idx].has_client(v) || (
                fresh is Some && v == fresh->0),
            fresh is Some && post.monitors@[idx].has_client(fresh->0) ==> forall|j: int|
                0 <= j < pre.monitors@.len() && j != idx ==> !(#[trigger] pre.monitors@[j]).has_client(
                    fresh->0,
                ),
        ensures
            post.wf(),
    {
        assert forall|i: int, j: int, v: u32|
            0 <= i < j < post.monitors@.len() implies !(#[trigger] post.monitors@[i].has_client(v)
            && #[trigger] post.monitors@[j].has_client(v)) by {
            if post.monitors@[i].has_client(v) && post.monitors@[j].has_client(v) {
                if i == idx {
                    assert(post.monitors@[j] == pre.monitors@[j]);
                    if fresh is Some && v == fresh->0 {
                        assert(!pre.monitors@[j].has_client(v));
                    } else {
                        assert(pre.monitors@[idx].has_client(v));
                        assert(!(pre.monitors@[i].has_client(v) && pre.monitors@[j].has_client(v)));
                    }
                } else if j == idx {
                    assert(post.monitors@[i] == pre.monitors@[i]);
                    if fresh is Some && v == fresh->0 {
                        assert(!pre.monitors@[i].has_client(v));
                    } else {
                        assert(pre.monitors@[idx].has_client(v));
                        assert(!(pre.monitors@[i].has_client(v) && pre.monitors@[j].has_client(v)));
                    }
                } else {
                    assert(post.monitors@[i] == pre.monitors@[i]);
                    assert(post.monitors@[j] == pre.monitors@[j]);
                    assert(!(pre.monitors@[i].has_client(v) && pre.monitors@[j].has_client(v)));
                }
            }
        }
    }

    /// A fresh controller: no monitors yet (topology discovery fills
    /// them), nothing focused, the pointer idle, and the given command
    /// tables.
    pub fn new(keys: Vec<(KeyCombo, Command)>, buttons: Vec<(ButtonCombo, Command)>) -> (r: Rwm)
        ensures
            r.wf(),
            r.spec_monitors().len() == 0,
            r.spec_monitor() == 0,
            r.spec_focused() is None,
            r.spec_state() == State::Idle,
            r.spec_keys() == keys@,
            r.spec_buttons() == buttons@,
    {
        Rwm {
            monitors: Vec::new(),
            monitor: 0,
            focused: None,
            state: State::Idle,
            keys,
            buttons,
        }
    }

    /// How many monitors the controller currently tracks.
    pub fn monitor_count(&self) -> (r: usize)
        ensures
            r as int == self.spec_monitors().len(),
    {
        self.monitors.len()
    }

    /// The active monitor's index.
    pub fn active_monitor(&self) -> (r: usize)
        ensures
            r as int == self.spec_monitor(),
    {
        self.monitor
    }

    /// Read access to one monitor.
    pub fn monitor_at(&self, i: usize) -> (r: &Monitor)
        requires
            (i as int) < self.spec_monitors().len(),
        ensures
            *r == self.spec_monitors()[i as int],
    {
        &self.monitors[i]
    }

    /// The focused window, if any.
    pub fn focused_window(&self) -> (r: Option<u32>)
        ensures
            r == self.spec_focused(),
    {
        self.focused
    }

    /// The pointer-interaction mode.
    pub fn interaction(&self) -> (r: State)
        ensures
            r == self.spec_state(),
    {
        self.state
    }

    /// Move input focus. Requesting the already-focused target is a
    /// complete no-op that issues nothing; otherwise the previous window's
    /// border is restored, the new one (if any) is highlighted and given
    /// input focus, and the tracked focus is updated.
    pub fn focus(&mut self, target: Option<u32>) -> (acts: Vec<Action>)
        requires
            old(self).wf(),
        ensures
            final(self).wf(),
            final(self).spec_monitors() == old(self).spec_monitors(),
            final(self).spec_monitor() == old(self).spec_monitor(),
            final(self).spec_state() == old(self).spec_state(),
            old(self).same_tables(*final(self)),
            final(self).spec_focused() == if target == old(self).spec_focused() {
                old(self).spec_focused()
            } else {
                target
            },
            acts@ == focus_effect(old(self).spec_focused(), target),
    {
        let mut acts: Vec<Action> = Vec::new();
        if target == self.focused {
            proof {
                assert(acts@ =~= focus_effect(old(self).spec_focused(), target));
            }
            return acts;
        }
        match self.focused {
            Some(a) => acts.push(Action::SetBorderNormal(a)),
            None => {},
        }
        match target {
            Some(b) => {
                acts.push(Action::SetBorderHighlight(b));
                acts.push(Action::SetInputFocus(b));
            },
            None => {},
        }
        self.focused = target;
        proof {
            assert(acts@ =~= focus_effect(old(self).spec_focused(), target));
        }
        acts
    }

    /// A pointer-button release always returns the interaction to idle
    /// and releases the pointer grab, whatever was in progress.
    pub fn button_release(&mut self) -> (acts: Vec<Action>)
        requires
            old(self).wf(),
        ensures
            final(self).wf(),
            final(self).spec_monitors() == old(self).spec_monitors(),
            final(self).spec_monitor() == old(self).spec_monitor(),
            final(self).spec_focused() == old(self).spec_focused(),
            old(self).same_tables(*final(self)),
            final(self).spec_state() == State::Idle,
            acts@ == seq![Action::UngrabPointer],
    {
        self.state = State::Idle;
        let mut acts: Vec<Action> = Vec::new();
        acts.push(Action::UngrabPointer);
        proof {
            assert(acts@ =~= seq![Action::UngrabPointer]);
        }
        acts
    }

    /// Close the focused window: gracefully when it advertises the
    /// delete-window protocol (the caller queried that), forcefully
    /// otherwise; nothing happens without a focused window.
    pub fn kill(&mut self, supports_delete: bool) -> (acts: Vec<Action>)
        requires
            old(self).wf(),
        ensures
            final(self).wf(),
            *final(self) == *old(self),
            acts@ == match old(self).spec_focused() {
                Some(w) => if supports_delete {
                    seq![Action::SendDelete(w)]
                } else {
                    seq![Action::ForceKill(w)]
                },
                None => Seq::<Action>::empty(),
            },
    {
        let mut acts: Vec<Action> = Vec::new();
        match self.focused {
            Some(w) => {
                if supports_delete {
                    acts.push(Action::SendDelete(w));
                } else {
                    acts.push(Action::ForceKill(w));
                }
            },
            None => {},
        }
        proof {
            assert(acts@ =~= match old(self).spec_focused() {
                Some(w) => if supports_delete {
                    seq![Action::SendDelete(w)]
                } else {
                    seq![Action::ForceKill(w)]
                },
                None => Seq::<Action>::empty(),
            });
        }
        acts
    }

    /// Resolve a key press against the key table: the first binding for
    /// this (modifier-mask, keysym) pair, if one exists.
    pub fn key_press(&self, mask: u16, keysym: u32) -> (r: Option<&Command>)
        ensures
            match r {
                Some(c) => table_lookup(self.spec_keys(), KeyCombo { mask, key: keysym })
                    == Some(*c),
                None => table_lookup(self.spec_keys(), KeyCombo { mask, key: keysym }) is None,
            },
    {
        let combo = KeyCombo::new(mask, keysym);
        let mut i: usize = 0;
        while i < self.keys.len()
            invariant
                i <= self.keys@.len(),
                combo == (KeyCombo { mask, key: keysym }),
                forall|j: int| 0 <= j < i as int ==> self.keys@[j].0 != combo,
            decreases self.keys@.len() - i,
        {
            if self.keys[i].0 == combo {
                proof {
                    lemma_table_hit(self.spec_keys(), combo, i as int);
                }
                return Some(&self.keys[i].1);
            }
            i = i + 1;
        }
        proof {
            lemma_table_miss(self.spec_keys(), combo);
        }
        None
    }

    /// Resolve a button press against the button table: the first binding
    /// for this (modifier-mask, button) pair, if one exists.
    pub fn button_press(&self, mask: u16, button: u8) -> (r: Option<&Command>)
        ensures
            match r {
                Some(c) => table_lookup(self.spec_buttons(), ButtonCombo { mask, button })
                    == Some(*c),
                None => table_lookup(self.spec_buttons(), ButtonCombo { mask, button }) is None,
            },
    {
        let combo = ButtonCombo::new(mask, button);
        let mut i: usize = 0;
        while i < self.buttons.len()
            invariant
                i <= self.buttons@.len(),
                combo == (ButtonCombo { mask, button }),
                forall|j: int| 0 <= j < i as int ==> self.buttons@[j].0 != combo,
            decreases self.buttons@.len() - i,
        {
            if self.buttons[i].0 == combo {
                proof {
                    lemma_table_hit(self.spec_buttons(), combo, i as int);
                }
                return Some(&self.buttons[i].1);
            }
            i = i + 1;
        }
        proof {
            lemma_table_miss(self.spec_buttons(), combo);
        }
        None
    }

    /// Promote the focused window to its tag's master slot on the active
    /// monitor.
    pub fn swap(&mut self)
        requires
            old(self).wf(),
            0 < old(self).spec_monitors().len(),
        ensures
            final(self).wf(),
            final(self).spec_monitor() == old(self).spec_monitor(),
            final(self).spec_focused() == old(self).spec_focused(),
            final(self).spec_state() == old(self).spec_state(),
            old(self).same_tables(*final(self)),
            old(self).monitors_same_except(*final(self), old(self).spec_monitor()),
            match old(self).spec_focused() {
                Some(w) => swap_transition(
                    old(self).spec_monitors()[old(self).spec_monitor()],
                    final(self).spec_monitors()[old(self).spec_monitor()],
                    w,
                ),
                None => final(self).spec_monitors() == old(self).spec_monitors(),
            },
    {
        match self.focused {
            None => {},
            Some(w) => {
                let idx = self.monitor;
                self.monitors[idx].swap(w);
                proof {
                    Rwm::lemma_wf_after_one(*old(self), *self, idx as int, None);
                }
            },
        }
    }

    /// Toggle the fullscreen flag of the focused window on the active
    /// monitor.
    pub fn toggle_fullscreen(&mut self)
        requires
            old(self).wf(),
            0 < old(self).spec_monitors().len(),
        ensures
            final(self).wf(),
            final(self).spec_monitor() == old(self).spec_monitor(),
            final(self).spec_focused() == old(self).spec_focused(),
            final(self).spec_state() == old(self).spec_state(),
            old(self).same_tables(*final(self)),
            old(self).monitors_same_except(*final(self), old(self).spec_monitor()),
            match old(self).spec_focused() {
                Some(w) => toggle_fullscreen_transition(
                    old(self).spec_monitors()[old(self).spec_monitor()],
                    final(self).spec_monitors()[old(self).spec_monitor()],
                    w,
                ),
                None => final(self).spec_monitors() == old(self).spec_monitors(),
            },
    {
        match self.focused {
            None => {},
            Some(w) => {
                let idx = self.monitor;
                self.monitors[idx].toggle_fullscreen(w);
                proof {
                    Rwm::lemma_wf_after_one(*old(self), *self, idx as int, None);
                }
            },
        }
    }

    /// Toggle the floating flag of the focused window on the active
    /// monitor.
    pub fn toggle_floating(&mut self)
        requires
            old(self).wf(),
            0 < old(self).spec_monitors().len(),
        ensures
            final(self).wf(),
            final(self).spec_monitor() == old(self).spec_monitor(),
            final(self).spec_focused() == old(self).spec_focused(),
            final(self).spec_state() == old(self).spec_state(),
            old(self).same_tables(*final(self)),
            old(self).monitors_same_except(*final(self), old(self).spec_monitor()),
            match old(self).spec_focused() {
                Some(w) => toggle_floating_transition(
                    old(self).spec_monitors()[old(self).spec_monitor()],
                    final(self).spec_monitors()[old(self).spec_monitor()],
                    w,
                ),
                None => final(self).spec_monitors() == old(self).spec_monitors(),
            },
    {
        match self.focused {
            None => {},
            Some(w) => {
                let idx = self.monitor;
                self.monitors[idx].toggle_floating(w);
                proof {
                    Rwm::lemma_wf_after_one(*old(self), *self, idx as int, None);
                }
            },
        }
    }

    /// Adjust the active monitor's master/stack split by `delta`
    /// thousandths, clamped to its legal range.
    pub fn main_factor(&mut self, delta: i32)
        requires
            old(self).wf(),
            0 < old(self).spec_monitors().len(),
        ensures
            final(self).wf(),
            final(self).spec_monitor() == old(self).spec_monitor(),
            final(self).spec_focused() == old(self).spec_focused(),
            final(self).spec_state() == old(self).spec_state(),
            old(self).same_tables(*final(self)),
            old(self).monitors_same_except(*final(self), old(self).spec_monitor()),
            main_factor_transition(
                old(self).spec_monitors()[old(self).spec_monitor()],
                final(self).spec_monitors()[old(self).spec_monitor()],
                delta,
            ),
    {
        let idx = self.monitor;
        self.monitors[idx].main_factor(delta);
        proof {
            Rwm::lemma_wf_after_one(*old(self), *self, idx as int, None);
        }
    }

    /// Switch the active monitor to another tag. On a real change the
    /// focus is cleared and a status redraw is requested; viewing the tag
    /// already selected does nothing at all.
    pub fn view(&mut self, tag: usize) -> (acts: Vec<Action>)
        requires
            old(self).wf(),
            0 < old(self).spec_monitors().len(),
            (tag as int) < TAG_COUNT as int,
        ensures
            final(self).wf(),
            final(self).spec_monitor() == old(self).spec_monitor(),
            final(self).spec_state() == old(self).spec_state(),
            old(self).same_tables(*final(self)),
            old(self).monitors_same_except(*final(self), old(self).spec_monitor()),
            view_transition(
                old(self).spec_monitors()[old(self).spec_monitor()],
                final(self).spec_monitors()[old(self).spec_monitor()],
                tag,
                tag as int != old(self).spec_monitors()[old(self).spec_monitor()].spec_selected(),
            ),
            ({
                let changed = tag as int != old(self).spec_monitors()[old(
                    self,
                ).spec_monitor()].spec_selected();
                if changed {
                    &&& final(self).spec_focused() is None
                    &&& acts@ == focus_effect(old(self).spec_focused(), None) + seq![
                        Action::RedrawStatus,
                    ]
                } else {
                    &&& final(self).spec_focused() == old(self).spec_focused()
                    &&& acts@ == Seq::<Action>::empty()
                }
            }),
    {
        let idx = self.monitor;
        let changed = self.monitors[idx].view(tag);
        proof {
            Rwm::lemma_wf_after_one(*old(self), *self, idx as int, None);
        }
        if changed {
            let mut acts = self.focus(None);
            acts.push(Action::RedrawStatus);
            proof {
                assert(acts@ =~= focus_effect(old(self).spec_focused(), None) + seq![
                    Action::RedrawStatus,
                ]);
            }
            acts
        } else {
            let acts: Vec<Action> = Vec::new();
            proof {
                assert(acts@ =~= Seq::<Action>::empty());
            }
            acts
        }
    }

    /// Move the focused window to another tag of the active monitor,
    /// clearing focus and requesting a status redraw first.
    pub fn tag(&mut self, tag: usize) -> (acts: Vec<Action>)
        requires
            old(self).wf(),
            0 < old(self).spec_monitors().len(),
            (tag as int) < TAG_COUNT as int,
        ensures
            final(self).wf(),
            final(self).spec_monitor() == old(self).spec_monitor(),
            final(self).spec_state() == old(self).spec_state(),
            old(self).same_tables(*final(self)),
            old(self).monitors_same_except(*final(self), old(self).spec_monitor()),
            match old(self).spec_focused() {
                Some(w) => {
                    &&& final(self).spec_focused() is None
                    &&& acts@ == focus_effect(old(self).spec_focused(), None) + seq![
                        Action::RedrawStatus,
                    ]
                    &&& tag_transition(
                        old(self).spec_monitors()[old(self).spec_monitor()],
                        final(self).spec_monitors()[old(self).spec_monitor()],
                        tag,
                        w,
                    )
                },
                None => {
                    &&& final(self).spec_focused() == old(self).spec_focused()
                    &&& final(self).spec_monitors() == old(self).spec_monitors()
                    &&& acts@ == Seq::<Action>::empty()
                },
            },
    {
        match self.focused {
            None => {
                let acts: Vec<Action> = Vec::new();
                proof {
                    assert(acts@ =~= Seq::<Action>::empty());
                }
                acts
            },
            Some(w) => {
                let mut acts = self.focus(None);
                acts.push(Action::RedrawStatus);
                let idx = self.monitor;
                let ghost mid = *self;
                self.monitors[idx].tag(tag, w);
                proof {
                    let pre_m = mid.monitors@[idx as int];
                    let post_m = self.monitors@[idx as int];
                    if !pre_m.has_client(w) {
                        crate::monitor::lemma_untouched_has(pre_m, post_m);
                        assert(!post_m.has_client(w));
                    }
                    assert forall|j: int|
                        0 <= j < mid.monitors@.len() && j != idx as int && post_m.has_client(
                        w,
                    ) implies !(#[trigger] mid.monitors@[j]).has_client(w) by {
                        assert(pre_m.has_client(w));
                        if j < idx as int {
                            assert(!(mid.monitors@[j].has_client(w)
                                && mid.monitors@[idx as int].has_client(w)));
                        } else {
                            assert(!(mid.monitors@[idx as int].has_client(w)
                                && mid.monitors@[j].has_client(w)));
                        }
                    }
                    Rwm::lemma_wf_after_one(mid, *self, idx as int, Some(w));
                    assert(acts@ =~= focus_effect(old(self).spec_focused(), None) + seq![
                        Action::RedrawStatus,
                    ]);
                }
                acts
            },
        }
    }

    /// Begin a pointer drag of the focused window from pointer position
    /// `(px, py)`: the window is made floating, the pointer is grabbed
    /// with the move cursor, and motion events will move the window.
    pub fn drag(&mut self, px: i32, py: i32) -> (acts: Vec<Action>)
        requires
            old(self).wf(),
            0 < old(self).spec_monitors().len(),
        ensures
            final(self).wf(),
            final(self).spec_monitor() == old(self).spec_monitor(),
            final(self).spec_focused() == old(self).spec_focused(),
            old(self).same_tables(*final(self)),
            old(self).monitors_same_except(*final(self), old(self).spec_monitor()),
            match old(self).spec_focused() {
                Some(w) => {
                    &&& set_floating_transition(
                        old(self).spec_monitors()[old(self).spec_monitor()],
                        final(self).spec_monitors()[old(self).spec_monitor()],
                        w,
                    )
                    &&& final(self).spec_state() == State::Dragging(w, px, py, 0)
                    &&& acts@ == seq![Action::GrabPointerDrag]
                },
                None => {
                    &&& final(self).spec_monitors() == old(self).spec_monitors()
                    &&& final(self).spec_state() == old(self).spec_state()
                    &&& acts@ == Seq::<Action>::empty()
                },
            },
    {
        match self.focused {
            None => {
                let acts: Vec<Action> = Vec::new();
                proof {
                    assert(acts@ =~= Seq::<Action>::empty());
                }
                acts
            },
            Some(w) => {
                let idx = self.monitor;
                self.monitors[idx].set_floating(w);
                proof {
                    Rwm::lemma_wf_after_one(*old(self), *self, idx as int, None);
                }
                self.state = State::Dragging(w, px, py, 0);
                let mut acts: Vec<Action> = Vec::new();
                acts.push(Action::GrabPointerDrag);
                proof {
                    assert(acts@ =~= seq![Action::GrabPointerDrag]);
                }
                acts
            },
        }
    }

    /// Begin a pointer resize of the focused window from pointer position
    /// `(px, py)`: the window is made floating, the pointer is grabbed
    /// with the sizing cursor, and motion events will resize the window.
    pub fn resize(&mut self, px: i32, py: i32) -> (acts: Vec<Action>)
        requires
            old(self).wf(),
            0 < old(self).spec_monitors().len(),
        ensures
            final(self).wf(),
            final(self).spec_monitor() == old(self).spec_monitor(),
            final(self).spec_focused() == old(self).spec_focused(),
            old(self).same_tables(*final(self)),
            old(self).monitors_same_except(*final(self), old(self).spec_monitor()),
            match old(self).spec_focused() {
                Some(w) => {
                    &&& set_floating_transition(
                        old(self).spec_monitors()[old(self).spec_monitor()],
                        final(self).spec_monitors()[old(self).spec_monitor()],
                        w,
                    )
                    &&& final(self).spec_state() == State::Resizing(w, px, py, 0)
                    &&& acts@ == seq![Action::GrabPointerResize]
                },
                None => {
                    &&& final(self).spec_monitors() == old(self).spec_monitors()
                    &&& final(self).spec_state() == old(self).spec_state()
                    &&& acts@ == Seq::<Action>::empty()
                },
            },
    {
        match self.focused {
            None => {
                let acts: Vec<Action> = Vec::new();
                proof {
                    assert(acts@ =~= Seq::<Action>::empty());
                }
                acts
            },
            Some(w) => {
                let idx = self.monitor;
                self.monitors[idx].set_floating(w);
                proof {
                    Rwm::lemma_wf_after_one(*old(self), *self, idx as int, None);
                }
                self.state = State::Resizing(w, px, py, 0);
                let mut acts: Vec<Action> = Vec::new();
                acts.push(Action::GrabPointerResize);
                proof {
                    assert(acts@ =~= seq![Action::GrabPointerResize]);
                }
                acts
            },
        }
    }

    /// Move the focused window to the next monitor: it leaves the active
    /// monitor, is re-anchored to the next one's rectangle, and focus is
    /// cleared. With a single monitor, or nothing focused, or the focused
    /// window not on the active monitor, nothing changes.
    pub fn tagmon(&mut self) -> (acts: Vec<Action>)
        requires
            old(self).wf(),
            0 < old(self).spec_monitors().len(),
        ensures
            final(self).wf(),
            final(self).spec_monitor() == old(self).spec_monitor(),
            final(self).spec_state() == old(self).spec_state(),
            old(self).same_tables(*final(self)),
            final(self).spec_monitors().len() == old(self).spec_monitors().len(),
            ({
                let idx = old(self).spec_monitor();
                let nxt = (idx + 1) % (old(self).spec_monitors().len() as int);
                let pre_src = old(self).spec_monitors()[idx];
                match old(self).spec_focused() {
                    Some(w) => if old(self).spec_monitors().len() > 1 && pre_src.has_client(w) {
                        &&& final(self).spec_focused() is None
                        &&& acts@ == focus_effect(old(self).spec_focused(), None)
                        &&& unmap_transition(
                            pre_src,
                            final(self).spec_monitors()[idx],
                            w,
                        )
                        &&& add_transition(
                            old(self).spec_monitors()[nxt],
                            final(self).spec_monitors()[nxt],
                            client_of(pre_src, w),
                            pre_src.spec_geometry().x,
                            pre_src.spec_geometry().y,
                        )
                        &&& forall|j: int|
                            0 <= j < old(self).spec_monitors().len() && j != idx && j != nxt
                                ==> #[trigger] final(self).spec_monitors()[j] == old(
                                self,
                            ).spec_monitors()[j]
                    } else {
                        &&& final(self).spec_focused() == old(self).spec_focused()
                        &&& acts@ == Seq::<Action>::empty()
                        &&& old(self).monitors_same_except(*final(self), idx)
                        &&& untouched(pre_src, final(self).spec_monitors()[idx])
                    },
                    None => {
                        &&& final(self).spec_focused() == old(self).spec_focused()
                        &&& final(self).spec_monitors() == old(self).spec_monitors()
                        &&& acts@ == Seq::<Action>::empty()
                    },
                }
            }),
    {
        if self.monitors.len() == 1 {
            let acts: Vec<Action> = Vec::new();
            proof {
                assert(acts@ =~= Seq::<Action>::empty());
                assert(untouched(
                    old(self).spec_monitors()[old(self).spec_monitor()],
                    self.spec_monitors()[old(self).spec_monitor()],
                ));
            }
            return acts;
        }
        match self.focused {
            None => {
                let acts: Vec<Action> = Vec::new();
                proof {
                    assert(acts@ =~= Seq::<Action>::empty());
                }
                acts
            },
            Some(w) => {
                let idx = self.monitor;
                let copt = self.monitors[idx].remove(w);
                proof {
                    Rwm::lemma_wf_after_one(*old(self), *self, idx as int, None);
                }
                match copt {
                    None => {
                        let acts: Vec<Action> = Vec::new();
                        proof {
                            assert(acts@ =~= Seq::<Action>::empty());
                        }
                        acts
                    },
                    Some(c) => {
                        let ghost pre_src = old(self).spec_monitors()[idx as int];
                        proof {
                            assert(pre_src.has_client(w));
                            crate::monitor::lemma_client_of_found(pre_src, w);
                            assert(c.handle == w);
                        }
                        let acts = self.focus(None);
                        let n = self.monitors.len();
                        let nxt = (idx + 1) % n;
                        let sx = self.monitors[idx].x();
                        let sy = self.monitors[idx].y();
                        let ghost mid = *self;
                        proof {
                            if idx + 1 == n {
                                vstd::arithmetic::div_mod::lemma_mod_self_0(n as int);
                            } else {
                                vstd::arithmetic::div_mod::lemma_small_mod(
                                    (idx + 1) as nat,
                                    n as nat,
                                );
                            }
                            assert(nxt != idx);
                            assert(!old(self).spec_monitors()[nxt as int].has_client(w));
                            assert(mid.spec_monitors()[nxt as int] == old(self).spec_monitors()[nxt as int]);
                        }
                        self.monitors[nxt].add(c, sx, sy);
                        proof {
                            Rwm::lemma_wf_after_one(mid, *self, nxt as int, Some(w));
                        }
                        acts
                    },
                }
            },
        }
    }

    /// Whether any monitor already tracks the window `w`.
    pub fn any_monitor_has(&self, w: u32) -> (r: bool)
        requires
            self.wf(),
        ensures
            r == exists|j: int|
                0 <= j < self.spec_monitors().len() && (#[trigger] self.spec_monitors()[j]).has_client(w),
    {
        let mut i: usize = 0;
        while i < self.monitors.len()
            invariant
                self.wf(),
                i <= self.monitors@.len(),
                forall|j: int| 0 <= j < i as int ==> !(#[trigger] self.monitors@[j]).has_client(w),
            decreases self.monitors@.len() - i,
        {
            if self.monitors[i].has_window(w) {
                proof {
                    assert(self.spec_monitors()[i as int].has_client(w));
                }
                return true;
            }
            i = i + 1;
        }
        false
    }

    /// A new window asked to be shown. A fixed-size window (equal minimum
    /// and maximum size hints) becomes floating at its hinted position;
    /// any other becomes a client at its current geometry, fullscreen or
    /// floating as its properties say. The client joins the active
    /// monitor's selected tag. A window some monitor already tracks is
    /// left alone.
    pub fn map_request(
        &mut self,
        window: u32,
        hints: &Vec<u32>,
        gx: i32,
        gy: i32,
        gw: i32,
        gh: i32,
        fullscreen: bool,
        dialog: bool,
    )
        requires
            old(self).wf(),
            0 < old(self).spec_monitors().len(),
            hints@.len() >= 9,
        ensures
            final(self).wf(),
            final(self).spec_monitor() == old(self).spec_monitor(),
            final(self).spec_focused() == old(self).spec_focused(),
            final(self).spec_state() == old(self).spec_state(),
            old(self).same_tables(*final(self)),
            ({
                let c = if hints_fixed(hints@) {
                    hinted_client(window, hints@)
                } else {
                    Client {
                        handle: window,
                        x: gx,
                        y: gy,
                        width: gw,
                        height: gh,
                        fullscreen,
                        floating: dialog,
                        tag: 0,
                    }
                };
                if exists|j: int|
                    0 <= j < old(self).spec_monitors().len() && (#[trigger] old(
                        self,
                    ).spec_monitors()[j]).has_client(window) {
                    final(self).spec_monitors() == old(self).spec_monitors()
                } else {
                    &&& old(self).monitors_same_except(*final(self), old(self).spec_monitor())
                    &&& map_transition(
                        old(self).spec_monitors()[old(self).spec_monitor()],
                        final(self).spec_monitors()[old(self).spec_monitor()],
                        c,
                    )
                }
            }),
    {
        if self.any_monitor_has(window) {
            return;
        }
        let c = if size_hints_fixed(hints) {
            let hx: i32 = #[verifier::truncate] (hints[1] as i16) as i32;
            let hy: i32 = #[verifier::truncate] (hints[2] as i16) as i32;
            let hw: i32 = #[verifier::truncate] (hints[5] as u16) as i32;
            let hh: i32 = #[verifier::truncate] (hints[6] as u16) as i32;
            Client::new(window, hx, hy, hw, hh, false, true)
        } else {
            Client::new(window, gx, gy, gw, gh, fullscreen, dialog)
        };
        let idx = self.monitor;
        self.monitors[idx].map(c);
        proof {
            Rwm::lemma_wf_after_one(*old(self), *self, idx as int, Some(window));
        }
    }

    /// A window disappeared (or was destroyed). Focus is dropped if it
    /// pointed there (with a status redraw), and every monitor forgets
    /// the window; monitors that never tracked it are untouched.
    pub fn unmap_notify(&mut self, window: u32) -> (acts: Vec<Action>)
        requires
            old(self).wf(),
        ensures
            final(self).wf(),
            final(self).spec_monitor() == old(self).spec_monitor(),
            final(self).spec_state() == old(self).spec_state(),
            old(self).same_tables(*final(self)),
            final(self).spec_focused() == if old(self).spec_focused() == Some(window) {
                None::<u32>
            } else {
                old(self).spec_focused()
            },
            acts@ == if old(self).spec_focused() == Some(window) {
                seq![Action::RedrawStatus]
            } else {
                Seq::<Action>::empty()
            },
            final(self).spec_monitors().len() == old(self).spec_monitors().len(),
            forall|j: int|
                0 <= j < old(self).spec_monitors().len() ==> unmap_transition(
                    #[trigger] old(self).spec_monitors()[j],
                    final(self).spec_monitors()[j],
                    window,
                ),
    {
        let mut acts: Vec<Action> = Vec::new();
        if self.focused == Some(window) {
            self.focused = None;
            acts.push(Action::RedrawStatus);
        }
        let n = self.monitors.len();
        let mut i: usize = 0;
        while i < n
            invariant
                self.wf(),
                i <= n,
                n == self.monitors@.len(),
                self.monitors@.len() == old(self).monitors@.len(),
                self.monitor == old(self).monitor,
                self.state == old(self).state,
                self.keys == old(self).keys,
                self.buttons == old(self).buttons,
                self.focused == if old(self).focused == Some(window) {
                    None::<u32>
                } else {
                    old(self).focused
                },
                acts@ == if old(self).focused == Some(window) {
                    seq![Action::RedrawStatus]
                } else {
                    Seq::<Action>::empty()
                },
                forall|j: int|
                    0 <= j < i as int ==> unmap_transition(
                        #[trigger] old(self).monitors@[j],
                        self.monitors@[j],
                        window,
                    ),
                forall|j: int|
                    i as int <= j < n as int ==> #[trigger] self.monitors@[j] == old(
                        self,
                    ).monitors@[j],
            decreases n - i,
        {
            let ghost prev = *self;
            self.monitors[i].unmap(window);
            proof {
                Rwm::lemma_wf_after_one(prev, *self, i as int, None);
            }
            i = i + 1;
        }
        acts
    }

    /// A destroy notification is handled exactly like an unmap.
    pub fn destroy_notify(&mut self, window: u32) -> (acts: Vec<Action>)
        requires
            old(self).wf(),
        ensures
            final(self).wf(),
            final(self).spec_monitor() == old(self).spec_monitor(),
            final(self).spec_state() == old(self).spec_state(),
            old(self).same_tables(*final(self)),
            final(self).spec_focused() == if old(self).spec_focused() == Some(window) {
                None::<u32>
            } else {
                old(self).spec_focused()
            },
            acts@ == if old(self).spec_focused() == Some(window) {
                seq![Action::RedrawStatus]
            } else {
                Seq::<Action>::empty()
            },
            final(self).spec_monitors().len() == old(self).spec_monitors().len(),
            forall|j: int|
                0 <= j < old(self).spec_monitors().len() ==> unmap_transition(
                    #[trigger] old(self).spec_monitors()[j],
                    final(self).spec_monitors()[j],
                    window,
                ),
    {
        self.unmap_notify(window)
    }

    /// A window asked for a size directly. The request is forwarded to
    /// every monitor; only the one tracking the window as floating grants
    /// it, everyone else leaves the authoritative geometry standing.
    pub fn configure_request(
        &mut self,
        window: u32,
        want_width: bool,
        want_height: bool,
        width: i32,
        height: i32,
    )
        requires
            old(self).wf(),
        ensures
            final(self).wf(),
            final(self).spec_monitor() == old(self).spec_monitor(),
            final(self).spec_focused() == old(self).spec_focused(),
            final(self).spec_state() == old(self).spec_state(),
            old(self).same_tables(*final(self)),
            final(self).spec_monitors().len() == old(self).spec_monitors().len(),
            forall|j: int|
                0 <= j < old(self).spec_monitors().len() ==> configure_transition(
                    #[trigger] old(self).spec_monitors()[j],
                    final(self).spec_monitors()[j],
                    window,
                    want_width,
                    want_height,
                    width,
                    height,
                ),
    {
        let n = self.monitors.len();
        let mut i: usize = 0;
        while i < n
            invariant
                self.wf(),
                i <= n,
                n == self.monitors@.len(),
                self.monitors@.len() == old(self).monitors@.len(),
                self.monitor == old(self).monitor,
                self.focused == old(self).focused,
                self.state == old(self).state,
                self.keys == old(self).keys,
                self.buttons == old(self).buttons,
                forall|j: int|
                    0 <= j < i as int ==> configure_transition(
                        #[trigger] old(self).monitors@[j],
                        self.monitors@[j],
                        window,
                        want_width,
                        want_height,
                        width,
                        height,
                    ),
                forall|j: int|
                    i as int <= j < n as int ==> #[trigger] self.monitors@[j] == old(
                        self,
                    ).monitors@[j],
            decreases n - i,
        {
            let ghost prev = *self;
            self.monitors[i].configure_request(window, want_width, want_height, width, height);
            proof {
                Rwm::lemma_wf_after_one(prev, *self, i as int, None);
            }
            i = i + 1;
        }
    }

    /// A window property changed. When the window type became a dialog,
    /// the window is forced floating on every monitor; any other change
    /// is treated as new status text and only asks for a redraw.
    pub fn property_notify(
        &mut self,
        window: u32,
        window_type_changed: bool,
        dialog: bool,
    ) -> (acts: Vec<Action>)
        requires
            old(self).wf(),
        ensures
            final(self).wf(),
            final(self).spec_monitor() == old(self).spec_monitor(),
            final(self).spec_focused() == old(self).spec_focused(),
            final(self).spec_state() == old(self).spec_state(),
            old(self).same_tables(*final(self)),
            final(self).spec_monitors().len() == old(self).spec_monitors().len(),
            window_type_changed && dialog ==> acts@ == Seq::<Action>::empty() && forall|j: int|
                0 <= j < old(self).spec_monitors().len() ==> set_floating_transition(
                    #[trigger] old(self).spec_monitors()[j],
                    final(self).spec_monitors()[j],
                    window,
                ),
            !(window_type_changed && dialog) ==> final(self).spec_monitors() == old(
                self,
            ).spec_monitors() && acts@ == seq![Action::RedrawStatus],
    {
        let mut acts: Vec<Action> = Vec::new();
        if window_type_changed && dialog {
            let n = self.monitors.len();
            let mut i: usize = 0;
            while i < n
                invariant
                    self.wf(),
                    i <= n,
                    n == self.monitors@.len(),
                    self.monitors@.len() == old(self).monitors@.len(),
                    self.monitor == old(self).monitor,
                    self.focused == old(self).focused,
                    self.state == old(self).state,
                    self.keys == old(self).keys,
                    self.buttons == old(self).buttons,
                    forall|j: int|
                        0 <= j < i as int ==> set_floating_transition(
                            #[trigger] old(self).monitors@[j],
                            self.monitors@[j],
                            window,
                        ),
                    forall|j: int|
                        i as int <= j < n as int ==> #[trigger] self.monitors@[j] == old(
                            self,
                        ).monitors@[j],
                decreases n - i,
            {
                let ghost prev = *self;
                self.monitors[i].set_floating(window);
                proof {
                    Rwm::lemma_wf_after_one(prev, *self, i as int, None);
                }
                i = i + 1;
            }
            proof {
                assert(acts@ =~= Seq::<Action>::empty());
            }
        } else {
            acts.push(Action::RedrawStatus);
            proof {
                assert(acts@ =~= seq![Action::RedrawStatus]);
            }
        }
        acts
    }

    /// A client message arrived. A fullscreen-state message sets the
    /// window fullscreen when the action code asks for it (`1`) and
    /// toggles it otherwise, on every monitor; other messages are
    /// ignored.
    pub fn client_message(
        &mut self,
        window: u32,
        is_state: bool,
        is_fullscreen: bool,
        action_code: u32,
    )
        requires
            old(self).wf(),
        ensures
            final(self).wf(),
            final(self).spec_monitor() == old(self).spec_monitor(),
            final(self).spec_focused() == old(self).spec_focused(),
            final(self).spec_state() == old(self).spec_state(),
            old(self).same_tables(*final(self)),
            final(self).spec_monitors().len() == old(self).spec_monitors().len(),
            is_state && is_fullscreen ==> forall|j: int|
                0 <= j < old(self).spec_monitors().len() ==> if action_code == 1 {
                    set_fullscreen_transition(
                        #[trigger] old(self).spec_monitors()[j],
                        final(self).spec_monitors()[j],
                        window,
                    )
                } else {
                    toggle_fullscreen_transition(
                        #[trigger] old(self).spec_monitors()[j],
                        final(self).spec_monitors()[j],
                        window,
                    )
                },
            !(is_state && is_fullscreen) ==> final(self).spec_monitors() == old(
                self,
            ).spec_monitors(),
    {
        if is_state && is_fullscreen {
            let n = self.monitors.len();
            let mut i: usize = 0;
            while i < n
                invariant
                    self.wf(),
                    i <= n,
                    n == self.monitors@.len(),
                    self.monitors@.len() == old(self).monitors@.len(),
                    self.monitor == old(self).monitor,
                    self.focused == old(self).focused,
                    self.state == old(self).state,
                    self.keys == old(self).keys,
                    self.buttons == old(self).buttons,
                    forall|j: int|
                        0 <= j < i as int ==> if action_code == 1 {
                            set_fullscreen_transition(
                                #[trigger] old(self).monitors@[j],
                                self.monitors@[j],
                                window,
                            )
                        } else {
                            toggle_fullscreen_transition(
                                #[trigger] old(self).monitors@[j],
                                self.monitors@[j],
                                window,
                            )
                        },
                    forall|j: int|
                        i as int <= j < n as int ==> #[trigger] self.monitors@[j] == old(
                            self,
                        ).monitors@[j],
                decreases n - i,
            {
                let ghost prev = *self;
                if action_code == 1 {
                    self.monitors[i].set_fullscreen(window);
                } else {
                    self.monitors[i].toggle_fullscreen(window);
                }
                proof {
                    Rwm::lemma_wf_after_one(prev, *self, i as int, None);
                }
                i = i + 1;
            }
        }
    }

    /// The first monitor whose rectangle holds the point, if any.
    fn monitor_at_point(&self, px: i32, py: i32) -> (r: Option<usize>)
        requires
            self.wf(),
        ensures
            match r {
                Some(i) => first_hit(self.spec_monitors(), px, py) == Some(i as int) && (
                i as int) < self.spec_monitors().len(),
                None => first_hit(self.spec_monitors(), px, py) is None,
            },
    {
        let mut i: usize = 0;
        while i < self.monitors.len()
            invariant
                self.wf(),
                i <= self.monitors@.len(),
                forall|j: int|
                    0 <= j < i as int ==> !point_in(
                        (#[trigger] self.monitors@[j]).spec_geometry(),
                        px as int,
                        py as int,
                    ),
            decreases self.monitors@.len() - i,
        {
            if self.monitors[i].contains(px, py) {
                proof {
                    lemma_first_hit_at(self.spec_monitors(), px, py, i as int);
                }
                return Some(i);
            }
            i = i + 1;
        }
        proof {
            lemma_first_hit_none(self.spec_monitors(), px, py);
        }
        None
    }

    /// The pointer entered a window. The monitor under the pointer
    /// becomes active (clearing focus when it changes), then the entered
    /// window is focused and a status redraw is requested.
    pub fn enter_notify(&mut self, window: u32, px: i32, py: i32) -> (acts: Vec<Action>)
        requires
            old(self).wf(),
        ensures
            final(self).wf(),
            final(self).spec_monitors() == old(self).spec_monitors(),
            final(self).spec_state() == old(self).spec_state(),
            old(self).same_tables(*final(self)),
            ({
                let hit = first_hit(old(self).spec_monitors(), px, py);
                let switch = hit is Some && hit->0 != old(self).spec_monitor();
                let mid_f = if switch {
                    None::<u32>
                } else {
                    old(self).spec_focused()
                };
                &&& final(self).spec_monitor() == if switch {
                    hit->0
                } else {
                    old(self).spec_monitor()
                }
                &&& final(self).spec_focused() == Some(window)
                &&& acts@ == (if switch {
                    focus_effect(old(self).spec_focused(), None)
                } else {
                    Seq::<Action>::empty()
                }) + focus_effect(mid_f, Some(window)) + seq![Action::RedrawStatus]
            }),
    {
        let mut acts: Vec<Action> = Vec::new();
        match self.monitor_at_point(px, py) {
            Some(i) => {
                if i != self.monitor {
                    self.monitor = i;
                    let mut cleared = self.focus(None);
                    acts.append(&mut cleared);
                }
            },
            None => {},
        }
        let mut focused = self.focus(Some(window));
        acts.append(&mut focused);
        acts.push(Action::RedrawStatus);
        proof {
            let hit = first_hit(old(self).spec_monitors(), px, py);
            let switch = hit is Some && hit->0 != old(self).spec_monitor();
            let mid_f = if switch {
                None::<u32>
            } else {
                old(self).spec_focused()
            };
            assert(acts@ =~= (if switch {
                focus_effect(old(self).spec_focused(), None)
            } else {
                Seq::<Action>::empty()
            }) + focus_effect(mid_f, Some(window)) + seq![Action::RedrawStatus]);
        }
        acts
    }

    /// The pointer moved. During a drag or resize, a motion applies only
    /// when at least the throttle interval passed since the last applied
    /// one; an applied motion moves (or resizes) the grabbed window by
    /// the delta from the anchor and re-anchors at the new position and
    /// time. When idle, the motion only tracks which monitor the pointer
    /// is on, clearing focus on a switch.
    pub fn motion_notify(&mut self, px: i32, py: i32, time: u32) -> (acts: Vec<Action>)
        requires
            old(self).wf(),
        ensures
            final(self).wf(),
            old(self).same_tables(*final(self)),
            match old(self).spec_state() {
                State::Dragging(w, ax, ay, t) => if throttle_passed(t, time) {
                    &&& final(self).spec_monitors().len() == old(self).spec_monitors().len()
                    &&& forall|j: int|
                        0 <= j < old(self).spec_monitors().len() ==> drag_transition(
                            #[trigger] old(self).spec_monitors()[j],
                            final(self).spec_monitors()[j],
                            w,
                            crate::clamp_i32(px as int - ax as int) as i32,
                            crate::clamp_i32(py as int - ay as int) as i32,
                        )
                    &&& final(self).spec_state() == State::Dragging(w, px, py, time)
                    &&& final(self).spec_monitor() == old(self).spec_monitor()
                    &&& final(self).spec_focused() == old(self).spec_focused()
                    &&& acts@ == Seq::<Action>::empty()
                } else {
                    *final(self) == *old(self) && acts@ == Seq::<Action>::empty()
                },
                State::Resizing(w, ax, ay, t) => if throttle_passed(t, time) {
                    &&& final(self).spec_monitors().len() == old(self).spec_monitors().len()
                    &&& forall|j: int|
                        0 <= j < old(self).spec_monitors().len() ==> resize_transition(
                            #[trigger] old(self).spec_monitors()[j],
                            final(self).spec_monitors()[j],
                            w,
                            crate::clamp_i32(px as int - ax as int) as i32,
                            crate::clamp_i32(py as int - ay as int) as i32,
                        )
                    &&& final(self).spec_state() == State::Resizing(w, px, py, time)
                    &&& final(self).spec_monitor() == old(self).spec_monitor()
                    &&& final(self).spec_focused() == old(self).spec_focused()
                    &&& acts@ == Seq::<Action>::empty()
                } else {
                    *final(self) == *old(self) && acts@ == Seq::<Action>::empty()
                },
                State::Idle => ({
                    let hit = first_hit(old(self).spec_monitors(), px, py);
                    let switch = hit is Some && hit->0 != old(self).spec_monitor();
                    &&& final(self).spec_monitors() == old(self).spec_monitors()
                    &&& final(self).spec_state() == State::Idle
                    &&& final(self).spec_monitor() == if switch {
                        hit->0
                    } else {
                        old(self).spec_monitor()
                    }
                    &&& final(self).spec_focused() == if switch {
                        None::<u32>
                    } else {
                        old(self).spec_focused()
                    }
                    &&& acts@ == if switch {
                        focus_effect(old(self).spec_focused(), None)
                    } else {
                        Seq::<Action>::empty()
                    }
                }),
            },
    {
        let acts: Vec<Action> = Vec::new();
        match self.state {
            State::Dragging(w, ax, ay, t) => {
                if t == 0 || elapsed(time, t) > MOTION_INTERVAL_MS {
                    let dx = crate::sub_clamped(px, ax);
                    let dy = crate::sub_clamped(py, ay);
                    let n = self.monitors.len();
                    let mut i: usize = 0;
                    while i < n
                        invariant
                            self.wf(),
                            i <= n,
                            n == self.monitors@.len(),
                            self.monitors@.len() == old(self).monitors@.len(),
                            self.monitor == old(self).monitor,
                            self.focused == old(self).focused,
                            self.state == old(self).state,
                            self.keys == old(self).keys,
                            self.buttons == old(self).buttons,
                            forall|j: int|
                                0 <= j < i as int ==> drag_transition(
                                    #[trigger] old(self).monitors@[j],
                                    self.monitors@[j],
                                    w,
                                    dx,
                                    dy,
                                ),
                            forall|j: int|
                                i as int <= j < n as int ==> #[trigger] self.monitors@[j] == old(
                                    self,
                                ).monitors@[j],
                        decreases n - i,
                    {
                        let ghost prev = *self;
                        self.monitors[i].drag(w, dx, dy);
                        proof {
                            Rwm::lemma_wf_after_one(prev, *self, i as int, None);
                        }
                        i = i + 1;
                    }
                    self.state = State::Dragging(w, px, py, time);
                }
                proof {
                    assert(acts@ =~= Seq::<Action>::empty());
                }
                acts
            },
            State::Resizing(w, ax, ay, t) => {
                if t == 0 || elapsed(time, t) > MOTION_INTERVAL_MS {
                    let dx = crate::sub_clamped(px, ax);
                    let dy = crate::sub_clamped(py, ay);
                    let n = self.monitors.len();
                    let mut i: usize = 0;
                    while i < n
                        invariant
                            self.wf(),
                            i <= n,
                            n == self.monitors@.len(),
                            self.monitors@.len() == old(self).monitors@.len(),
                            self.monitor == old(self).monitor,
                            self.focused == old(self).focused,
                            self.state == old(self).state,
                            self.keys == old(self).keys,
                            self.buttons == old(self).buttons,
                            forall|j: int|
                                0 <= j < i as int ==> resize_transition(
                                    #[trigger] old(self).monitors@[j],
                                    self.monitors@[j],
                                    w,
                                    dx,
                                    dy,
                                ),
                            forall|j: int|
                                i as int <= j < n as int ==> #[trigger] self.monitors@[j] == old(
                                    self,
                                ).monitors@[j],
                        decreases n - i,
                    {
                        let ghost prev = *self;
                        self.monitors[i].resize(w, dx, dy);
                        proof {
                            Rwm::lemma_wf_after_one(prev, *self, i as int, None);
                        }
                        i = i + 1;
                    }
                    self.state = State::Resizing(w, px, py, time);
                }
                proof {
                    assert(acts@ =~= Seq::<Action>::empty());
                }
                acts
            },
            State::Idle => {
                match self.monitor_at_point(px, py) {
                    Some(i) => {
                        if i != self.monitor {
                            self.monitor = i;
                            let cleared = self.focus(None);
                            proof {
                                assert(cleared@ =~= focus_effect(old(self).spec_focused(), None));
                            }
                            return cleared;
                        }
                    },
                    None => {},
                }
                proof {
                    assert(acts@ =~= Seq::<Action>::empty());
                }
                acts
            },
        }
    }

    /// Reconcile the monitor list with the physical outputs. Outputs
    /// grow the list or update geometry in place; when outputs shrank,
    /// each decommissioned monitor hands every client to the last
    /// surviving monitor before it is dropped, so none is lost. Any
    /// structural change resets the active monitor to the first.
    pub fn update_monitors(&mut self, screens: &Vec<Geometry>)
        requires
            old(self).wf(),
            1 <= screens@.len(),
            forall|i: int| 0 <= i < screens@.len() ==> geometry_valid(#[trigger] screens@[i]),
        ensures
            final(self).wf(),
            final(self).spec_focused() == old(self).spec_focused(),
            final(self).spec_state() == old(self).spec_state(),
            old(self).same_tables(*final(self)),
            final(self).spec_monitors().len() == screens@.len(),
            old(self).spec_monitors().len() <= screens@.len() ==> ({
                &&& forall|i: int|
                    0 <= i < old(self).spec_monitors().len() ==> if (#[trigger] old(
                        self,
                    ).spec_monitors()[i]).spec_geometry() == screens@[i] {
                        final(self).spec_monitors()[i] == old(self).spec_monitors()[i]
                    } else {
                        update_transition(
                            old(self).spec_monitors()[i],
                            final(self).spec_monitors()[i],
                            screens@[i],
                        )
                    }
                &&& forall|i: int|
                    old(self).spec_monitors().len() <= i < screens@.len() ==> ({
                        let m = #[trigger] final(self).spec_monitors()[i];
                        &&& m.spec_geometry() == screens@[i]
                        &&& m.spec_selected() == 0
                        &&& forall|t: int|
                            0 <= t < TAG_COUNT as int ==> #[trigger] m.tag_clients(t).len() == 0
                    })
                &&& final(self).spec_monitor() == if topology_dirty(
                    old(self).spec_monitors(),
                    screens@,
                ) {
                    0int
                } else {
                    old(self).spec_monitor()
                }
            }),
            old(self).spec_monitors().len() > screens@.len() ==> ({
                let keep = screens@.len() as int;
                &&& forall|i: int|
                    0 <= i < keep - 1 ==> #[trigger] final(self).spec_monitors()[i] == old(
                        self,
                    ).spec_monitors()[i]
                &&& final(self).spec_monitor() == 0
                &&& old(self).spec_monitors()[keep - 1].same_frame(
                    final(self).spec_monitors()[keep - 1],
                )
                &&& forall|v: u32|
                    #![trigger final(self).spec_monitors()[keep - 1].has_client(v)]
                    final(self).spec_monitors()[keep - 1].has_client(v) == exists|j: int|
                        keep - 1 <= j < old(self).spec_monitors().len() && (#[trigger] old(
                            self,
                        ).spec_monitors()[j]).has_client(v)
            }),
    {
        let n = self.monitors.len();
        if n <= screens.len() {
            let mut dirty = n < screens.len();
            let mut i: usize = 0;
            while i < screens.len()
                invariant
                    self.wf(),
                    i <= screens@.len(),
                    n == old(self).monitors@.len(),
                    n <= screens@.len(),
                    forall|k: int|
                        0 <= k < screens@.len() ==> geometry_valid(#[trigger] screens@[k]),
                    self.monitors@.len() == if i as int <= n as int {
                        n as int
                    } else {
                        i as int
                    },
                    self.monitor == old(self).monitor,
                    self.focused == old(self).focused,
                    self.state == old(self).state,
                    self.keys == old(self).keys,
                    self.buttons == old(self).buttons,
                    forall|k: int|
                        0 <= k < i as int && k < n as int ==> if (#[trigger] old(
                            self,
                        ).monitors@[k]).spec_geometry() == screens@[k] {
                            self.monitors@[k] == old(self).monitors@[k]
                        } else {
                            update_transition(
                                old(self).monitors@[k],
                                self.monitors@[k],
                                screens@[k],
                            )
                        },
                    forall|k: int|
                        n as int <= k < i as int ==> ({
                            let m = #[trigger] self.monitors@[k];
                            &&& m.spec_geometry() == screens@[k]
                            &&& m.spec_selected() == 0
                            &&& forall|t: int|
                                0 <= t < TAG_COUNT as int ==> #[trigger] m.tag_clients(t).len()
                                    == 0
                        }),
                    forall|k: int|
                        i as int <= k < n as int ==> #[trigger] self.monitors@[k] == old(
                            self,
                        ).monitors@[k],
                    dirty == (n < screens@.len() || exists|k: int|
                        0 <= k < i as int && k < n as int && (#[trigger] old(
                            self,
                        ).monitors@[k]).spec_geometry() != screens@[k]),
                decreases screens@.len() - i,
            {
                let g = screens[i];
                if i >= n {
                    let ghost prev = *self;
                    let fresh = Monitor::new(g.x, g.y, g.width, g.height);
                    proof {
                        crate::monitor::lemma_empty_has(fresh);
                    }
                    self.monitors.push(fresh);
                    proof {
                        assert forall|a: int, b: int, v: u32|
                            0 <= a < b < self.monitors@.len() implies !(
                        #[trigger] self.monitors@[a].has_client(v)
                            && #[trigger] self.monitors@[b].has_client(v)) by {
                            if b < prev.monitors@.len() {
                                assert(!(prev.monitors@[a].has_client(v)
                                    && prev.monitors@[b].has_client(v)));
                            } else {
                                assert(!fresh.has_client(v));
                            }
                        }
                    }
                } else {
                    let differs = {
                        let m = &self.monitors[i];
                        m.x() != g.x || m.y() != g.y || m.width() != g.width || m.height()
                            != g.height
                    };
                    if differs {
                        dirty = true;
                        let ghost prev = *self;
                        self.monitors[i].update(g.x, g.y, g.width, g.height);
                        proof {
                            Rwm::lemma_wf_after_one(prev, *self, i as int, None);
                        }
                    } else {
                        proof {
                            assert(self.monitors@[i as int].spec_geometry() == g);
                        }
                    }
                }
                i = i + 1;
            }
            if dirty {
                self.monitor = 0;
            }
        } else {
            self.monitor = 0;
            let keep = screens.len();
            while self.monitors.len() > keep
                invariant
                    self.wf(),
                    1 <= keep,
                    keep == screens@.len(),
                    keep <= self.monitors@.len(),
                    self.monitors@.len() <= old(self).monitors@.len(),
                    self.monitor == 0,
                    self.focused == old(self).focused,
                    self.state == old(self).state,
                    self.keys == old(self).keys,
                    self.buttons == old(self).buttons,
                    forall|k: int|
                        0 <= k < keep as int - 1 ==> #[trigger] self.monitors@[k] == old(
                            self,
                        ).monitors@[k],
                    forall|k: int|
                        keep as int <= k < self.monitors@.len() ==> #[trigger] self.monitors@[k]
                            == old(self).monitors@[k],
                    old(self).monitors@[keep as int - 1].same_frame(
                        self.monitors@[keep as int - 1],
                    ),
                    forall|v: u32|
                        #![trigger self.monitors@[keep as int - 1].has_client(v)]
                        self.monitors@[keep as int - 1].has_client(v) == exists|j: int|
                            (keep as int - 1 <= j < old(self).monitors@.len()) && (j == keep as int
                                - 1 || j >= self.monitors@.len()) && (#[trigger] old(
                                self,
                            ).monitors@[j]).has_client(v),
                decreases self.monitors@.len(),
            {
                let ghost prevlen = self.monitors@.len();
                match self.monitors.pop() {
                    None => {
                        proof {
                            assert(false);
                        }
                    },
                    Some(mut gone) => {
                        let ghost prev = *self;
                        proof {
                            assert(gone == old(self).monitors@[prevlen - 1]);
                            assert forall|v: u32|
                                !(gone.has_client(v) && self.monitors@[keep as int - 1].has_client(
                                v,
                            )) by {
                                if gone.has_client(v) && self.monitors@[keep as int
                                    - 1].has_client(v) {
                                    let j = choose|j: int|
                                        (keep as int - 1 <= j < old(self).monitors@.len()) && (j
                                            == keep as int - 1 || j >= prevlen) && (#[trigger] old(
                                            self,
                                        ).monitors@[j]).has_client(v);
                                    if j < prevlen - 1 {
                                        assert(!(old(self).monitors@[j].has_client(v) && old(
                                            self,
                                        ).monitors@[prevlen - 1].has_client(v)));
                                    } else if j > prevlen - 1 {
                                        assert(!(old(self).monitors@[prevlen - 1].has_client(v)
                                            && old(self).monitors@[j].has_client(v)));
                                    }
                                }
                            }
                            crate::monitor::lemma_has_disjoint_to_indexed(
                                gone,
                                self.monitors@[keep as int - 1],
                            );
                        }
                        let kidx = keep - 1;
                        gone.transfer(&mut self.monitors[kidx]);
                        proof {
                            assert forall|a: int, b: int, v: u32|
                                0 <= a < b < self.monitors@.len() implies !(
                            #[trigger] self.monitors@[a].has_client(v)
                                && #[trigger] self.monitors@[b].has_client(v)) by {
                                if self.monitors@[a].has_client(v) && self.monitors@[b].has_client(
                                    v,
                                ) {
                                    if a == keep as int - 1 {
                                        assert(prev.monitors@[a].has_client(v) || gone.has_client(
                                            v,
                                        ));
                                        assert(prev.monitors@[b] == self.monitors@[b]);
                                        if prev.monitors@[a].has_client(v) {
                                            assert(!(prev.monitors@[a].has_client(v)
                                                && prev.monitors@[b].has_client(v)));
                                        } else {
                                            assert(old(self).monitors@[b].has_client(v));
                                            let jj = choose|jj: int|
                                                (keep as int - 1 <= jj < old(
                                                    self,
                                                ).monitors@.len()) && (jj == keep as int - 1 || jj
                                                    >= prevlen) && (#[trigger] old(
                                                    self,
                                                ).monitors@[jj]).has_client(v);
                                            assert(gone.has_client(v));
                                        }
                                    } else if b == keep as int - 1 {
                                        assert(prev.monitors@[a] == self.monitors@[a]);
                                        assert(prev.monitors@[b].has_client(v) || gone.has_client(
                                            v,
                                        ));
                                        if prev.monitors@[b].has_client(v) {
                                            assert(!(prev.monitors@[a].has_client(v)
                                                && prev.monitors@[b].has_client(v)));
                                        } else {
                                            assert(old(self).monitors@[a].has_client(v));
                                            assert(old(self).monitors@[prevlen - 1].has_client(v));
                                            assert(a < prevlen - 1);
                                            assert(!(old(self).monitors@[a].has_client(v) && old(
                                                self,
                                            ).monitors@[prevlen - 1].has_client(v)));
                                        }
                                    } else {
                                        assert(prev.monitors@[a] == self.monitors@[a]);
                                        assert(prev.monitors@[b] == self.monitors@[b]);
                                        assert(!(prev.monitors@[a].has_client(v)
                                            && prev.monitors@[b].has_client(v)));
                                    }
                                }
                            }
                        }
                    },
                }
            }
        }
    }
}

} // verus!
