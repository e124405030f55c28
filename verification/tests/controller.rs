use rwm::buttons::ButtonCombo;
use rwm::keys::{KeyCombo, Keymap};
use rwm::layout::Geometry;
use rwm::rwm::{Action, Command, Rwm, State};

fn screen(x: i32, y: i32, width: i32, height: i32) -> Geometry {
    Geometry { x, y, width, height }
}

fn fresh_wm() -> Rwm {
    let mut wm = Rwm::new(Vec::new(), Vec::new());
    wm.update_monitors(&vec![screen(0, 0, 800, 600)]);
    wm
}

fn plain_hints() -> Vec<u32> {
    vec![0; 10]
}

fn fixed_hints(x: u32, y: u32, w: u32, h: u32) -> Vec<u32> {
    let mut d = vec![0u32; 10];
    d[1] = x;
    d[2] = y;
    d[5] = w;
    d[6] = h;
    d[7] = w;
    d[8] = h;
    d
}

#[test]
fn focus_same_target_issues_nothing() {
    let mut wm = fresh_wm();
    let first = wm.focus(Some(7));
    assert_eq!(
        first,
        vec![Action::SetBorderHighlight(7), Action::SetInputFocus(7)]
    );
    let again = wm.focus(Some(7));
    assert!(again.is_empty());
    assert_eq!(wm.focused_window(), Some(7));
}

#[test]
fn focus_switch_restores_old_border_first() {
    let mut wm = fresh_wm();
    wm.focus(Some(7));
    let acts = wm.focus(Some(9));
    assert_eq!(
        acts,
        vec![
            Action::SetBorderNormal(7),
            Action::SetBorderHighlight(9),
            Action::SetInputFocus(9),
        ]
    );
    let cleared = wm.focus(None);
    assert_eq!(cleared, vec![Action::SetBorderNormal(9)]);
    assert_eq!(wm.focused_window(), None);
}

#[test]
fn map_request_uses_geometry_for_ordinary_windows() {
    let mut wm = fresh_wm();
    wm.map_request(1, &plain_hints(), 5, 6, 300, 200, false, false);
    let m = wm.monitor_at(0);
    let cs = m.clients_on(0);
    assert_eq!(cs.len(), 1);
    assert!(!cs[0].floating);
    // immediately tiled: alone on the tag, it fills the monitor
    assert_eq!((cs[0].x, cs[0].y), (0, 0));
}

#[test]
fn map_request_fixed_size_becomes_floating_at_hinted_position() {
    let mut wm = fresh_wm();
    wm.map_request(2, &fixed_hints(40, 50, 111, 222), 0, 0, 1, 1, false, false);
    let cs = wm.monitor_at(0).clients_on(0);
    assert!(cs[0].floating);
    assert_eq!((cs[0].x, cs[0].y), (40, 50));
    assert_eq!((cs[0].width, cs[0].height), (111, 222));
}

#[test]
fn map_request_dialog_becomes_floating() {
    let mut wm = fresh_wm();
    wm.map_request(3, &plain_hints(), 10, 20, 100, 90, false, true);
    let cs = wm.monitor_at(0).clients_on(0);
    assert!(cs[0].floating);
    assert_eq!((cs[0].x, cs[0].y), (10, 20));
}

#[test]
fn map_request_already_managed_window_is_ignored() {
    let mut wm = fresh_wm();
    wm.map_request(1, &plain_hints(), 0, 0, 10, 10, false, false);
    wm.map_request(1, &plain_hints(), 0, 0, 99, 99, false, true);
    assert_eq!(wm.monitor_at(0).clients_on(0).len(), 1);
    assert!(!wm.monitor_at(0).clients_on(0)[0].floating);
}

#[test]
fn unmap_notify_clears_focus_and_redraws() {
    let mut wm = fresh_wm();
    wm.map_request(1, &plain_hints(), 0, 0, 10, 10, false, false);
    wm.focus(Some(1));
    let acts = wm.unmap_notify(1);
    assert_eq!(acts, vec![Action::RedrawStatus]);
    assert_eq!(wm.focused_window(), None);
    assert!(!wm.monitor_at(0).has_window(1));
}

#[test]
fn unmap_notify_unknown_window_is_silent() {
    let mut wm = fresh_wm();
    wm.map_request(1, &plain_hints(), 0, 0, 10, 10, false, false);
    let before = wm.monitor_at(0).clients_on(0).clone();
    let acts = wm.unmap_notify(42);
    assert!(acts.is_empty());
    assert_eq!(*wm.monitor_at(0).clients_on(0), before);
}

#[test]
fn drag_scenario_throttles_and_reanchors() {
    let mut wm = fresh_wm();
    wm.map_request(1, &plain_hints(), 100, 100, 50, 50, false, true);
    wm.focus(Some(1));
    let acts = wm.drag(100, 100);
    assert_eq!(acts, vec![Action::GrabPointerDrag]);
    assert_eq!(wm.interaction(), State::Dragging(1, 100, 100, 0));

    // first motion always applies (no applied motion yet) and records T
    wm.motion_notify(100, 100, 1000);
    assert_eq!(wm.interaction(), State::Dragging(1, 100, 100, 1000));

    // 10 ms after T: below the ~16 ms threshold, nothing applied,
    // anchor not updated
    wm.motion_notify(120, 130, 1010);
    assert_eq!(wm.interaction(), State::Dragging(1, 100, 100, 1000));
    let c = wm.monitor_at(0).clients_on(0)[0];
    assert_eq!((c.x, c.y), (100, 100));

    // 20 ms after T: applies the whole delta from the prior anchor in
    // one step and re-anchors
    wm.motion_notify(120, 130, 1020);
    assert_eq!(wm.interaction(), State::Dragging(1, 120, 130, 1020));
    let c = wm.monitor_at(0).clients_on(0)[0];
    assert_eq!((c.x, c.y), (120, 130));
}

#[test]
fn button_release_always_returns_to_idle() {
    let mut wm = fresh_wm();
    wm.map_request(1, &plain_hints(), 0, 0, 10, 10, false, true);
    wm.focus(Some(1));
    wm.resize(10, 10);
    assert_eq!(wm.interaction(), State::Resizing(1, 10, 10, 0));
    let acts = wm.button_release();
    assert_eq!(acts, vec![Action::UngrabPointer]);
    assert_eq!(wm.interaction(), State::Idle);
}

#[test]
fn kill_prefers_graceful_delete() {
    let mut wm = fresh_wm();
    wm.focus(Some(5));
    assert_eq!(wm.kill(true), vec![Action::SendDelete(5)]);
    assert_eq!(wm.kill(false), vec![Action::ForceKill(5)]);
    wm.focus(None);
    assert!(wm.kill(true).is_empty());
}

#[test]
fn view_command_clears_focus_and_redraws() {
    let mut wm = fresh_wm();
    wm.map_request(1, &plain_hints(), 0, 0, 10, 10, false, false);
    wm.focus(Some(1));
    let acts = wm.view(3);
    assert_eq!(
        acts,
        vec![Action::SetBorderNormal(1), Action::RedrawStatus]
    );
    assert_eq!(wm.focused_window(), None);
    // repeated view of the same tag is a complete no-op
    let none = wm.view(3);
    assert!(none.is_empty());
}

#[test]
fn topology_shrink_loses_no_client() {
    let mut wm = Rwm::new(Vec::new(), Vec::new());
    wm.update_monitors(&vec![screen(0, 0, 800, 600), screen(800, 0, 800, 600)]);
    assert_eq!(wm.monitor_count(), 2);
    wm.map_request(1, &plain_hints(), 0, 0, 10, 10, false, false);
    // pointer moves onto the second monitor: it becomes active
    wm.enter_notify(1, 900, 10);
    assert_eq!(wm.active_monitor(), 1);
    wm.map_request(2, &plain_hints(), 810, 0, 10, 10, false, false);
    assert!(wm.monitor_at(1).has_window(2));

    wm.update_monitors(&vec![screen(0, 0, 800, 600)]);
    assert_eq!(wm.monitor_count(), 1);
    assert_eq!(wm.active_monitor(), 0);
    assert!(wm.monitor_at(0).has_window(1));
    assert!(wm.monitor_at(0).has_window(2));
}

#[test]
fn topology_growth_adds_fresh_monitors() {
    let mut wm = fresh_wm();
    wm.map_request(1, &plain_hints(), 0, 0, 10, 10, false, false);
    wm.update_monitors(&vec![screen(0, 0, 800, 600), screen(800, 0, 640, 480)]);
    assert_eq!(wm.monitor_count(), 2);
    assert!(wm.monitor_at(0).has_window(1));
    assert_eq!(wm.monitor_at(1).width(), 640);
    assert_eq!(wm.active_monitor(), 0);
}

#[test]
fn topology_geometry_update_in_place() {
    let mut wm = fresh_wm();
    wm.map_request(1, &plain_hints(), 0, 0, 10, 10, false, false);
    wm.update_monitors(&vec![screen(0, 0, 1024, 768)]);
    assert_eq!(wm.monitor_count(), 1);
    assert_eq!(wm.monitor_at(0).width(), 1024);
    // the tiled client was re-arranged against the new bounds
    let c = wm.monitor_at(0).clients_on(0)[0];
    assert_eq!(c.width + 4, 1024);
}

#[test]
fn tagmon_moves_focused_window_to_next_monitor() {
    let mut wm = Rwm::new(Vec::new(), Vec::new());
    wm.update_monitors(&vec![screen(0, 0, 800, 600), screen(800, 0, 800, 600)]);
    wm.map_request(1, &plain_hints(), 0, 0, 10, 10, false, false);
    wm.focus(Some(1));
    let acts = wm.tagmon();
    assert_eq!(acts, vec![Action::SetBorderNormal(1)]);
    assert!(!wm.monitor_at(0).has_window(1));
    assert!(wm.monitor_at(1).has_window(1));
    assert_eq!(wm.focused_window(), None);
}

#[test]
fn property_notify_dialog_forces_floating() {
    let mut wm = fresh_wm();
    wm.map_request(1, &plain_hints(), 0, 0, 10, 10, false, false);
    let acts = wm.property_notify(1, true, true);
    assert!(acts.is_empty());
    assert!(wm.monitor_at(0).clients_on(0)[0].floating);
    // any other property change is a status update
    let acts = wm.property_notify(1, false, false);
    assert_eq!(acts, vec![Action::RedrawStatus]);
}

#[test]
fn client_message_sets_or_toggles_fullscreen() {
    let mut wm = fresh_wm();
    wm.map_request(1, &plain_hints(), 0, 0, 10, 10, false, false);
    wm.client_message(1, true, true, 1);
    assert!(wm.monitor_at(0).clients_on(0)[0].fullscreen);
    // a set request is idempotent
    wm.client_message(1, true, true, 1);
    assert!(wm.monitor_at(0).clients_on(0)[0].fullscreen);
    // any other action code toggles
    wm.client_message(1, true, true, 2);
    assert!(!wm.monitor_at(0).clients_on(0)[0].fullscreen);
    // unrelated messages change nothing
    wm.client_message(1, false, true, 1);
    assert!(!wm.monitor_at(0).clients_on(0)[0].fullscreen);
}

#[test]
fn swap_command_acts_on_focused_window() {
    let mut wm = fresh_wm();
    wm.map_request(1, &plain_hints(), 0, 0, 10, 10, false, false);
    wm.map_request(2, &plain_hints(), 0, 0, 10, 10, false, false);
    wm.focus(Some(2));
    wm.swap();
    let cs = wm.monitor_at(0).clients_on(0);
    assert_eq!(cs[0].handle, 2);
    assert_eq!(cs[1].handle, 1);
}

#[test]
fn key_table_lookup_finds_first_binding() {
    let keys = vec![
        (KeyCombo::new(8, 100), Command::View(3)),
        (KeyCombo::new(8, 101), Command::Quit),
        (KeyCombo::new(8, 100), Command::Kill),
    ];
    let wm = Rwm::new(keys, Vec::new());
    assert_eq!(wm.key_press(8, 100), Some(&Command::View(3)));
    assert_eq!(wm.key_press(8, 101), Some(&Command::Quit));
    assert_eq!(wm.key_press(9, 100), None);
}

#[test]
fn button_table_lookup() {
    let buttons = vec![
        (ButtonCombo::new(64, 1), Command::Drag),
        (ButtonCombo::new(64, 3), Command::Resize),
    ];
    let wm = Rwm::new(Vec::new(), buttons);
    assert_eq!(wm.button_press(64, 1), Some(&Command::Drag));
    assert_eq!(wm.button_press(64, 3), Some(&Command::Resize));
    assert_eq!(wm.button_press(64, 2), None);
}

#[test]
fn keymap_roundtrip() {
    // keycodes 8 and 9, two symbols each
    let map = Keymap::new(vec![120, 0, 121, 0], 8, 2);
    assert_eq!(map.get_keysym(8), 120);
    assert_eq!(map.get_keysym(9), 121);
    assert_eq!(map.get_keycode(121), 9);
    assert_eq!(map.get_keycode(120), 8);
    assert_eq!(map.get_keycode(999), 0);
}

#[test]
fn motion_while_idle_tracks_monitor_under_pointer() {
    let mut wm = Rwm::new(Vec::new(), Vec::new());
    wm.update_monitors(&vec![screen(0, 0, 800, 600), screen(800, 0, 800, 600)]);
    wm.focus(Some(1));
    let acts = wm.motion_notify(900, 10, 5);
    assert_eq!(wm.active_monitor(), 1);
    assert_eq!(acts, vec![Action::SetBorderNormal(1)]);
    // staying on the same monitor changes nothing
    let acts = wm.motion_notify(901, 11, 6);
    assert!(acts.is_empty());
    assert_eq!(wm.active_monitor(), 1);
}
