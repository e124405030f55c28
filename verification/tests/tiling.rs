use rwm::client::Client;
use rwm::config::{BORDER_WIDTH, MAIN_FACTOR_MAX, MAIN_FACTOR_MIN, TAG_COUNT};
use rwm::monitor::Monitor;

fn geom(c: &Client) -> (i32, i32, i32, i32) {
    (c.x, c.y, c.width, c.height)
}

fn tiled_client(handle: u32) -> Client {
    Client::new(handle, 10, 10, 50, 50, false, false)
}

#[test]
fn single_client_fills_monitor() {
    let mut m = Monitor::new(0, 0, 800, 600);
    m.map(tiled_client(1));
    let cs = m.clients_on(0);
    assert_eq!(cs.len(), 1);
    assert_eq!(
        geom(&cs[0]),
        (0, 0, 800 - 2 * BORDER_WIDTH, 600 - 2 * BORDER_WIDTH)
    );
}

#[test]
fn three_clients_master_stack() {
    let mut m = Monitor::new(0, 0, 800, 600);
    m.map(tiled_client(1));
    m.map(tiled_client(2));
    m.map(tiled_client(3));
    let cs = m.clients_on(0);
    assert_eq!(cs.len(), 3);
    // master: left column of 800 * 500 / 1000 = 400 pixels
    assert_eq!(geom(&cs[0]), (0, 0, 396, 596));
    // stack: right column, two rows of 300 pixels
    assert_eq!(geom(&cs[1]), (400, 0, 396, 296));
    assert_eq!(geom(&cs[2]), (400, 300, 396, 296));
}

#[test]
fn frames_partition_exactly() {
    // Outer frames (geometry plus twice the border) tile the monitor:
    // widths sum to the monitor width, stack heights sum to its height.
    let mut m = Monitor::new(0, 0, 801, 601);
    m.map(tiled_client(1));
    m.map(tiled_client(2));
    m.map(tiled_client(3));
    m.map(tiled_client(4));
    let cs = m.clients_on(0);
    let master_w = cs[0].width + 2 * BORDER_WIDTH;
    let stack_w = cs[1].width + 2 * BORDER_WIDTH;
    assert_eq!(master_w + stack_w, 801);
    let total_h: i32 = cs[1..]
        .iter()
        .map(|c| c.height + 2 * BORDER_WIDTH)
        .sum();
    assert_eq!(total_h, 601);
    // rows are adjacent
    assert_eq!(cs[2].y, cs[1].y + cs[1].height + 2 * BORDER_WIDTH);
    assert_eq!(cs[3].y, cs[2].y + cs[2].height + 2 * BORDER_WIDTH);
}

#[test]
fn floating_client_keeps_its_geometry() {
    let mut m = Monitor::new(0, 0, 800, 600);
    m.map(Client::new(7, 123, 45, 200, 100, false, true));
    m.map(tiled_client(8));
    let cs = m.clients_on(0);
    assert_eq!(geom(&cs[0]), (123, 45, 200, 100));
    // the tiled one is alone in the tiling and fills the monitor
    assert_eq!(geom(&cs[1]), (0, 0, 796, 596));
}

#[test]
fn fullscreen_client_forced_to_monitor_bounds() {
    let mut m = Monitor::new(10, 20, 800, 600);
    m.map(Client::new(9, 1, 2, 3, 4, true, false));
    let cs = m.clients_on(0);
    assert_eq!(geom(&cs[0]), (10, 20, 800, 600));
}

#[test]
fn view_reports_change_only_once() {
    let mut m = Monitor::new(0, 0, 800, 600);
    assert!(m.view(3));
    assert!(!m.view(3));
    assert!(m.view(0));
    assert_eq!(m.selected_tag(), 0);
}

#[test]
fn view_switches_visible_clients() {
    let mut m = Monitor::new(0, 0, 800, 600);
    m.map(tiled_client(1));
    m.view(5);
    m.map(tiled_client(2));
    assert_eq!(m.clients_on(5).len(), 1);
    assert_eq!(m.clients_on(5)[0].handle, 2);
    assert_eq!(m.clients_on(0).len(), 1);
    assert_eq!(m.clients_on(0)[0].handle, 1);
}

#[test]
fn swap_single_client_is_noop() {
    let mut m = Monitor::new(0, 0, 800, 600);
    m.map(tiled_client(1));
    let before = m.clients_on(0).clone();
    m.swap(1);
    assert_eq!(*m.clients_on(0), before);
}

#[test]
fn swap_promotes_to_master_and_demotes_old_master() {
    let mut m = Monitor::new(0, 0, 800, 600);
    m.map(tiled_client(1));
    m.map(tiled_client(2));
    m.map(tiled_client(3));
    m.swap(3);
    let cs = m.clients_on(0);
    assert_eq!(cs[0].handle, 3);
    assert_eq!(cs[1].handle, 1); // prior master first in the stack
    assert_eq!(cs[2].handle, 2);
    // geometries recomputed for the new order
    assert_eq!(geom(&cs[0]), (0, 0, 396, 596));
    assert_eq!(geom(&cs[1]), (400, 0, 396, 296));
}

#[test]
fn swap_ignores_floating_clients() {
    let mut m = Monitor::new(0, 0, 800, 600);
    m.map(tiled_client(1));
    m.map(Client::new(2, 5, 5, 10, 10, false, true));
    let before = m.clients_on(0).clone();
    m.swap(2);
    assert_eq!(*m.clients_on(0), before);
}

#[test]
fn unmap_absent_handle_changes_nothing() {
    let mut m = Monitor::new(0, 0, 800, 600);
    m.map(tiled_client(1));
    m.map(tiled_client(2));
    let before = m.clients_on(0).clone();
    let sel = m.selected_tag();
    m.unmap(999);
    assert_eq!(*m.clients_on(0), before);
    assert_eq!(m.selected_tag(), sel);
}

#[test]
fn unmap_retiles_remaining_clients() {
    let mut m = Monitor::new(0, 0, 800, 600);
    m.map(tiled_client(1));
    m.map(tiled_client(2));
    m.unmap(1);
    let cs = m.clients_on(0);
    assert_eq!(cs.len(), 1);
    assert_eq!(cs[0].handle, 2);
    assert_eq!(geom(&cs[0]), (0, 0, 796, 596));
}

#[test]
fn toggle_floating_twice_restores_layout() {
    let mut m = Monitor::new(0, 0, 800, 600);
    m.map(tiled_client(1));
    m.map(tiled_client(2));
    m.map(tiled_client(3));
    let before = m.clients_on(0).clone();
    m.toggle_floating(2);
    assert!(m.clients_on(0)[1].floating);
    m.toggle_floating(2);
    assert_eq!(*m.clients_on(0), before);
}

#[test]
fn main_factor_converges_to_bounds() {
    let mut m = Monitor::new(0, 0, 1000, 600);
    m.map(tiled_client(1));
    m.map(tiled_client(2));
    // push far up: master width saturates at MAIN_FACTOR_MAX thousandths
    for _ in 0..10 {
        m.main_factor(300);
    }
    let w_max = m.clients_on(0)[0].width + 2 * BORDER_WIDTH;
    assert_eq!(w_max as i64, 1000 * MAIN_FACTOR_MAX as i64 / 1000);
    // and far down: saturates at MAIN_FACTOR_MIN
    for _ in 0..10 {
        m.main_factor(-300);
    }
    let w_min = m.clients_on(0)[0].width + 2 * BORDER_WIDTH;
    assert_eq!(w_min as i64, 1000 * MAIN_FACTOR_MIN as i64 / 1000);
}

#[test]
fn tag_moves_client_between_tags() {
    let mut m = Monitor::new(0, 0, 800, 600);
    m.map(tiled_client(1));
    m.map(tiled_client(2));
    m.tag(4, 1);
    assert_eq!(m.clients_on(0).len(), 1);
    assert_eq!(m.clients_on(0)[0].handle, 2);
    assert_eq!(m.clients_on(4).len(), 1);
    assert_eq!(m.clients_on(4)[0].handle, 1);
    assert_eq!(m.clients_on(4)[0].tag, 4);
}

#[test]
fn transfer_moves_every_client() {
    let mut a = Monitor::new(0, 0, 800, 600);
    let mut b = Monitor::new(800, 0, 800, 600);
    a.map(tiled_client(1));
    a.view(2);
    a.map(tiled_client(2));
    b.map(tiled_client(3));
    a.transfer(&mut b);
    for t in 0..TAG_COUNT {
        assert_eq!(a.clients_on(t).len(), 0);
    }
    assert!(b.has_window(1));
    assert!(b.has_window(2));
    assert!(b.has_window(3));
}

#[test]
fn drag_moves_only_floating_clients() {
    let mut m = Monitor::new(0, 0, 800, 600);
    m.map(Client::new(1, 100, 100, 50, 50, false, true));
    m.map(tiled_client(2));
    let tiled_before = m.clients_on(0)[1].clone();
    m.drag(1, 20, 30);
    m.drag(2, 20, 30);
    let cs = m.clients_on(0);
    assert_eq!((cs[0].x, cs[0].y), (120, 130));
    assert_eq!(cs[1], tiled_before);
}

#[test]
fn resize_grows_floating_client() {
    let mut m = Monitor::new(0, 0, 800, 600);
    m.map(Client::new(1, 100, 100, 50, 50, false, true));
    m.resize(1, 10, -5);
    let cs = m.clients_on(0);
    assert_eq!((cs[0].width, cs[0].height), (60, 45));
}

#[test]
fn configure_request_granted_to_floating_only() {
    let mut m = Monitor::new(0, 0, 800, 600);
    m.map(Client::new(1, 100, 100, 50, 50, false, true));
    m.map(tiled_client(2));
    m.configure_request(1, true, false, 320, 999);
    m.configure_request(2, true, true, 10, 10);
    let cs = m.clients_on(0);
    assert_eq!((cs[0].width, cs[0].height), (320, 50));
    // the tiled client keeps the authoritative tiling geometry
    assert_eq!((cs[1].width, cs[1].height), (796, 596));
}

#[test]
fn contains_tests_monitor_bounds() {
    let m = Monitor::new(100, 50, 800, 600);
    assert!(m.contains(100, 50));
    assert!(m.contains(899, 649));
    assert!(!m.contains(900, 50));
    assert!(!m.contains(99, 50));
    assert!(!m.contains(100, 650));
}

#[test]
fn add_reanchors_offset_into_destination() {
    let mut b = Monitor::new(1000, 0, 800, 600);
    // the client sat 150 pixels right of, 40 below, its old origin (0, 0)
    let c = Client::new(5, 150, 40, 60, 60, false, true);
    b.add(c, 0, 0);
    let cs = b.clients_on(0);
    assert_eq!((cs[0].x, cs[0].y), (1150, 40));
}

#[test]
fn set_fullscreen_is_idempotent() {
    let mut m = Monitor::new(0, 0, 800, 600);
    m.map(tiled_client(1));
    m.set_fullscreen(1);
    let once = m.clients_on(0).clone();
    m.set_fullscreen(1);
    assert_eq!(*m.clients_on(0), once);
    assert_eq!(geom(&m.clients_on(0)[0]), (0, 0, 800, 600));
}
