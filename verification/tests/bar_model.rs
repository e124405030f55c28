use rwm::bar::{Tag, Tags};
use rwm::ffi::xcb_visualtype_t;

#[test]
fn tag_carries_width_and_text() {
    let t = Tag::new(42, "one");
    assert_eq!(t.width, 42);
    assert_eq!(t.text, "one");
}

#[test]
fn tags_width_is_sum_of_label_widths() {
    let strip = Tags::new(vec![Tag::new(10, "a"), Tag::new(20, "b"), Tag::new(12, "c")]);
    assert_eq!(strip.width, 42);
    assert_eq!(strip.tags.len(), 3);
}

#[test]
fn empty_strip_has_zero_width() {
    let strip = Tags::new(Vec::new());
    assert_eq!(strip.width, 0);
}

#[test]
fn visualtype_record_keeps_fields() {
    let v = xcb_visualtype_t::new(33, 4, 8, 256, 0xff0000, 0x00ff00, 0x0000ff);
    assert_eq!(v.visual_id, 33);
    assert_eq!(v.colormap_entries, 256);
    assert_eq!(v.red_mask, 0xff0000);
    assert_eq!(v.pad0, 0);
}
