use haribote::descriptor_table::{GateDescriptor, SegmentDescriptor, AR_TSS32};
use haribote::keyboard::LockKeys;
use haribote::mouse::{MouseDec, MouseDecPhase};
use haribote::sheet::{Redraw, Sheet, SheetFlag, SheetManager};
use haribote::vga::{init_palette, to_color, Color, PALETTE_COLORS};

#[test]
fn mouse_decodes_packets_after_ack() {
    let mut m = MouseDec::new();
    assert_eq!(m.decode(0x08), None);
    assert_eq!(m.phase, MouseDecPhase::Start);
    assert_eq!(m.decode(0xfa), None);
    assert_eq!(m.phase, MouseDecPhase::First);
    // not a header byte: skipped
    assert_eq!(m.decode(0x00), None);
    assert_eq!(m.phase, MouseDecPhase::First);
    assert_eq!(m.decode(0x09), None);
    assert_eq!(m.decode(5), None);
    assert_eq!(m.decode(3), Some(()));
    assert_eq!((m.btn, m.x, m.y), (1, 5, -3));
    // negative motion in both directions
    assert_eq!(m.decode(0x38), None);
    assert_eq!(m.decode(0xfe), None);
    assert_eq!(m.decode(0xfd), Some(()));
    assert_eq!((m.btn, m.x, m.y), (0, -2, 3));
}

#[test]
fn vga_color_numbers() {
    assert_eq!(to_color(0), Some(Color::Black));
    assert_eq!(to_color(7), Some(Color::White));
    assert_eq!(to_color(15), Some(Color::DarkGray));
    assert_eq!(to_color(16), None);
    assert_eq!(to_color(-1), None);
}

#[test]
fn keyboard_lock_lamps() {
    let k = LockKeys { scroll_lock: true, num_lock: false, caps_lock: true };
    assert_eq!(k.as_bytes(), 5);
    let k = LockKeys::from_boot_info(0x70);
    assert_eq!(k, LockKeys { scroll_lock: true, num_lock: true, caps_lock: true });
    assert_eq!(k.as_bytes(), 7);
    assert_eq!(LockKeys::from_boot_info(0x20).as_bytes(), 2);
}

#[test]
fn descriptor_layout() {
    let d = SegmentDescriptor::new(103, 0x0012_3456, AR_TSS32);
    assert_eq!(d.limit_low, 103);
    assert_eq!(d.base_low, 0x3456);
    assert_eq!(d.base_mid, 0x12);
    assert_eq!(d.base_high, 0);
    assert_eq!(d.access_right, 0x89);
    assert_eq!(d.limit_high, 0);
    let d = SegmentDescriptor::new(0xffff_ffff, 0, 0x4092);
    assert_eq!(d.limit_low, 0xffff);
    assert_eq!(d.access_right, 0x92);
    assert_eq!(d.limit_high, 0xcf);
    let g = GateDescriptor::new(0x0028_1234, 16, 0x008e);
    assert_eq!((g.offset_low, g.offset_high, g.selector, g.access_right, g.dw_count), (0x1234, 0x28, 16, 0x8e, 0));
}

#[test]
fn sheet_stack_updown() {
    let mut sm = SheetManager::new(0, 320, 200);
    let a = sm.allocate().unwrap();
    let b = sm.allocate().unwrap();
    let c = sm.allocate().unwrap();
    sm.set_buf(a, 0x1000, 10, 20, None);
    assert_eq!(sm.get_buf_addr(a), 0x1000);
    assert_eq!(sm.z_max(), None);
    let r = sm.updown(a, Some(0));
    assert_eq!(
        r,
        vec![
            Redraw::Remap { x0: 0, y0: 0, x1: 10, y1: 20, z0: 0 },
            Redraw::Repaint { x0: 0, y0: 0, x1: 10, y1: 20, z0: 0, z_end: 1 },
        ]
    );
    sm.updown(b, Some(5));
    sm.updown(c, Some(1));
    assert_eq!(sm.sheets, vec![a, c, b]);
    assert_eq!(sm.sheets_data[b].z, Some(2));
    assert_eq!(sm.z_max(), Some(2));
    sm.updown(b, Some(0));
    assert_eq!(sm.sheets, vec![b, a, c]);
    assert_eq!(sm.sheets_data[a].z, Some(1));
    let r = sm.updown(a, None);
    assert_eq!(sm.sheets, vec![b, c]);
    assert_eq!(sm.sheets_data[a].z, None);
    assert_eq!(r[1], Redraw::Repaint { x0: 0, y0: 0, x1: 10, y1: 20, z0: 0, z_end: 1 });
    assert!(sm.updown(a, None).is_empty());
    sm.free(c);
    assert_eq!(sm.sheets, vec![b]);
    assert_eq!(sm.sheets_data[c].flag, SheetFlag::Available);
}

#[test]
fn sheet_moves_stay_on_screen() {
    let mut sm = SheetManager::new(0, 320, 200);
    let a = sm.allocate().unwrap();
    sm.set_buf(a, 0, 16, 16, Some(Color::DarkCyan));
    assert_eq!(sm.get_new_point(a, -5, 300), (0, 199));
    assert!(sm.slide_by_diff(a, 10, 20).is_empty());
    assert_eq!((sm.sheets_data[a].x, sm.sheets_data[a].y), (10, 20));
    sm.updown(a, Some(0));
    let r = sm.slide(a, 12, 22);
    assert_eq!(r.len(), 4);
    assert_eq!(r[1], Redraw::Remap { x0: 12, y0: 22, x1: 28, y1: 38, z0: 0 });
    assert_eq!(
        sm.refresh(a, 1, 1, 3, 3),
        vec![Redraw::Repaint { x0: 13, y0: 23, x1: 15, y1: 25, z0: 0, z_end: 1 }]
    );
    let mut s = Sheet::new();
    s.set(7, 2, 3, None);
    assert_eq!((s.buf_addr, s.width, s.height, s.flag), (7, 2, 3, SheetFlag::Available));
}

#[test]
fn vga_palette_bytes() {
    let p = init_palette();
    assert_eq!(p.len(), 3 * PALETTE_COLORS);
    assert_eq!(&p[0..6], &[0, 0, 0, 0x3f, 0, 0]);
    assert_eq!(&p[3 * 8..3 * 9], &[0x31, 0x31, 0x31]);
    // first entry of the cube is black, then red rises in steps of 51
    assert_eq!(&p[3 * 16..3 * 18], &[0, 0, 0, 12, 0, 0]);
    // r = 1, g = 2, b = 3
    let i = 16 + 1 + 2 * 6 + 3 * 36;
    assert_eq!(&p[3 * i..3 * i + 3], &[12, 25, 38]);
    assert_eq!(&p[3 * 231..], &[63, 63, 63]);
}
