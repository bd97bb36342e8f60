use rou2exos::init::process::rc_commands;
use rou2exos::api::idt::{IdtEntry64, IdtPointer};
use rou2exos::audio::midi::{midi_note_to_freq, pit_divisor, read_varlen, ticks_to_ms};
use rou2exos::fs::iso9660::fs::{names_match, strip_version, to_lower, to_upper};
use rou2exos::init::buffer::Buffer;
use rou2exos::init::color::{color_attribute, Color};
use rou2exos::init::cpu::{check, check_cpu_mode, mode_name, CpuMode};
use rou2exos::init::font::{draw_char_psf, draw_text_psf, parse_psf, PsfFont};
use rou2exos::init::idt::make_tss_descriptor;
use rou2exos::init::video::{map_framebuffer, FbTables};
use rou2exos::init::multiboot::{MULTIBOOT_MEMORY, MULTIBOOT_TAG_TYPE};
use rou2exos::init::result::{print_result, InitResult};
use rou2exos::mem::heap::HeapNodeStatus;
use rou2exos::tui::{Screen, TuiEvent};

#[test]
fn idt_gate_splits_handler() {
    let e = IdtEntry64::new(0x1122_3344_5566_7788, 0x08, 1, 0x8E);
    assert_eq!(e.offset_low, 0x7788);
    assert_eq!(e.offset_mid, 0x5566);
    assert_eq!(e.offset_high, 0x1122_3344);
    assert_eq!(e.selector, 0x08);
    assert_eq!(e.ist, 1);
    assert_eq!(e.type_attr, 0x8E);
    assert_eq!(e.zero, 0);
    let back = e.offset_low as u64 | (e.offset_mid as u64) << 16 | (e.offset_high as u64) << 32;
    assert_eq!(back, 0x1122_3344_5566_7788);
    let g = IdtEntry64::syscall_entry(0xFFFF_8000_0000_1000);
    assert_eq!(g.type_attr, 0xEE);
    assert_eq!(g.selector, 0x08);
    let p = IdtPointer::new(0xDEAD_0000);
    assert_eq!(p.limit, 4095);
    assert_eq!(p.base, 0xDEAD_0000);
}

#[test]
fn tss_descriptor_layout() {
    let d = make_tss_descriptor(0x1122_3344_5566_7788, 0x000A_BCDE);
    assert_eq!(d, [0xDE, 0xBC, 0x88, 0x77, 0x66, 0x89, 0x0A, 0x55, 0x44, 0x33, 0x22, 0x11, 0, 0, 0, 0]);
}

#[test]
fn cpu_modes() {
    assert!(check_cpu_mode(0, 0x8000_0008) == CpuMode::Real);
    assert!(check_cpu_mode(1, 0x8000_0008) == CpuMode::Long);
    assert!(check_cpu_mode(1, 0x8000_0000) == CpuMode::Protected);
    assert_eq!(mode_name(CpuMode::Long), "Long Mode (64-bit mode)");
    assert!(check(1, 0x8000_0001) == InitResult::Passed);
    assert!(check(1, 0x8000_0000) == InitResult::Failed);
    assert!(check(0, 0x8000_0001) == InitResult::Failed);
}

#[test]
fn multiboot_numbers() {
    assert!(MULTIBOOT_TAG_TYPE::from_number(8) == Some(MULTIBOOT_TAG_TYPE::MULTIBOOT_TAG_TYPE_FRAMEBUFFER));
    assert!(MULTIBOOT_TAG_TYPE::from_number(22) == None);
    assert!(MULTIBOOT_MEMORY::from_number(1) == Some(MULTIBOOT_MEMORY::MULTIBOOT_MEMORY_AVAILABLE));
    assert!(MULTIBOOT_MEMORY::from_number(0) == None);
    assert_eq!(HeapNodeStatus::USED.code(), 2);
}

#[test]
fn boot_log_lines() {
    let mut b = Buffer::new();
    print_result(&mut b, b"Load kernel", InitResult::Passed);
    let mut expected = b"Load kernel".to_vec();
    expected.extend(std::iter::repeat(b'.').take(60 - 11));
    expected.extend_from_slice(b" [  OK  ]\n");
    assert_eq!(&b.buf[..b.pos], &expected[..]);
    let (label, color) = InitResult::Failed.format();
    assert_eq!(&label, b" FAIL ");
    assert!(color == Color::Red);
}

#[test]
fn color_attributes() {
    assert_eq!(color_attribute(Color::White, Color::Black), 0x0F);
    assert_eq!(color_attribute(Color::Yellow, Color::Blue), 0x1E);
}

#[test]
fn psf_headers() {
    let mut psf1 = vec![0x36, 0x04, 0x00, 16];
    psf1.extend(vec![0u8; 16 * 256]);
    let f = parse_psf(&psf1).unwrap();
    assert_eq!(f.height, 16);
    assert_eq!(f.width, 8);
    assert_eq!(f.bytes_per_glyph, 16);
    assert_eq!(f.glyphs.len(), 16 * 256);
    let mut psf2 = vec![0u8; 32];
    psf2[0..4].copy_from_slice(&[0x72, 0xb5, 0x4a, 0x86]);
    psf2[8] = 32;
    psf2[20] = 8;
    psf2[24] = 8;
    psf2[28] = 8;
    psf2.extend(vec![0xFFu8; 8]);
    let g = parse_psf(&psf2).unwrap();
    assert_eq!(g.glyphs.len(), 8);
    assert_eq!(g.height, 8);
    assert!(parse_psf(&[1, 2, 3, 4]).is_none());
}

#[test]
fn glyph_pixels_row_major() {
    let glyphs = [0b1000_0001u8, 0b0100_0000u8];
    let font = PsfFont { glyphs: &glyphs, bytes_per_glyph: 2, height: 2, width: 8 };
    let px = draw_char_psf(&font, 0, 10, 3);
    assert_eq!(px, vec![3 * 1024 + 10 + 1, 3 * 1024 + 17 + 1, 4 * 1024 + 11 + 1]);
    assert_eq!(draw_char_psf(&font, 1, 0, 0), Vec::<usize>::new());
    let text = draw_text_psf(&[0, 0], &font, 0, 0);
    assert_eq!(text.len(), 6);
    assert_eq!(text[3], 8 + 1);
}

#[test]
fn midi_helpers() {
    assert_eq!(midi_note_to_freq(69), 440);
    assert_eq!(midi_note_to_freq(71), 494);
    assert_eq!(midi_note_to_freq(60), 262);
    assert_eq!(pit_divisor(440), 1_193_180 / 440);
    assert_eq!(ticks_to_ms(480, 480), 500);
    assert_eq!(read_varlen(&[0x81, 0x00]), (128, 2));
    assert_eq!(read_varlen(&[0x40]), (0x40, 1));
}

#[test]
fn iso_names() {
    assert_eq!(to_lower(b'A'), b'a');
    assert_eq!(to_upper(b'z'), b'Z');
    assert_eq!(strip_version(b"README.TXT;1"), b"README.TXT");
    assert!(names_match(b"README.TXT", b"readme.txt"));
    assert!(!names_match(b"README.TXT;1", b"readme.txt"));
    assert!(!names_match(b"README.TXT", b"readme.md"));
}

#[test]
fn tui_events_and_cells() {
    assert!(TuiEvent::from_scancode(0x01) == TuiEvent::Quit);
    assert!(TuiEvent::from_scancode(0x1E) == TuiEvent::Key(0x1E));
    assert_eq!(Screen::write_char(1, 2, b'x', 0x07), [(2 * 161, b'x'), (2 * 161 + 1, 0x07)]);
    let w = Screen::clear(0x1F);
    assert_eq!(w.len(), 4000);
    assert_eq!(w[3999], (3999, 0x1F));
    assert_eq!(w[3998], (3998, b' '));
}

#[test]
fn framebuffer_pages_mapped() {
    let mut t = FbTables { p4: [0; 512], p3: [0; 512], p2: vec![[0u64; 512]], p1: vec![[0u64; 512]] };
    map_framebuffer(0xfd00_0000, 0x1000, 4097, &mut t, 0x3000, &[0x4000], &[0x5000]);
    assert_eq!(t.p4[0], 0x3003);
    assert_eq!(t.p3[0], 0x4003);
    assert_eq!(t.p2[0][0], 0x5003);
    assert_eq!(t.p1[0][1], 0xfd00_0003);
    assert_eq!(t.p1[0][2], 0xfd00_1003);
    assert_eq!(t.p1[0][3], 0);
    // A present link is kept.
    let mut u = FbTables { p4: [0x7001; 512], p3: [0; 512], p2: vec![[0u64; 512]], p1: vec![[0u64; 512]] };
    map_framebuffer(0, 0, 4096, &mut u, 0x3000, &[0x4000], &[0x5000]);
    assert_eq!(u.p4[0], 0x7001);
    assert_eq!(u.p1[0][0], 3);
}

#[test]
fn rc_commands_skip_comments_and_blank_lines() {
    let script = b"# start-up\r\necho hi\r\n\nmount\n#off\nver\0echo never\n";
    let cmds = rc_commands(script);
    assert_eq!(cmds, vec![b"echo hi".to_vec(), b"mount".to_vec(), b"ver".to_vec()]);
}

#[test]
fn rc_commands_drop_unterminated_tail() {
    assert_eq!(rc_commands(b"dir\ncls"), vec![b"dir".to_vec()]);
    assert_eq!(rc_commands(b""), Vec::<Vec<u8>>::new());
    assert_eq!(rc_commands(&[0u8; 16]), Vec::<Vec<u8>>::new());
    assert_eq!(rc_commands(b"\r\n\r\necho\r\r\n"), vec![b"echo\r".to_vec()]);
}
