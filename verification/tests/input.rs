use rou2exos::input::cmd::{
    find_cmd, join_path, parent_path, parse_u64, program_name, split_cmd, to_uppercase_ascii, txt_file_name,
    uptime_parts, CommandKind, time_report, clock_line,
};
use rou2exos::input::elf::{elf_file_name, push_user_args};
use rou2exos::input::keyboard::{move_cursor, move_cursor_index, pad_prefix, position, KeyAction, KeyboardState, LineEditor};
use rou2exos::input::keyboard;
use rou2exos::input::mouse::{MouseAssembler, MouseReceptors};

#[test]
fn shell_split_at_first_space() {
    assert_eq!(split_cmd(b"write a.txt hello"), (&b"write"[..], &b"a.txt hello"[..]));
    assert_eq!(split_cmd(b"dir"), (&b"dir"[..], &b""[..]));
    assert_eq!(split_cmd(b"echo "), (&b"echo"[..], &b""[..]));
}

#[test]
fn keyboard_split_skips_spaces_and_stops_at_nul() {
    assert_eq!(keyboard::split_cmd(b"cd   docs\0junk"), (&b"cd"[..], &b"docs"[..]));
    assert_eq!(keyboard::split_cmd(b"ls\0 x"), (&b"ls"[..], &b""[..]));
    assert_eq!(keyboard::_split_cmd(b"one"), (&b""[..], &b"one"[..]));
    assert_eq!(keyboard::_split_cmd(b"a b c"), (&b"a"[..], &b"b c"[..]));
}

#[test]
fn parse_decimal_numbers() {
    assert_eq!(parse_u64(b"0"), Some(0));
    assert_eq!(parse_u64(b"12345"), Some(12345));
    assert_eq!(parse_u64(b""), Some(0));
    assert_eq!(parse_u64(b"12a"), None);
    assert_eq!(parse_u64(b"18446744073709551615"), Some(u64::MAX));
    assert_eq!(parse_u64(b"18446744073709551616"), None);
}

#[test]
fn uppercase_in_place() {
    let mut n = *b"readme  txt";
    to_uppercase_ascii(&mut n);
    assert_eq!(&n, b"README  TXT");
}

#[test]
fn commands_by_name() {
    assert!(find_cmd(b"dir") == Some(CommandKind::Dir));
    assert!(find_cmd(b"uptime") == Some(CommandKind::Uptime));
    assert!(find_cmd(b"mkdir") == Some(CommandKind::Mkdir));
    assert!(find_cmd(b"DIR") == None);
    assert!(find_cmd(b"") == None);
}

#[test]
fn paths_join_and_climb() {
    assert_eq!(join_path(b"/", b"docs", 32), b"/docs".to_vec());
    assert_eq!(join_path(b"/docs", b"a", 32), b"/docs/a".to_vec());
    assert_eq!(join_path(b"/abc", b"defgh", 6), b"/abc/d".to_vec());
    assert_eq!(parent_path(b"/docs/a"), b"/docs".to_vec());
    assert_eq!(parent_path(b"/docs"), b"/".to_vec());
    assert_eq!(parent_path(b"docs"), b"/".to_vec());
}

#[test]
fn uptime_split() {
    assert_eq!(uptime_parts(0), (0, 0, 0));
    assert_eq!(uptime_parts(3661), (1, 1, 1));
    assert_eq!(uptime_parts(7325), (2, 2, 5));
}

#[test]
fn write_command_file_name() {
    assert_eq!(&txt_file_name(b"notes"), b"NOTES   TXT");
    assert_eq!(&txt_file_name(b"a"), b"A       TXT");
}

#[test]
fn program_names() {
    assert_eq!(program_name(b"hello.elf arg", 12), Some(&b"hello.elf"[..]));
    assert_eq!(program_name(b"", 12), None);
    assert_eq!(program_name(b"averyverylongname", 12), None);
}

#[test]
fn elf_names() {
    assert_eq!(elf_file_name(b"hello"), Some(b"hello.elf".to_vec()));
    assert_eq!(elf_file_name(b"prog.bin"), Some(b"prog.bin".to_vec()));
    assert_eq!(elf_file_name(b""), None);
}

#[test]
fn scancodes_with_modifiers() {
    let mut k = KeyboardState::new();
    assert_eq!(k.scancode_to_ascii(0x1E), Some(b'a'));
    assert_eq!(k.scancode_to_ascii(0x2A), None);
    assert_eq!(k.scancode_to_ascii(0x1E), Some(b'A'));
    assert_eq!(k.scancode_to_ascii(0x02), Some(b'!'));
    assert_eq!(k.scancode_to_ascii(0xAA), None);
    assert_eq!(k.scancode_to_ascii(0x3A), None);
    assert_eq!(k.scancode_to_ascii(0x1E), Some(b'A'));
    assert_eq!(k.scancode_to_ascii(0x2A), None);
    assert_eq!(k.scancode_to_ascii(0x1E), Some(b'a'));
    assert_eq!(k.scancode_to_ascii(0x1C), Some(b'\n'));
    assert_eq!(k.scancode_to_ascii(0x39), Some(b' '));
    assert_eq!(k.scancode_to_ascii(0x0E), Some(8));
    assert_eq!(k.scancode_to_ascii(0x58), None);
}

#[test]
fn cursor_position() {
    assert_eq!(move_cursor_index(0), (0, 0));
    assert_eq!(move_cursor_index(2 * 81), (1, 1));
    let w = move_cursor(24, 79);
    assert_eq!(w, [(0x3D4, 0x0E), (0x3D5, 0x07), (0x3D4, 0x0F), (0x3D5, 0xCF)]);
}

#[test]
fn prefix_padding() {
    assert_eq!(&pad_prefix(b"rea"), b"REA        ");
    assert_eq!(&pad_prefix(b"a.t"), b"A       T  ");
    assert_eq!(position(b"ab cd", b' '), 2);
    assert_eq!(position(b"abcd", b' '), 4);
}

#[test]
fn mouse_packets_start_on_sync_bit() {
    let mut m = MouseAssembler::new();
    assert_eq!(m.push_byte(0x00), None);
    assert_eq!(m.push_byte(0x09), None);
    assert_eq!(m.push_byte(5), None);
    assert_eq!(m.push_byte(250), Some([0x09, 5, 250]));
}

fn editor_submit(ed: &mut LineEditor) -> Vec<u8> {
    match ed.on_scancode(0x1C) {
        KeyAction::Submit(line) => line,
        _ => panic!("enter did not submit"),
    }
}

#[test]
fn line_editor_types_and_submits() {
    let mut ed = LineEditor::new();
    assert!(matches!(ed.on_scancode(0x26), KeyAction::Echo(b'l')));
    assert!(matches!(ed.on_scancode(0x1F), KeyAction::Echo(b's')));
    assert_eq!(editor_submit(&mut ed), b"ls".to_vec());
    assert_eq!(ed.len, 0);
    assert_eq!(editor_submit(&mut ed), Vec::<u8>::new());
}

#[test]
fn line_editor_backspace() {
    let mut ed = LineEditor::new();
    assert!(matches!(ed.on_scancode(0x0E), KeyAction::Nothing));
    assert!(matches!(ed.on_scancode(0x1E), KeyAction::Echo(b'a')));
    assert!(matches!(ed.on_scancode(0x30), KeyAction::Echo(b'b')));
    assert!(matches!(ed.on_scancode(0x0E), KeyAction::Erase));
    assert_eq!(editor_submit(&mut ed), b"a".to_vec());
}

#[test]
fn line_editor_ctrl_l_clears() {
    let mut ed = LineEditor::new();
    ed.on_scancode(0x1E);
    assert!(matches!(ed.on_scancode(0x1D), KeyAction::Nothing));
    assert!(matches!(ed.on_scancode(0x26), KeyAction::ClearScreen));
    assert_eq!(ed.len, 0);
    assert!(matches!(ed.on_scancode(0x9D), KeyAction::Nothing));
    assert!(matches!(ed.on_scancode(0x26), KeyAction::Echo(b'l')));
}

#[test]
fn line_editor_shift_and_release() {
    let mut ed = LineEditor::new();
    assert!(matches!(ed.on_scancode(0x2A), KeyAction::Nothing));
    assert!(matches!(ed.on_scancode(0x1E), KeyAction::Echo(b'A')));
    assert!(matches!(ed.on_scancode(0x02), KeyAction::Echo(b'!')));
    assert!(matches!(ed.on_scancode(0xAA), KeyAction::Nothing));
    assert!(matches!(ed.on_scancode(0x1E), KeyAction::Echo(b'a')));
    assert!(matches!(ed.on_scancode(0x9E), KeyAction::Nothing));
    assert!(matches!(ed.on_scancode(0x0F), KeyAction::Complete));
    assert_eq!(editor_submit(&mut ed), b"A!a".to_vec());
}

#[test]
fn line_editor_full_line_ignores_keys() {
    let mut ed = LineEditor::new();
    for _ in 0..128 {
        assert!(matches!(ed.on_scancode(0x39), KeyAction::Echo(b' ')));
    }
    assert!(matches!(ed.on_scancode(0x1E), KeyAction::Nothing));
    assert_eq!(editor_submit(&mut ed).len(), 128);
}

#[test]
fn time_report_pads_minutes_seconds_day_and_month() {
    assert_eq!(time_report(2025, 3, 7, 9, 5, 30), b"RTC Time: 9:05:30\nRTC Date: 07/03/2025\n".to_vec());
    assert_eq!(time_report(1999, 12, 31, 23, 59, 0), b"RTC Time: 23:59:00\nRTC Date: 31/12/1999\n".to_vec());
}

#[test]
fn clock_line_pads_every_field() {
    assert_eq!(clock_line(9, 5, 30), b"09:05:30\n".to_vec());
    assert_eq!(clock_line(12, 45, 10), b"12:45:10\n".to_vec());
}

#[test]
fn mouse_drain_takes_what_fits_from_the_subscriber() {
    let mut r = MouseReceptors::new();
    assert_eq!(r.mouse_subscribe(7), 0);
    r.deliver([0x08, 1, 2]);
    r.deliver([0x09, 3, 4]);
    r.deliver([0x0A, 5, 6]);
    assert_eq!(r.mouse_drain(7, 7), vec![[0x08, 1, 2], [0x09, 3, 4]]);
    assert_eq!(r.mouse_drain(7, 30), vec![[0x0A, 5, 6]]);
    assert_eq!(r.mouse_drain(7, 30), Vec::<[u8; 3]>::new());
    assert_eq!(r.mouse_drain(8, 30), Vec::<[u8; 3]>::new());
}

#[test]
fn argv_frame_puts_argv_right_above_argc() {
    let f = push_user_args(0x8F_0000, b"prog a");
    assert_eq!(f.argc, 2);
    assert_eq!(f.rsp, 0x8E_FFD0);
    assert_eq!(f.argv, vec![0x8E_FFFB, 0x8E_FFF9]);
    assert_eq!(f.argv_end, 0x8E_FFE8);
    assert!(f.padded);
    let g = push_user_args(0x8F_0000, b"ab\0\0");
    assert_eq!(g.argc, 1);
    assert_eq!(g.argv, vec![0x8E_FFFD]);
    assert_eq!(g.argv_end, 0x8E_FFF0);
    assert!(!g.padded);
    assert_eq!(g.rsp, 0x8E_FFE0);
    let e = push_user_args(0x8F_0000, b"");
    assert_eq!(e.argc, 0);
    assert_eq!(e.rsp, 0x8F_0000);
}
