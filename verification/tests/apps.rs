use rou2exos::app::tcp_handler::on_segment;
use rou2exos::net::tcp::{TcpConnection, TcpSegment, TcpState};
use rou2exos::app::snake::{Dir, Point, SnakeAction, SnakeGame};
use rou2exos::tui::{TuiApp, TuiEvent, Widget};
use rou2exos::app::editor::{save_name, split_filename, Editor};
use rou2exos::app::http_udp::{udp_handler, udp_http_response};
use rou2exos::app::menu::{draw_menu, draw_window, MenuAction, SnakeMenu};
use rou2exos::app::snake::{
    level_file_name, sprintf_score, parse_scores_from_sector, scores_to_bytes, update_high_scores,
};
use rou2exos::app::tcp_handler::{http_router, match_path, route_of, u32_to_ascii, Route};

#[test]
fn high_scores_insert_in_descending_order() {
    assert_eq!(update_high_scores(None, 7), [7, 0, 0, 0, 0]);
    assert_eq!(update_high_scores(Some([5, 3, 9, 1, 0]), 4), [9, 5, 4, 3, 1]);
    assert_eq!(update_high_scores(Some([50, 40, 30, 20, 10]), 5), [50, 40, 30, 20, 10]);
    assert_eq!(update_high_scores(Some([50, 40, 30, 20, 10]), 60), [60, 50, 40, 30, 20]);
}

#[test]
fn scores_saved_little_endian() {
    let b = scores_to_bytes(&[1, 0x0102_0304, 0, 0, 0xFFFF_FFFF]);
    assert_eq!(&b[0..4], &[1, 0, 0, 0]);
    assert_eq!(&b[4..8], &[4, 3, 2, 1]);
    assert_eq!(&b[16..20], &[0xFF, 0xFF, 0xFF, 0xFF]);
}

#[test]
fn scores_read_from_sector() {
    let mut t = [0u8; 512];
    t[..20].copy_from_slice(&[0, 0, 0, 1, 2, 0, 0, 0, 3, 0, 0, 0, 4, 0, 0, 0, 5, 0, 0, 0]);
    assert_eq!(parse_scores_from_sector(&t), Some([16777216, 2, 3, 4, 5]));
    let saved = scores_to_bytes(&[70000, 1, 0, 4000000000, 255]);
    let mut u = [0u8; 512];
    u[..20].copy_from_slice(&saved);
    assert_eq!(parse_scores_from_sector(&u), Some([70000, 1, 0, 4000000000, 255]));
    let mut s = [0u8; 512];
    s[0] = 1;
    s[1] = 2;
    s[2] = 3;
    s[3] = 4;
    s[4] = 9;
    s[16] = 5;
    assert_eq!(parse_scores_from_sector(&s), Some([0x04030201, 9, 0, 0, 5]));
}

#[test]
fn level_names() {
    assert_eq!(&level_file_name(7), b"LEVEL07");
    assert_eq!(&level_file_name(42), b"LEVEL42");
}

#[test]
fn decimal_digits_into_buffer() {
    let mut buf = [b'#'; 8];
    assert_eq!(u32_to_ascii(4096, &mut buf), 4);
    assert_eq!(&buf, b"4096####");
    let mut small = [0u8; 2];
    assert_eq!(u32_to_ascii(12345, &mut small), 5);
    assert_eq!(&small, b"12");
}

#[test]
fn http_paths() {
    // The path runs to the end of the request: a request line with a
    // protocol version after the path matches no path.
    assert!(match_path(b"GET /json", b"/json"));
    assert!(!match_path(b"GET /json HTTP/1.1", b"/json"));
    assert!(!match_path(b"GET /jsonx", b"/json"));
    assert!(!match_path(b"POST /json", b"/json"));
    assert!(route_of(b"GET / HTTP/1.1\r\n") == Route::Index);
    assert!(route_of(b"GET /json") == Route::Json);
    assert!(route_of(b"GET /rouring") == Route::Rouring);
    assert!(route_of(b"GET /json HTTP/1.1\r\n") == Route::NotFound);
}

#[test]
fn http_router_answers_with_length() {
    let r = http_router(b"GET /nothing HTTP/1.1\r\n");
    let text = String::from_utf8(r).unwrap();
    assert!(text.starts_with("HTTP/1.1 200 OK\r\n"));
    assert!(text.ends_with("\r\n\r\n404 Not Found"));
    assert!(text.contains("Content-Length: 13\r\n"));
}

#[test]
fn udp_requests() {
    let payload = b"GET / HTTP/1.1";
    assert_eq!(udp_handler(17, Some((5555, 80, &payload[..]))), (0, Some((80, 5555))));
    assert_eq!(udp_handler(6, Some((5555, 80, &payload[..]))), (2, None));
    assert_eq!(udp_handler(17, Some((5555, 81, &payload[..]))), (2, None));
    assert_eq!(udp_handler(17, Some((5555, 80, &b"POST /"[..]))), (2, None));
    assert_eq!(udp_handler(17, None), (2, None));
    assert!(udp_http_response().ends_with("Hello from rou2exOS Rusted Edition!"));
}

#[test]
fn editor_file_names() {
    assert_eq!(split_filename(b"notes.txt"), (&b"notes"[..], &b"txt"[..]));
    assert_eq!(split_filename(b"notes"), (&b"notes"[..], &b""[..]));
    assert_eq!(save_name(b"NOTES", b"TXT"), Some(*b"NOTES   TXT"));
    assert_eq!(save_name(b"TOOLONGNAME", b"TXT"), None);
}

#[test]
fn window_frame_cells() {
    let cells = draw_window(0, 0, 4, 3, None);
    assert_eq!(cells.len(), 4 + 2 * 2 + 2 * 1);
    assert_eq!(cells[0], (0, 0, 0xC9, 0x0E));
    assert_eq!(cells[1], (3, 0, 0xBB, 0x0E));
    assert_eq!(cells[2], (0, 2, 0xC8, 0x0E));
    assert_eq!(cells[3], (3, 2, 0xBC, 0x0E));
    assert_eq!(cells[4], (1, 0, 0xCD, 0x0E));
    assert_eq!(cells[5], (1, 2, 0xCD, 0x0E));
    assert_eq!(cells[8], (0, 1, 0xBA, 0x0E));
    assert_eq!(cells[9], (3, 1, 0xBA, 0x0E));
}

#[test]
fn window_title_is_centered_in_brackets() {
    let cells = draw_window(26, 6, 27, 12, Some("Snake"));
    let frame = 4 + 2 * 25 + 2 * 10;
    assert_eq!(cells.len(), frame + 2 + 5 + 2);
    let start = 26 + (27 - 5) / 2;
    assert_eq!(cells[frame], (start - 2, 6, b'[', 0x0E));
    assert_eq!(cells[frame + 2], (start, 6, b'S', 0x0E));
    assert_eq!(cells[frame + 8], (start + 6, 6, b']', 0x0E));
}

#[test]
fn score_lines() {
    let mut buf = [0u8; 16];
    let n = sprintf_score(b"Score: ", &mut buf, 120);
    assert_eq!(&buf[..n], b"Score: 120");
    let n = sprintf_score(b"Score: ", &mut buf, 0);
    assert_eq!(&buf[..n], b"Score: 0");
    let mut small = [b'#'; 9];
    assert_eq!(sprintf_score(b"Score: ", &mut small, 42), 0);
    assert_eq!(&small, b"Score: 42");
}

#[test]
fn editor_load_then_save_gives_the_line_back() {
    let mut e = Editor::new();
    e.load(b"hello world");
    assert_eq!(e.line_count, 1);
    let mut out = [0u8; 64];
    let n = e.save(&mut out);
    assert_eq!(&out[..n], b"hello world\n");
}

#[test]
fn editor_load_splits_lines_and_save_trims_them() {
    let mut e = Editor::new();
    e.load(b"one\ntwo  \r\nthree");
    let mut out = [0u8; 64];
    let n = e.save(&mut out);
    // A carriage return starts a line of its own; trailing spaces are dropped.
    assert_eq!(&out[..n], b"one\ntwo\n\nthree\n");
}

struct Counter {
    keys: u32,
    quit_seen: bool,
}

impl Widget for Counter {
    fn render(&self, x: usize, y: usize) -> Vec<(usize, u8)> {
        vec![(2 * (y * 80 + x), b'0' + (self.keys % 10) as u8)]
    }

    fn handle_event(&mut self, event: TuiEvent) {
        match event {
            TuiEvent::Key(_) => self.keys += 1,
            TuiEvent::Quit => self.quit_seen = true,
        }
    }
}

#[test]
fn tui_app_runs_until_escape() {
    let mut app: TuiApp<Counter> = TuiApp::new();
    assert!(app.root.is_none());
    assert_eq!(app.start().len(), 4000);
    app.set_root(Counter { keys: 0, quit_seen: false });
    let first = app.start();
    assert_eq!(first.len(), 4001);
    assert_eq!(first[4000], (0, b'0'));
    let frame = app.step(0x1E).unwrap();
    assert_eq!(frame[0], (0, 0x20));
    assert_eq!(frame[1], (1, 0x07));
    assert_eq!(frame[4000], (0, b'1'));
    assert!(app.step(0x01).is_none());
    let root = app.root.as_ref().unwrap();
    assert_eq!(root.keys, 1);
    assert!(root.quit_seen);
}

#[test]
fn snake_menu_moves_and_wraps() {
    let mut menu = SnakeMenu::new();
    assert!(matches!(menu.on_key(0x48), MenuAction::Redraw));
    assert_eq!(menu.selected, 2);
    assert!(matches!(menu.on_key(0x50), MenuAction::Redraw));
    assert_eq!(menu.selected, 0);
    menu.on_key(0x50);
    assert!(matches!(menu.on_key(0x1C), MenuAction::HighScores));
    menu.scores_shown();
    assert_eq!(menu.selected, 0);
    assert!(matches!(menu.on_key(0x1C), MenuAction::NewGame));
    assert!(matches!(menu.on_key(0x20), MenuAction::Redraw));
    menu.on_key(0x48);
    assert!(matches!(menu.on_key(0x1C), MenuAction::Exit));
    assert_eq!(menu.selected, 0);
    menu.on_key(0x50);
    assert!(matches!(menu.on_key(0x01), MenuAction::Exit));
    assert_eq!(menu.selected, 1);
}

#[test]
fn snake_menu_draws_marked_items() {
    let cells = draw_menu(32, 9, &["ab", "c"], 1);
    assert_eq!(
        cells,
        vec![
            (30, 9, 0x20, 0x07),
            (32, 9, b'a', 0x07),
            (30, 9, 0x20, 0x07),
            (33, 9, b'b', 0x07),
            (30, 11, 0x1A, 0x0E),
            (32, 11, b'c', 0xE0),
        ]
    );
}

#[test]
fn tcp_segments_go_to_their_connection() {
    let mut conns: [Option<TcpConnection>; 4] = [None, None, None, None];
    let syn = TcpSegment {
        src_ip: [10, 0, 2, 2],
        dst_ip: [10, 0, 2, 15],
        src_port: 40000,
        dst_port: 80,
        seq_num: 100,
        syn: true,
        ack: false,
        fin: false,
    };
    let (code, replies) = on_segment(&mut conns, &syn, &[]);
    assert_eq!(code, 0);
    assert_eq!(replies.len(), 1);
    let c = conns[0].unwrap();
    assert!(c.state == TcpState::SynReceived);
    assert_eq!((c.src_port, c.dst_port, c.seq_num, c.ack_num), (80, 40000, 1, 101));
    assert!(conns[1].is_none());
    let ack = TcpSegment { seq_num: 101, syn: false, ack: true, ..syn };
    let (code, replies) = on_segment(&mut conns, &ack, &[]);
    assert_eq!(code, 1);
    assert_eq!(replies.len(), 1);
    assert!(conns[0].unwrap().state == TcpState::Established);
    assert_eq!(conns[0].unwrap().seq_num, 2);
    let stranger = TcpSegment { src_port: 40001, syn: false, ack: true, ..syn };
    let (code, replies) = on_segment(&mut conns, &stranger, &[]);
    assert_eq!(code, 254);
    assert!(replies.is_empty());
}

#[test]
fn snake_frame_moves_eats_and_hits_walls() {
    let mut g = SnakeGame::new(Vec::new());
    g.food_x = 41;
    g.food_y = 12;
    let r = g.on_scancode(0x39);
    assert!(r == SnakeAction::Draw);
    assert_eq!((g.snake.x[0], g.snake.y[0]), (41, 12));
    assert_eq!((g.snake.x[1], g.snake.y[1]), (40, 12));
    assert_eq!(g.snake.len, 4);
    assert_eq!(g.score, 1);
    assert_eq!(g.move_count, 1);
    assert!(g.food_x != 41 || g.food_y != 12);
    assert!(g.snake.dir == Dir::Right);
    let mut h = SnakeGame::new(vec![Point { x: 40, y: 11 }]);
    assert!(h.on_scancode(0xE0) == SnakeAction::AwaitKey);
    let r = h.on_scancode(0x48);
    assert!(h.snake.dir == Dir::Up);
    assert_eq!((h.snake.x[0], h.snake.y[0]), (40, 11));
    assert!(r == SnakeAction::GameOver(0));
    let mut q = SnakeGame::new(Vec::new());
    assert!(q.on_scancode(0x01) == SnakeAction::Quit(0));
    assert_eq!(q.move_count, 0);
}

#[test]
fn editor_load_of_a_hundred_line_breaks_counts_one_more_line() {
    let mut e = Editor::new();
    let text = vec![b'\n'; 100];
    e.load(&text);
    assert_eq!(e.line_count, 101);
    let mut out = [0u8; 256];
    let n = e.save(&mut out);
    // each of the 100 empty lines gives one newline; the count past the
    // last line adds nothing
    assert_eq!(n, 100);
    assert!(out[..n].iter().all(|&b| b == b'\n'));
    // the cursor can still move down to the count past the last line, and
    // typing there changes nothing
    for _ in 0..100 {
        e.handle_key(b'\n');
    }
    assert_eq!(e.cursor_y, 99);
    e.cursor_y = 100;
    e.handle_key(b'x');
    assert_eq!(e.cursor_x, 0);
    let n2 = e.save(&mut out);
    assert_eq!(n2, 100);
}
