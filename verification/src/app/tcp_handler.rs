//! A small TCP server: it answers a handshake, echoes, and serves three
//! fixed HTTP pages.
use vstd::prelude::*;
use crate::debug::dec_str;
use vstd::string::StringSliceAdditionalSpecFns;
use crate::app::editor::push_all;
use crate::net::tcp::{
    filter_and_close_conns, find_or_open, first_closing, first_empty, first_match, lemma_first_empty_unique,
    lemma_first_match_unique, opened, reply,
    LookupRefusal, TcpConnection, TcpReply, TcpSegment, TcpState, ACK, FIN, PSH, SYN,
};

verus! {

/// Writes the decimal digits of `num` at the start of `buf` (as far as
/// they fit) and returns how many digits the number has.
pub fn u32_to_ascii(num: u32, buf: &mut [u8]) -> (r: usize)
    ensures
        r == dec_str(num as nat).len(),
        final(buf)@.len() == old(buf)@.len(),
        forall|j: int| 0 <= j < r && j < old(buf)@.len() ==> #[trigger] final(buf)@[j] == dec_str(num as nat)[j],
        forall|j: int| r <= j < old(buf)@.len() ==> #[trigger] final(buf)@[j] == old(buf)@[j],
{
    let mut digits = [0u8; 20];
    let d = crate::debug::u64_to_dec_str(num as u64, &mut digits);
    let n = d.len();
    let mut j: usize = 0;
    while j < n
        invariant
            n == d@.len(),
            d@ == dec_str(num as nat),
            buf@.len() == old(buf)@.len(),
            j <= n,
            forall|k: int| 0 <= k < j && k < old(buf)@.len() ==> #[trigger] buf@[k] == d@[k],
            forall|k: int| j <= k < old(buf)@.len() ==> #[trigger] buf@[k] == old(buf)@[k],
        decreases n - j,
    {
        if j < buf.len() {
            buf[j] = d[j];
        }
        j = j + 1;
    }
    n
}

/// The path a request names, as `match_path` reads it: after "GET ",
/// everything when its first byte is not a space, else nothing.
pub open spec fn request_path(payload: Seq<u8>) -> Seq<u8> {
    let rest = payload.skip(4);
    if rest.len() > 0 && rest[0] != 0x20 { rest } else { Seq::empty() }
}

/// "GET "
pub open spec fn get_prefix() -> Seq<u8> {
    seq![0x47u8, 0x45, 0x54, 0x20]
}

/// The request is a GET whose path (see `request_path`) equals `path`.
pub open spec fn spec_match_path(payload: Seq<u8>, path: Seq<u8>) -> bool {
    payload.len() >= 4 && payload.take(4) == get_prefix() && request_path(payload) == path
}

fn starts_with(s: &[u8], prefix: &[u8]) -> (r: bool)
    ensures
        r == (s@.len() >= prefix@.len() && s@.take(prefix@.len() as int) == prefix@),
{
    if s.len() < prefix.len() {
        return false;
    }
    let mut i: usize = 0;
    while i < prefix.len()
        invariant
            s@.len() >= prefix@.len(),
            i <= prefix@.len(),
            forall|j: int| 0 <= j < i ==> s@[j] == prefix@[j],
        decreases prefix@.len() - i,
    {
        if s[i] != prefix[i] {
            assert(s@.take(prefix@.len() as int)[i as int] != prefix@[i as int]);
            return false;
        }
        i = i + 1;
    }
    assert(s@.take(prefix@.len() as int) =~= prefix@);
    true
}

fn bytes_eq(a: &[u8], b: &[u8]) -> (r: bool)
    ensures
        r == (a@ == b@),
{
    if a.len() != b.len() {
        return false;
    }
    let r = starts_with(a, b);
    assert(a@.take(b@.len() as int) =~= a@);
    r
}

/// Whether the request is a GET of exactly `path`.
pub fn match_path(payload: &[u8], path: &[u8]) -> (r: bool)
    ensures
        r == spec_match_path(payload@, path@),
{
    let get: [u8; 4] = [0x47, 0x45, 0x54, 0x20];
    if !starts_with(payload, get.as_slice()) {
        assert(get@ == get_prefix());
        return false;
    }
    assert(get@ == get_prefix());
    let rest = &payload[4..payload.len()];
    assert(rest@ == payload@.skip(4));
    let sl: &[u8] = if rest.len() > 0 && rest[0] != 0x20 { rest } else { &[] };
    assert(sl@ == request_path(payload@)) by {
        if !(rest@.len() > 0 && rest@[0] != 0x20) {
            assert(sl@ =~= Seq::<u8>::empty());
        }
    }
    bytes_eq(sl, path)
}

/// The pages the server knows.
#[derive(Clone, Copy, PartialEq, Eq, Structural)]
pub enum Route {
    Index,
    Rouring,
    Json,
    NotFound,
}

/// "GET / HTTP/1.1"
pub open spec fn index_request() -> Seq<u8> {
    seq![0x47u8, 0x45, 0x54, 0x20, 0x2f, 0x20, 0x48, 0x54, 0x54, 0x50, 0x2f, 0x31, 0x2e, 0x31]
}

/// The page a request asks for.
pub open spec fn spec_route(payload: Seq<u8>) -> Route {
    if spec_match_path(payload, seq![0x2fu8]) || (payload.len() >= 14 && payload.take(14) == index_request()) {
        Route::Index
    } else if spec_match_path(payload, seq![0x2fu8, 0x72, 0x6f, 0x75, 0x72, 0x69, 0x6e, 0x67]) {
        Route::Rouring
    } else if spec_match_path(payload, seq![0x2fu8, 0x6a, 0x73, 0x6f, 0x6e]) {
        Route::Json
    } else {
        Route::NotFound
    }
}

/// The page a request asks for.
pub fn route_of(payload: &[u8]) -> (r: Route)
    ensures
        r == spec_route(payload@),
{
    let root: [u8; 1] = [0x2f];
    let index: [u8; 14] = [0x47, 0x45, 0x54, 0x20, 0x2f, 0x20, 0x48, 0x54, 0x54, 0x50, 0x2f, 0x31, 0x2e, 0x31];
    let rouring: [u8; 8] = [0x2f, 0x72, 0x6f, 0x75, 0x72, 0x69, 0x6e, 0x67];
    let json: [u8; 5] = [0x2f, 0x6a, 0x73, 0x6f, 0x6e];
    assert(root@ == seq![0x2fu8]);
    assert(index@ == index_request());
    assert(rouring@ == seq![0x2fu8, 0x72, 0x6f, 0x75, 0x72, 0x69, 0x6e, 0x67]);
    assert(json@ == seq![0x2fu8, 0x6a, 0x73, 0x6f, 0x6e]);
    if match_path(payload, root.as_slice()) || starts_with(payload, index.as_slice()) {
        Route::Index
    } else if match_path(payload, rouring.as_slice()) {
        Route::Rouring
    } else if match_path(payload, json.as_slice()) {
        Route::Json
    } else {
        Route::NotFound
    }
}

/// The body of each page.
pub fn route_body(route: Route) -> (s: &'static str)
    ensures
        s@ == match route {
            Route::Index => "<html><body><h1>Welcome to rou2exOS HTTP server</h1></body></html>"@,
            Route::Rouring => "<html><head><style>.index {width: 800px;margin-top: 70px;font-family: Helvetica;}.lefts2 {width: 200px;float: left;}.rights2 {width: 590px;float: right;}.foot {width: 550px;margin-top: 200px;font-family: Helvetica;clear: both;}</style><meta http-equiv=\"Content-Type\" content=\"text/html; charset=UTF-8\"><meta http-equiv=\"Content-language\" content=\"cs, en\"><title>The RouRa Project</title></head><body><center><div class=\"index\"><div class=\"lefts2\"><br><img src=\"https://rouring.net/plug.png\" width=\"200\"></div><div class=\"rights2\"><br><p style=\"font-size: 42px\">The RouRa Project</p><p style=\"font-size: 20px\">Už bude zase dobře</p></div></div><div class=\"foot\"><br><br><br><br>Rouring.net & ReRour 2k16</div></body></center></html>"@,
            Route::Json => "{\"message\":\"Hello JSON\"}"@,
            Route::NotFound => "404 Not Found"@,
        },
{
    match route {
        Route::Index => "<html><body><h1>Welcome to rou2exOS HTTP server</h1></body></html>",
        Route::Rouring => "<html><head><style>.index {width: 800px;margin-top: 70px;font-family: Helvetica;}.lefts2 {width: 200px;float: left;}.rights2 {width: 590px;float: right;}.foot {width: 550px;margin-top: 200px;font-family: Helvetica;clear: both;}</style><meta http-equiv=\"Content-Type\" content=\"text/html; charset=UTF-8\"><meta http-equiv=\"Content-language\" content=\"cs, en\"><title>The RouRa Project</title></head><body><center><div class=\"index\"><div class=\"lefts2\"><br><img src=\"https://rouring.net/plug.png\" width=\"200\"></div><div class=\"rights2\"><br><p style=\"font-size: 42px\">The RouRa Project</p><p style=\"font-size: 20px\">Už bude zase dobře</p></div></div><div class=\"foot\"><br><br><br><br>Rouring.net & ReRour 2k16</div></body></center></html>",
        Route::Json => "{\"message\":\"Hello JSON\"}",
        Route::NotFound => "404 Not Found",
    }
}

/// The content type of each page.
pub fn route_content_type(route: Route) -> (s: &'static str)
    ensures
        s@ == match route {
            Route::Index | Route::Rouring => "text/html"@,
            Route::Json => "application/json"@,
            Route::NotFound => "text/plain"@,
        },
{
    match route {
        Route::Index | Route::Rouring => "text/html",
        Route::Json => "application/json",
        Route::NotFound => "text/plain",
    }
}

/// "HTTP/1.1 200 OK\r\nContent-Type: "
pub open spec fn status_line() -> Seq<u8> {
    seq![
        0x48u8, 0x54, 0x54, 0x50, 0x2f, 0x31, 0x2e, 0x31, 0x20, 0x32, 0x30, 0x30, 0x20, 0x4f, 0x4b,
        0x0d, 0x0a, 0x43, 0x6f, 0x6e, 0x74, 0x65, 0x6e, 0x74, 0x2d, 0x54, 0x79, 0x70, 0x65, 0x3a, 0x20,
    ]
}

/// "Content-Length: "
pub open spec fn length_field() -> Seq<u8> {
    seq![0x43u8, 0x6f, 0x6e, 0x74, 0x65, 0x6e, 0x74, 0x2d, 0x4c, 0x65, 0x6e, 0x67, 0x74, 0x68, 0x3a, 0x20]
}

/// The HTTP response with content type `ct` and body `body`.
pub open spec fn http_response(ct: Seq<u8>, body: Seq<u8>) -> Seq<u8> {
    status_line() + ct + seq![0x0du8, 0x0a] + length_field() + dec_str(body.len()) + seq![0x0du8, 0x0a, 0x0d, 0x0a]
        + body
}

/// The response to an HTTP request: always status 200, with the page's
/// content type, length and body (a plain "404 Not Found" for unknown paths).
pub fn http_router(payload: &[u8]) -> (r: Vec<u8>)
    ensures
        r@ == http_response(
            route_content_type_bytes(spec_route(payload@)),
            route_body_bytes(spec_route(payload@)),
        ),
{
    let route = route_of(payload);
    let body = route_body(route).as_bytes();
    let ct = route_content_type(route).as_bytes();
    let mut out: Vec<u8> = Vec::new();
    let status: [u8; 31] = [
        0x48, 0x54, 0x54, 0x50, 0x2f, 0x31, 0x2e, 0x31, 0x20, 0x32, 0x30, 0x30, 0x20, 0x4f, 0x4b,
        0x0d, 0x0a, 0x43, 0x6f, 0x6e, 0x74, 0x65, 0x6e, 0x74, 0x2d, 0x54, 0x79, 0x70, 0x65, 0x3a, 0x20,
    ];
    let crlf: [u8; 2] = [0x0d, 0x0a];
    let len_field: [u8; 16] = [0x43, 0x6f, 0x6e, 0x74, 0x65, 0x6e, 0x74, 0x2d, 0x4c, 0x65, 0x6e, 0x67, 0x74, 0x68, 0x3a, 0x20];
    let blank: [u8; 4] = [0x0d, 0x0a, 0x0d, 0x0a];
    push_all(&mut out, status.as_slice());
    push_all(&mut out, ct);
    push_all(&mut out, crlf.as_slice());
    push_all(&mut out, len_field.as_slice());
    let mut digits = [0u8; 20];
    let d = crate::debug::u64_to_dec_str(body.len() as u64, &mut digits);
    push_all(&mut out, d);
    push_all(&mut out, blank.as_slice());
    push_all(&mut out, body);
    assert(status@ == status_line());
    assert(len_field@ == length_field());
    assert(crlf@ == seq![0x0du8, 0x0a]);
    assert(blank@ == seq![0x0du8, 0x0a, 0x0d, 0x0a]);
    out
}

/// The bytes of a page's body.
pub open spec fn route_body_bytes(route: Route) -> Seq<u8> {
    match route {
        Route::Index => "<html><body><h1>Welcome to rou2exOS HTTP server</h1></body></html>".spec_bytes(),
        Route::Rouring => "<html><head><style>.index {width: 800px;margin-top: 70px;font-family: Helvetica;}.lefts2 {width: 200px;float: left;}.rights2 {width: 590px;float: right;}.foot {width: 550px;margin-top: 200px;font-family: Helvetica;clear: both;}</style><meta http-equiv=\"Content-Type\" content=\"text/html; charset=UTF-8\"><meta http-equiv=\"Content-language\" content=\"cs, en\"><title>The RouRa Project</title></head><body><center><div class=\"index\"><div class=\"lefts2\"><br><img src=\"https://rouring.net/plug.png\" width=\"200\"></div><div class=\"rights2\"><br><p style=\"font-size: 42px\">The RouRa Project</p><p style=\"font-size: 20px\">Už bude zase dobře</p></div></div><div class=\"foot\"><br><br><br><br>Rouring.net & ReRour 2k16</div></body></center></html>".spec_bytes(),
        Route::Json => "{\"message\":\"Hello JSON\"}".spec_bytes(),
        Route::NotFound => "404 Not Found".spec_bytes(),
    }
}

/// The bytes of a page's content type.
pub open spec fn route_content_type_bytes(route: Route) -> Seq<u8> {
    match route {
        Route::Index | Route::Rouring => "text/html".spec_bytes(),
        Route::Json => "application/json".spec_bytes(),
        Route::NotFound => "text/plain".spec_bytes(),
    }
}

/// "Echo: " followed by as much of `payload` as fits in 128 bytes.
pub open spec fn echo_reply(payload: Seq<u8>) -> Seq<u8> {
    seq![0x45u8, 0x63, 0x68, 0x6f, 0x3a, 0x20] + payload.take(if payload.len() < 122 { payload.len() as int } else { 122 })
}

/// What `handle_tcp_packet` does to connection `c0` for segment `seg`
/// carrying `payload`: the connection becomes `c1`, the screen code is
/// `code` and `replies` are sent.
pub open spec fn http_handled(
    c0: TcpConnection,
    seg: TcpSegment,
    payload: Seq<u8>,
    c1: TcpConnection,
    code: u8,
    replies: Seq<TcpReply>,
) -> bool {
    &&& (seg.syn && !seg.ack ==> {
        &&& code == 0
        &&& c1.state == TcpState::SynReceived
        &&& c1.src_port == seg.dst_port && c1.dst_port == seg.src_port
        &&& c1.seq_num == 1
        &&& c1.ack_num == vstd::wrapping::u32_specs::wrapping_add(seg.seq_num, 1)
        &&& replies.len() == 1 && replies[0].conn == c1 && replies[0].flags == SYN | ACK
            && replies[0].payload@ == payload
    })
    &&& (!(seg.syn && !seg.ack) && seg.ack && c0.state == TcpState::SynReceived ==> {
        &&& code == 1
        &&& c1.state == TcpState::Established
        &&& c1.ack_num == seg.seq_num
        &&& c1.seq_num == vstd::wrapping::u32_specs::wrapping_add(c0.seq_num, 1)
        &&& replies.len() == 1 && replies[0].conn == c1 && replies[0].flags == ACK && replies[0].payload@.len() == 0
    })
    &&& (!(seg.syn && !seg.ack) && !(seg.ack && c0.state == TcpState::SynReceived)
        && c0.state == TcpState::Established ==> {
        &&& payload.len() == 0 ==> {
            &&& code == 1
            &&& c1.ack_num == seg.seq_num
            &&& c1.seq_num == vstd::wrapping::u32_specs::wrapping_add(c0.seq_num, 6)
            &&& replies.len() == 1 && replies[0].flags == ACK | PSH && replies[0].payload@ == echo_reply(payload)
            &&& replies[0].conn.seq_num == c0.seq_num
        }
        &&& payload.len() > 0 && seg.fin ==> {
            &&& code == 2
            &&& c1.state == TcpState::Closed
            &&& c1.ack_num == seg.seq_num
            &&& replies.len() == 1 && replies[0].conn == c1 && replies[0].flags == FIN | ACK
                && replies[0].payload@.len() == 0
        }
        &&& payload.len() > 0 && !seg.fin ==> {
            &&& code == 1
            &&& c1.ack_num == seg.seq_num
            &&& c1.state == c0.state
            &&& replies.len() == 1 && replies[0].conn == c1 && replies[0].flags == ACK
                && replies[0].payload@.len() == 0
        }
    })
    &&& (!(seg.syn && !seg.ack) && !(seg.ack && c0.state == TcpState::SynReceived)
        && c0.state != TcpState::Established ==> code == 1 && replies.len() == 0 && c1 == c0)
}

/// Handles a segment on its connection: a SYN opens the handshake (reply
/// SYN+ACK), the ACK that follows establishes it; on an established
/// connection an empty segment is answered with an HTTP page when it is a
/// GET (then the server closes) or echoed, a FIN closes, and anything
/// else is acknowledged. Returns 0 for a SYN, 2 for a close, else 1, and
/// the segments to send.
pub fn handle_tcp_packet(conn: &mut TcpConnection, seg: &TcpSegment, payload: &[u8]) -> (r: (u8, Vec<TcpReply>))
    ensures
        http_handled(*old(conn), *seg, payload@, *final(conn), r.0, r.1@),
{
    let mut out: Vec<TcpReply> = Vec::new();
    if seg.syn && !seg.ack {
        conn.src_port = seg.dst_port;
        conn.dst_port = seg.src_port;
        conn.state = TcpState::SynReceived;
        conn.seq_num = 1;
        conn.ack_num = seg.seq_num.wrapping_add(1);
        out.push(reply(conn, SYN | ACK, payload));
        return (0, out);
    }
    if seg.ack && conn.state == TcpState::SynReceived {
        conn.state = TcpState::Established;
        conn.ack_num = seg.seq_num;
        conn.seq_num = conn.seq_num.wrapping_add(1);
        out.push(reply(conn, ACK, &[]));
        return (1, out);
    } else if conn.state == TcpState::Established {
        if payload.len() == 0 {
            conn.ack_num = seg.seq_num.wrapping_add(payload.len() as u32);
            let get: [u8; 5] = [0x47, 0x45, 0x54, 0x20, 0x2f];
            if payload.len() >= 5 && payload[0] == get[0] && payload[1] == get[1] && payload[2] == get[2]
                && payload[3] == get[3] && payload[4] == get[4] {
                let http = http_router(payload);
                let n = if http.len() < 1420 { http.len() } else { 0 };
                out.push(reply(conn, ACK | PSH | FIN, &http.as_slice()[0..n]));
                conn.seq_num = conn.seq_num.wrapping_add(n as u32);
                conn.state = TcpState::CloseWait;
                return (2, out);
            }
            let mut msg: Vec<u8> = Vec::new();
            let prefix: [u8; 6] = [0x45, 0x63, 0x68, 0x6f, 0x3a, 0x20];
            push_all(&mut msg, prefix.as_slice());
            let len = if payload.len() < 122 { payload.len() } else { 122 };
            push_all(&mut msg, &payload[0..len]);
            out.push(reply(conn, ACK | PSH, msg.as_slice()));
            conn.seq_num = conn.seq_num.wrapping_add((6 + len) as u32);
            assert(msg@ == echo_reply(payload@));
        } else {
            if seg.fin {
                conn.state = TcpState::Closed;
                conn.ack_num = seg.seq_num;
                out.push(reply(conn, FIN | ACK, &[]));
                return (2, out);
            }
            conn.ack_num = seg.seq_num;
            out.push(reply(conn, ACK, &[]));
        }
    }
    (1, out)
}

/// What the server makes of a segment: the first closing connection is
/// freed instead (253); a segment for no connection is dropped (254), as
/// is a new one when no slot is free (255); otherwise the connection
/// handles it (see `handle_tcp_packet`). Returns the code for the screen
/// and the segments to send.
pub fn on_segment(conns: &mut [Option<TcpConnection>; 4], seg: &TcpSegment, payload: &[u8]) -> (r: (u8, Vec<TcpReply>))
    ensures
        (exists|i: int| #[trigger] first_closing(old(conns)@, i)) ==> r.0 == 253 && r.1@.len() == 0,
        forall|i: int| #[trigger] first_closing(old(conns)@, i) ==> final(conns)@ == old(conns)@.update(i, None),
        !(exists|i: int| #[trigger] first_closing(old(conns)@, i)) ==> {
            &&& forall|i: int| #[trigger] first_match(old(conns)@, *seg, i) ==> {
                &&& final(conns)@[i] is Some
                &&& http_handled(old(conns)@[i]->0, *seg, payload@, final(conns)@[i]->0, r.0, r.1@)
                &&& final(conns)@ == old(conns)@.update(i, final(conns)@[i])
            }
            &&& (forall|k: int| !#[trigger] first_match(old(conns)@, *seg, k)) ==> {
                &&& !(seg.syn && !seg.ack) ==> r.0 == 254 && r.1@.len() == 0 && final(conns)@ == old(conns)@
                &&& seg.syn && !seg.ack && (forall|k: int| 0 <= k < 4 ==> #[trigger] old(conns)@[k] is Some) ==>
                    r.0 == 255 && r.1@.len() == 0 && final(conns)@ == old(conns)@
                &&& seg.syn && !seg.ack ==> forall|i: int| #[trigger] first_empty(old(conns)@, i) ==> {
                    &&& final(conns)@[i] is Some
                    &&& http_handled(opened(*seg), *seg, payload@, final(conns)@[i]->0, r.0, r.1@)
                    &&& final(conns)@ == old(conns)@.update(i, final(conns)@[i])
                }
            }
        },
{
    if filter_and_close_conns(conns) {
        return (253, Vec::new());
    }
    match find_or_open(conns, seg) {
        Err(LookupRefusal::UnknownConn) => (254, Vec::new()),
        Err(LookupRefusal::NoFreeSlot) => (255, Vec::new()),
        Ok(i) => {
            assert(first_match(old(conns)@, *seg, i as int) || (seg.syn && !seg.ack && first_empty(old(conns)@, i as int)));
            match conns[i] {
                Some(c) => {
                    let mut cc = c;
                    let r = handle_tcp_packet(&mut cc, seg, payload);
                    conns[i] = Some(cc);
                    proof {
                        lemma_first_match_unique(old(conns)@, *seg, i as int);
                        lemma_first_empty_unique(old(conns)@, i as int);
                        assert(conns@ =~= old(conns)@.update(i as int, Some(cc)));
                    }
                    r
                },
                None => (253, Vec::new()),
            }
        },
    }
}

} // verus!
