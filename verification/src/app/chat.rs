//! A line chat over TCP with one peer on port 12345: the connection
//! handling, the line being typed, and the decisions of the chat loop.
use vstd::prelude::*;
use crate::app::editor::push_all;
use crate::input::keyboard::{key_char, KeyboardState};
use crate::net::tcp::{
    filter_and_close_conns, find_or_open, first_closing, first_empty, first_match, lemma_first_empty_unique,
    lemma_first_match_unique, opened, reply, LookupRefusal, TcpConnection, TcpReply,
    TcpSegment, TcpState, ACK, FIN, PSH, SYN,
};

verus! {

/// The chat port.
pub const CHAT_PORT: u16 = 12345;

/// What a step of the chat loop came to.
#[derive(Clone, Copy, PartialEq, Eq, Structural)]
pub enum HandleState {
    ConnOK,
    GotSYN,
    GotACK,
    GotFIN,
    SendResponse,
    KeyboardInterrupt,
    UnknownConn,
    FreedSocket,
    NoFreeSockets,
    EmptySlot,
}

/// "DISCONNECT"
pub open spec fn disconnect_word() -> Seq<u8> {
    seq![0x44u8, 0x49, 0x53, 0x43, 0x4f, 0x4e, 0x4e, 0x45, 0x43, 0x54]
}

/// "BYE\n"
pub open spec fn bye() -> Seq<u8> {
    seq![0x42u8, 0x59, 0x45, 0x0a]
}

/// What handling a segment produced: the state, the segments to send and
/// the peer's line to show.
pub struct ChatEvent {
    pub state: HandleState,
    pub replies: Vec<TcpReply>,
    pub shown: Option<Vec<u8>>,
}

/// What `handle_tcp_packet` does to the connection `c0` for segment `seg`
/// carrying `payload`: the connection becomes `c1` and `ev` is reported.
pub open spec fn chat_handled(
    c0: TcpConnection,
    seg: TcpSegment,
    payload: Seq<u8>,
    c1: TcpConnection,
    ev: ChatEvent,
) -> bool {
    &&& (seg.syn && !seg.ack ==> {
        &&& ev.state == HandleState::GotSYN
        &&& c1.state == TcpState::SynReceived
        &&& c1.src_port == seg.dst_port && c1.dst_port == seg.src_port
        &&& c1.seq_num == 1
        &&& c1.ack_num == vstd::wrapping::u32_specs::wrapping_add(seg.seq_num, 1)
        &&& ev.replies@.len() == 1 && ev.replies@[0].flags == SYN | ACK && ev.replies@[0].payload@ == payload
        &&& ev.replies@[0].conn == c1
    })
    &&& (!(seg.syn && !seg.ack) && seg.ack && c0.state == TcpState::SynReceived ==> {
        &&& ev.state == HandleState::GotACK
        &&& c1.state == TcpState::Established
        &&& c1.ack_num == seg.seq_num
        &&& c1.seq_num == vstd::wrapping::u32_specs::wrapping_add(c0.seq_num, 1)
        &&& ev.replies@.len() == 1 && ev.replies@[0].flags == ACK && ev.replies@[0].payload@.len() == 0
    })
    &&& (!(seg.syn && !seg.ack) && !(seg.ack && c0.state == TcpState::SynReceived)
        && c0.state == TcpState::Established && c0.src_port == CHAT_PORT ==> {
        &&& payload.len() > 0 ==> {
            &&& c1.ack_num == vstd::wrapping::u32_specs::wrapping_add(seg.seq_num, payload.len() as u32)
            &&& ev.replies@.len() >= 1 && ev.replies@[0].flags == ACK && ev.replies@[0].payload@.len() == 0
            &&& (payload.len() >= 10 && payload.take(10) == disconnect_word()) ==> {
                &&& ev.state == HandleState::GotFIN
                &&& c1.state == TcpState::Closed
                &&& ev.replies@.len() == 2 && ev.replies@[1].flags == ACK | PSH | FIN && ev.replies@[1].payload@ == bye()
            }
            &&& !(payload.len() >= 10 && payload.take(10) == disconnect_word()) ==> {
                &&& ev.state == HandleState::GotACK
                &&& ev.replies@.len() == 1
                &&& c1.state == c0.state
                &&& match ev.shown {
                    Some(m) => payload.len() >= 2 && m@ == payload.take(payload.len() - 2),
                    None => payload.len() < 2,
                }
            }
        }
        &&& payload.len() == 0 && seg.fin ==> ev.state == HandleState::GotFIN && c1.state == TcpState::Closed
            && c1.ack_num == seg.seq_num && ev.replies@.len() == 1 && ev.replies@[0].flags == FIN | ACK
        &&& payload.len() == 0 && !seg.fin ==> ev.state == HandleState::GotACK && c1.ack_num == seg.seq_num
            && ev.replies@.len() == 1 && ev.replies@[0].flags == ACK
    })
    &&& (!(seg.syn && !seg.ack) && !(seg.ack && c0.state == TcpState::SynReceived)
        && !(c0.state == TcpState::Established && c0.src_port == CHAT_PORT) ==> ev.state
        == HandleState::GotACK && ev.replies@.len() == 0 && c1 == c0)
}

/// Handles a segment on its chat connection: the handshake as usual; on
/// the established chat connection a message is acknowledged and shown
/// (without its last two bytes), "DISCONNECT" is answered "BYE" and
/// closes, and an empty FIN closes.
pub fn handle_tcp_packet(conn: &mut TcpConnection, seg: &TcpSegment, payload: &[u8]) -> (r: ChatEvent)
    ensures
        chat_handled(*old(conn), *seg, payload@, *final(conn), r),
{
    let mut out: Vec<TcpReply> = Vec::new();
    if seg.syn && !seg.ack {
        conn.src_port = seg.dst_port;
        conn.dst_port = seg.src_port;
        conn.state = TcpState::SynReceived;
        conn.seq_num = 1;
        conn.ack_num = seg.seq_num.wrapping_add(1);
        out.push(reply(conn, SYN | ACK, payload));
        return ChatEvent { state: HandleState::GotSYN, replies: out, shown: None };
    }
    if seg.ack && conn.state == TcpState::SynReceived {
        conn.state = TcpState::Established;
        conn.ack_num = seg.seq_num;
        conn.seq_num = conn.seq_num.wrapping_add(1);
        out.push(reply(conn, ACK, &[]));
        return ChatEvent { state: HandleState::GotACK, replies: out, shown: None };
    } else if conn.state == TcpState::Established && conn.src_port == CHAT_PORT {
        if payload.len() > 0 {
            conn.ack_num = seg.seq_num.wrapping_add(payload.len() as u32);
            out.push(reply(conn, ACK, &[]));
            let word: [u8; 10] = [0x44, 0x49, 0x53, 0x43, 0x4f, 0x4e, 0x4e, 0x45, 0x43, 0x54];
            let mut is_disconnect = payload.len() >= 10;
            let mut k: usize = 0;
            while k < 10 && is_disconnect
                invariant
                    k <= 10,
                    is_disconnect ==> payload@.len() >= 10,
                    is_disconnect == (payload@.len() >= 10 && forall|j: int| 0 <= j < k ==> payload@[j] == word@[j]),
                decreases 10 - k,
            {
                if payload[k] != word[k] {
                    is_disconnect = false;
                }
                k = k + 1;
            }
            assert(is_disconnect == (payload@.len() >= 10 && payload@.take(10) == disconnect_word())) by {
                assert(word@ == disconnect_word());
                if payload@.len() >= 10 && payload@.take(10) == disconnect_word() {
                    assert forall|j: int| 0 <= j < 10 implies payload@[j] == word@[j] by {
                        assert(payload@.take(10)[j] == payload@[j]);
                    }
                }
                if is_disconnect {
                    assert(payload@.take(10) =~= disconnect_word());
                }
            }
            if is_disconnect {
                let b: [u8; 4] = [0x42, 0x59, 0x45, 0x0a];
                out.push(reply(conn, ACK | PSH | FIN, b.as_slice()));
                conn.state = TcpState::Closed;
                assert(b@ == bye());
                return ChatEvent { state: HandleState::GotFIN, replies: out, shown: None };
            }
            let shown = if payload.len() >= 2 {
                let mut m: Vec<u8> = Vec::new();
                push_all(&mut m, &payload[0..payload.len() - 2]);
                Some(m)
            } else {
                None
            };
            return ChatEvent { state: HandleState::GotACK, replies: out, shown };
        } else {
            if seg.fin {
                conn.state = TcpState::Closed;
                conn.ack_num = seg.seq_num;
                out.push(reply(conn, FIN | ACK, &[]));
                return ChatEvent { state: HandleState::GotFIN, replies: out, shown: None };
            }
            conn.ack_num = seg.seq_num;
            out.push(reply(conn, ACK, &[]));
        }
    }
    ChatEvent { state: HandleState::GotACK, replies: out, shown: None }
}

/// Slot `i` holds the first chat connection (our port 12345).
pub open spec fn first_chat(conns: Seq<Option<TcpConnection>>, i: int) -> bool {
    &&& 0 <= i < conns.len()
    &&& conns[i] matches Some(c) && c.src_port == CHAT_PORT
    &&& forall|j: int| 0 <= j < i ==> !(#[trigger] conns[j] matches Some(c) && c.src_port == CHAT_PORT)
}

/// What a key press in the chat loop asks for.
#[derive(Clone, Copy, PartialEq, Eq, Structural)]
pub enum ChatKey {
    /// Nothing beyond editing the line.
    Edit,
    /// Enter: send the line.
    Send,
    /// Esc: say goodbye and leave.
    Quit,
}

/// The chat: the connection table, the line being typed and the Shift and
/// Caps Lock state.
pub struct ChatSession {
    pub conns: [Option<TcpConnection>; 4],
    pub line: [u8; 256],
    pub line_len: usize,
    pub keys: KeyboardState,
}

impl ChatSession {
    /// No connection, an empty line.
    pub fn new() -> (r: Self)
        ensures
            r.line_len == 0,
            forall|i: int| 0 <= i < 4 ==> r.conns@[i] is None,
    {
        ChatSession { conns: [None, None, None, None], line: [0u8; 256], line_len: 0, keys: KeyboardState::new() }
    }

    /// A key press (releases are ignored): Esc quits, Enter sends, Backspace
    /// removes the last character, other keys add their character while the
    /// line has room for it.
    pub fn on_key(&mut self, key: u8) -> (r: ChatKey)
        requires
            old(self).line_len <= 256,
        ensures
            final(self).line_len <= 256,
            final(self).conns == old(self).conns,
            key & 0x80 != 0 ==> r == ChatKey::Edit && final(self).line_len == old(self).line_len,
            key & 0x80 == 0 && key == 0x01 ==> r == ChatKey::Quit,
            key & 0x80 == 0 && key == 0x1C ==> r == ChatKey::Send && final(self).line_len == old(self).line_len,
            key & 0x80 == 0 && key == 0x0E ==> r == ChatKey::Edit && final(self).line_len == if old(self).line_len > 0 {
                old(self).line_len - 1
            } else {
                0
            },
            key & 0x80 == 0 && !(key == 0x01 || key == 0x1C || key == 0x0E) ==> {
                &&& r == ChatKey::Edit
                &&& match key_char(key, old(self).keys.shift_pressed, old(self).keys.caps_lock_on) {
                    Some(c) => if old(self).line_len < 256 && !(key == 0x2A || key == 0x36 || key == 0x3A) {
                        final(self).line_len == old(self).line_len + 1 && final(self).line@[old(self).line_len as int] == c
                    } else {
                        final(self).line_len == old(self).line_len
                    },
                    None => final(self).line_len == old(self).line_len,
                }
            },
    {
        if key & 0x80 != 0 {
            return ChatKey::Edit;
        }
        if key == 0x01 {
            return ChatKey::Quit;
        }
        if key == 0x1C {
            return ChatKey::Send;
        }
        if key == 0x0E {
            if self.line_len > 0 {
                self.line_len = self.line_len - 1;
            }
            return ChatKey::Edit;
        }
        match self.keys.scancode_to_ascii(key) {
            Some(c) => {
                if self.line_len < 256 {
                    self.line[self.line_len] = c;
                    self.line_len = self.line_len + 1;
                }
            },
            None => {},
        }
        ChatKey::Edit
    }

    /// Hands a received segment to the chat: a closing connection is freed
    /// first, unknown segments are dropped, new ones open a connection.
    pub fn on_segment(&mut self, seg: &TcpSegment, payload: &[u8]) -> (r: ChatEvent)
        ensures
            final(self).line == old(self).line,
            final(self).line_len == old(self).line_len,
            (exists|i: int| #[trigger] first_closing(old(self).conns@, i)) ==> r.state == HandleState::FreedSocket
                && r.replies@.len() == 0,
            forall|i: int| #[trigger] first_closing(old(self).conns@, i) ==> final(self).conns@ == old(self).conns@.update(i, None),
            !(exists|i: int| #[trigger] first_closing(old(self).conns@, i)) ==> {
                &&& forall|i: int| #[trigger] first_match(old(self).conns@, *seg, i) ==> {
                    &&& final(self).conns@[i] is Some
                    &&& chat_handled(old(self).conns@[i]->0, *seg, payload@, final(self).conns@[i]->0, r)
                    &&& final(self).conns@ == old(self).conns@.update(i, final(self).conns@[i])
                }
                &&& (forall|k: int| !#[trigger] first_match(old(self).conns@, *seg, k)) ==> {
                    &&& !(seg.syn && !seg.ack) ==> r.state == HandleState::UnknownConn && r.replies@.len() == 0
                        && final(self).conns@ == old(self).conns@
                    &&& seg.syn && !seg.ack && (forall|k: int| 0 <= k < 4 ==> #[trigger] old(self).conns@[k] is Some) ==>
                        r.state == HandleState::NoFreeSockets && r.replies@.len() == 0 && final(self).conns@ == old(self).conns@
                    &&& seg.syn && !seg.ack ==> forall|i: int| #[trigger] first_empty(old(self).conns@, i) ==> {
                        &&& final(self).conns@[i] is Some
                        &&& chat_handled(opened(*seg), *seg, payload@, final(self).conns@[i]->0, r)
                        &&& final(self).conns@ == old(self).conns@.update(i, final(self).conns@[i])
                    }
                }
            },
    {
        if filter_and_close_conns(&mut self.conns) {
            return ChatEvent { state: HandleState::FreedSocket, replies: Vec::new(), shown: None };
        }
        match find_or_open(&mut self.conns, seg) {
            Err(LookupRefusal::UnknownConn) => ChatEvent { state: HandleState::UnknownConn, replies: Vec::new(), shown: None },
            Err(LookupRefusal::NoFreeSlot) => ChatEvent { state: HandleState::NoFreeSockets, replies: Vec::new(), shown: None },
            Ok(i) => {
                match self.conns[i] {
                    Some(c) => {
                        let mut cc = c;
                        let r = handle_tcp_packet(&mut cc, seg, payload);
                        self.conns[i] = Some(cc);
                        proof {
                            lemma_first_match_unique(old(self).conns@, *seg, i as int);
                            lemma_first_empty_unique(old(self).conns@, i as int);
                        }
                        r
                    },
                    None => ChatEvent { state: HandleState::EmptySlot, replies: Vec::new(), shown: None },
                }
            },
        }
    }

    /// The slot of the first chat connection.
    fn chat_slot(&self) -> (r: Option<usize>)
        ensures
            match r {
                Some(i) => first_chat(self.conns@, i as int),
                None => forall|i: int| !#[trigger] first_chat(self.conns@, i),
            },
    {
        let mut i: usize = 0;
        while i < 4
            invariant
                i <= 4,
                forall|j: int| 0 <= j < i ==> !(#[trigger] self.conns@[j] matches Some(c) && c.src_port == CHAT_PORT),
            decreases 4 - i,
        {
            let hit = match self.conns[i] {
                Some(c) => c.src_port == CHAT_PORT,
                None => false,
            };
            if hit {
                return Some(i);
            }
            i = i + 1;
        }
        proof {
            assert forall|k: int| !#[trigger] first_chat(self.conns@, k) by {
                if 0 <= k < 4 {
                    assert(!(self.conns@[k] matches Some(c) && c.src_port == CHAT_PORT));
                }
            }
        }
        None
    }

    /// Esc: the chat connection (if there is one) is told "BYE" and closed,
    /// and the chat ends; without one it goes on (None).
    pub fn on_interrupt(&mut self) -> (r: Option<TcpReply>)
        ensures
            final(self).line == old(self).line,
            final(self).line_len == old(self).line_len,
            match r {
                Some(rep) => exists|i: int| #[trigger] first_chat(old(self).conns@, i) && rep.flags == ACK | PSH | FIN
                    && rep.payload@ == bye() && Some(rep.conn) == old(self).conns@[i]
                    && final(self).conns@ == old(self).conns@.update(i, Some(TcpConnection { state: TcpState::Closed, ..rep.conn })),
                None => (forall|i: int| !#[trigger] first_chat(old(self).conns@, i)) && final(self).conns == old(self).conns,
            },
    {
        match self.chat_slot() {
            None => None,
            Some(i) => {
                match self.conns[i] {
                    Some(c) => {
                        let b: [u8; 4] = [0x42, 0x59, 0x45, 0x0a];
                        let rep = reply(&c, ACK | PSH | FIN, b.as_slice());
                        self.conns[i] = Some(TcpConnection { state: TcpState::Closed, ..c });
                        assert(b@ == bye());
                        Some(rep)
                    },
                    None => None,
                }
            },
        }
    }

    /// Enter: the typed line with a newline goes to the chat connection
    /// (when the line is shorter than 256 bytes), its sequence number moves
    /// on by the line's length, and the line is emptied either way. Returns
    /// the segment sent and the line shown as "[you]: " (newline made a space).
    pub fn send_line(&mut self) -> (r: Option<(TcpReply, Vec<u8>)>)
        requires
            old(self).line_len <= 256,
        ensures
            final(self).line_len == 0,
            match r {
                Some((rep, shown)) => exists|i: int| #[trigger] first_chat(old(self).conns@, i)
                    && old(self).line_len < 256
                    && rep.flags == ACK | PSH
                    && rep.payload@ == old(self).line@.take(old(self).line_len as int).push(0x0a)
                    && shown@ == old(self).line@.take(old(self).line_len as int).push(0x20)
                    && Some(rep.conn) == old(self).conns@[i],
                None => (forall|i: int| !#[trigger] first_chat(old(self).conns@, i)) || old(self).line_len == 256,
            },
    {
        let n = self.line_len;
        let found = self.chat_slot();
        let mut result: Option<(TcpReply, Vec<u8>)> = None;
        match found {
            Some(i) => {
                if n < 256 {
                    match self.conns[i] {
                        Some(c) => {
                            let mut msg: Vec<u8> = Vec::new();
                            push_all(&mut msg, &self.line.as_slice()[0..n]);
                            let mut shown: Vec<u8> = Vec::new();
                            push_all(&mut shown, &self.line.as_slice()[0..n]);
                            msg.push(0x0a);
                            shown.push(0x20);
                            let rep = reply(&c, ACK | PSH, msg.as_slice());
                            let mut cc = c;
                            cc.seq_num = cc.seq_num.wrapping_add(n as u32);
                            self.conns[i] = Some(cc);
                            result = Some((rep, shown));
                        },
                        None => {},
                    }
                }
            },
            None => {},
        }
        self.line = [0u8; 256];
        self.line_len = 0;
        result
    }
}

} // verus!
