//! The TCP connection table shared by the kernel's small TCP servers: the
//! connection states, the segments they receive, the replies they send,
//! and the lookup that ties a segment to a connection.
use vstd::prelude::*;

verus! {

/// Connections the table holds.
pub const MAX_CONNS: usize = 4;

pub const FIN: u16 = 0x01;
pub const SYN: u16 = 0x02;
pub const RST: u16 = 0x04;
pub const PSH: u16 = 0x08;
pub const ACK: u16 = 0x10;

/// The state of a TCP connection.
#[derive(Clone, Copy, PartialEq, Eq, Structural)]
pub enum TcpState {
    Closed,
    Listen,
    SynSent,
    SynReceived,
    Established,
    FinWait1,
    FinWait2,
    CloseWait,
    Closing,
    LastAck,
    TimeWait,
}

/// A connection: the peer's address is `src_ip`, ours `dst_ip`; our port is
/// `src_port`, the peer's `dst_port`.
#[derive(Clone, Copy)]
pub struct TcpConnection {
    pub state: TcpState,
    pub src_ip: [u8; 4],
    pub dst_ip: [u8; 4],
    pub src_port: u16,
    pub dst_port: u16,
    pub seq_num: u32,
    pub ack_num: u32,
}

/// The parts of a received segment the servers look at.
#[derive(Clone, Copy)]
pub struct TcpSegment {
    pub src_ip: [u8; 4],
    pub dst_ip: [u8; 4],
    pub src_port: u16,
    pub dst_port: u16,
    pub seq_num: u32,
    pub syn: bool,
    pub ack: bool,
    pub fin: bool,
}

/// A segment to send: the connection's ports, numbers and addresses when
/// it was sent, the flags and the payload.
pub struct TcpReply {
    pub conn: TcpConnection,
    pub flags: u16,
    pub payload: Vec<u8>,
}

/// The reply `flags`/`payload` on connection `conn`.
pub fn reply(conn: &TcpConnection, flags: u16, payload: &[u8]) -> (r: TcpReply)
    ensures
        r.conn == *conn,
        r.flags == flags,
        r.payload@ == payload@,
{
    let mut p: Vec<u8> = Vec::new();
    let mut i: usize = 0;
    while i < payload.len()
        invariant
            i <= payload@.len(),
            p@ == payload@.take(i as int),
        decreases payload@.len() - i,
    {
        p.push(payload[i]);
        i = i + 1;
        assert(p@ =~= payload@.take(i as int));
    }
    assert(payload@.take(payload@.len() as int) =~= payload@);
    TcpReply { conn: *conn, flags, payload: p }
}

/// Whether two IPv4 addresses are equal.
pub fn ip_eq(a: [u8; 4], b: [u8; 4]) -> (r: bool)
    ensures
        r == (a@ == b@),
{
    let r = a[0] == b[0] && a[1] == b[1] && a[2] == b[2] && a[3] == b[3];
    if r {
        assert(a@ =~= b@);
    } else {
        assert(a@ != b@);
    }
    r
}

/// States in which a connection is given up and its slot freed.
pub open spec fn is_closing(s: TcpState) -> bool {
    s == TcpState::Closed || s == TcpState::CloseWait || s == TcpState::FinWait1 || s == TcpState::FinWait2
        || s == TcpState::Closing || s == TcpState::TimeWait || s == TcpState::LastAck
}

fn closing(s: TcpState) -> (r: bool)
    ensures
        r == is_closing(s),
{
    s == TcpState::Closed || s == TcpState::CloseWait || s == TcpState::FinWait1 || s == TcpState::FinWait2
        || s == TcpState::Closing || s == TcpState::TimeWait || s == TcpState::LastAck
}

/// Slot `i` is the first one holding a connection in a closing state.
pub open spec fn first_closing(conns: Seq<Option<TcpConnection>>, i: int) -> bool {
    &&& 0 <= i < conns.len()
    &&& conns[i] matches Some(c) && is_closing(c.state)
    &&& forall|j: int| 0 <= j < i ==> !(#[trigger] conns[j] matches Some(c) && is_closing(c.state))
}

/// Frees the first slot whose connection is closing; true when one was.
pub fn filter_and_close_conns(conns: &mut [Option<TcpConnection>; 4]) -> (r: bool)
    ensures
        r == exists|i: int| #[trigger] first_closing(old(conns)@, i),
        !r ==> final(conns)@ == old(conns)@,
        forall|i: int| #[trigger] first_closing(old(conns)@, i) ==> final(conns)@ == old(conns)@.update(i, None),
{
    let mut i: usize = 0;
    while i < MAX_CONNS
        invariant
            conns@ == old(conns)@,
            i <= 4,
            forall|j: int| 0 <= j < i ==> !(#[trigger] conns@[j] matches Some(c) && is_closing(c.state)),
        decreases 4 - i,
    {
        let free = match conns[i] {
            Some(c) => closing(c.state),
            None => false,
        };
        if free {
            assert(first_closing(old(conns)@, i as int));
            conns[i] = None;
            proof {
                assert forall|k: int| #[trigger] first_closing(old(conns)@, k) implies k == i by {
                    if k < i {
                        assert(!(old(conns)@[k] matches Some(c) && is_closing(c.state)));
                    } else if k > i {
                        assert(!(old(conns)@[i as int] matches Some(c) && is_closing(c.state)) || k <= i);
                    }
                }
            }
            return true;
        }
        i = i + 1;
    }
    proof {
        assert forall|k: int| !#[trigger] first_closing(old(conns)@, k) by {
            if 0 <= k < 4 {
                assert(!(conns@[k] matches Some(c) && is_closing(c.state)));
            }
        }
    }
    false
}

/// The connection the segment `seg` belongs to: the peer's address and port
/// and ours match it.
pub open spec fn conn_of(c: TcpConnection, seg: TcpSegment) -> bool {
    c.src_ip@ == seg.src_ip@ && c.dst_ip@ == seg.dst_ip@ && c.src_port == seg.dst_port && c.dst_port == seg.src_port
}

/// Slot `i` is the first holding the connection of `seg`.
pub open spec fn first_match(conns: Seq<Option<TcpConnection>>, seg: TcpSegment, i: int) -> bool {
    &&& 0 <= i < conns.len()
    &&& conns[i] matches Some(c) && conn_of(c, seg)
    &&& forall|j: int| 0 <= j < i ==> !(#[trigger] conns[j] matches Some(c) && conn_of(c, seg))
}

/// Only one slot is the first to match a segment.
pub proof fn lemma_first_match_unique(conns: Seq<Option<TcpConnection>>, seg: TcpSegment, i: int)
    ensures
        forall|k: int| #[trigger] first_match(conns, seg, k) && first_match(conns, seg, i) ==> k == i,
{
    assert forall|k: int| #[trigger] first_match(conns, seg, k) && first_match(conns, seg, i) implies k == i by {
        if k < i {
            assert(conns[k] matches Some(c) && conn_of(c, seg));
        } else if i < k {
            assert(conns[i] matches Some(c) && conn_of(c, seg));
        }
    }
}

/// Only one slot is the first empty one.
pub proof fn lemma_first_empty_unique(conns: Seq<Option<TcpConnection>>, i: int)
    ensures
        forall|k: int| #[trigger] first_empty(conns, k) && first_empty(conns, i) ==> k == i,
{
    assert forall|k: int| #[trigger] first_empty(conns, k) && first_empty(conns, i) implies k == i by {
        if k < i {
            assert(conns[k] is Some);
        } else if i < k {
            assert(conns[i] is Some);
        }
    }
}

/// Slot `i` is the first empty one.
pub open spec fn first_empty(conns: Seq<Option<TcpConnection>>, i: int) -> bool {
    &&& 0 <= i < conns.len()
    &&& conns[i] is None
    &&& forall|j: int| 0 <= j < i ==> #[trigger] conns[j] is Some
}

/// The connection a new segment opens: listening, with the segment's
/// addresses and ports, numbers at 0.
pub open spec fn opened(seg: TcpSegment) -> TcpConnection {
    TcpConnection {
        state: TcpState::Listen,
        src_ip: seg.src_ip,
        dst_ip: seg.dst_ip,
        src_port: seg.dst_port,
        dst_port: seg.src_port,
        seq_num: 0,
        ack_num: 0,
    }
}

/// Why a segment found no connection.
#[derive(Clone, Copy, PartialEq, Eq, Structural)]
pub enum LookupRefusal {
    /// It belongs to no connection and does not open one.
    UnknownConn,
    /// It opens a connection but no slot is free.
    NoFreeSlot,
}

/// The slot of the connection `seg` belongs to; a SYN without ACK for no
/// known connection opens one in the first empty slot.
pub fn find_or_open(conns: &mut [Option<TcpConnection>; 4], seg: &TcpSegment) -> (r: Result<usize, LookupRefusal>)
    ensures
        match r {
            Ok(i) => {
                &&& i < 4
                &&& (first_match(old(conns)@, *seg, i as int) && final(conns)@ == old(conns)@)
                    || ((forall|k: int| !#[trigger] first_match(old(conns)@, *seg, k)) && seg.syn && !seg.ack
                        && first_empty(old(conns)@, i as int)
                        && final(conns)@ == old(conns)@.update(i as int, Some(opened(*seg))))
            },
            Err(LookupRefusal::UnknownConn) => (forall|k: int| !#[trigger] first_match(old(conns)@, *seg, k))
                && !(seg.syn && !seg.ack) && final(conns)@ == old(conns)@,
            Err(LookupRefusal::NoFreeSlot) => (forall|k: int| !#[trigger] first_match(old(conns)@, *seg, k))
                && seg.syn && !seg.ack && (forall|k: int| 0 <= k < 4 ==> #[trigger] old(conns)@[k] is Some)
                && final(conns)@ == old(conns)@,
        },
{
    let mut i: usize = 0;
    while i < MAX_CONNS
        invariant
            conns@ == old(conns)@,
            i <= 4,
            forall|j: int| 0 <= j < i ==> !(#[trigger] conns@[j] matches Some(c) && conn_of(c, *seg)),
        decreases 4 - i,
    {
        let hit = match conns[i] {
            Some(c) => ip_eq(c.src_ip, seg.src_ip) && ip_eq(c.dst_ip, seg.dst_ip) && c.src_port == seg.dst_port
                && c.dst_port == seg.src_port,
            None => false,
        };
        if hit {
            assert(first_match(old(conns)@, *seg, i as int));
            return Ok(i);
        }
        i = i + 1;
    }
    proof {
        assert forall|k: int| !#[trigger] first_match(old(conns)@, *seg, k) by {
            if 0 <= k < 4 {
                assert(!(conns@[k] matches Some(c) && conn_of(c, *seg)));
            }
        }
    }
    if !(seg.syn && !seg.ack) {
        return Err(LookupRefusal::UnknownConn);
    }
    let mut k: usize = 0;
    while k < MAX_CONNS
        invariant
            conns@ == old(conns)@,
            k <= 4,
            seg.syn && !seg.ack,
            forall|q: int| !#[trigger] first_match(old(conns)@, *seg, q),
            forall|j: int| 0 <= j < k ==> #[trigger] conns@[j] is Some,
        decreases 4 - k,
    {
        if conns[k].is_none() {
            conns[k] = Some(TcpConnection {
                state: TcpState::Listen,
                src_ip: seg.src_ip,
                dst_ip: seg.dst_ip,
                src_port: seg.dst_port,
                dst_port: seg.src_port,
                seq_num: 0,
                ack_num: 0,
            });
            assert(first_empty(old(conns)@, k as int));
            return Ok(k);
        }
        k = k + 1;
    }
    Err(LookupRefusal::NoFreeSlot)
}

} // verus!
