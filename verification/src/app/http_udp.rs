//! The HTTP-over-UDP responder: which datagrams get the greeting page.
use vstd::prelude::*;

verus! {

/// `p` starts with "GET /".
pub open spec fn is_get(p: Seq<u8>) -> bool {
    p.len() >= 5 && p[0] == 0x47 && p[1] == 0x45 && p[2] == 0x54 && p[3] == 0x20 && p[4] == 0x2F
}

/// Decides on a datagram, given the IPv4 protocol number and the parsed UDP
/// datagram (source port, destination port, payload) when it parsed: a
/// request "GET /..." to port 80 over UDP (17) is answered, from port 80
/// back to the source port, with code 0; anything else gets code 2 and no
/// answer.
pub fn udp_handler(protocol: u8, datagram: Option<(u16, u16, &[u8])>) -> (r: (u8, Option<(u16, u16)>))
    ensures
        (match datagram {
            Some((src, dst, payload)) if protocol == 17 && dst == 80 && is_get(payload@) => r == (0u8, Some((dst, src))),
            _ => r == (2u8, None::<(u16, u16)>),
        }),
{
    if protocol != 17 {
        return (2, None);
    }
    match datagram {
        Some((src_port, dst_port, payload)) => {
            if dst_port == 80 && payload.len() >= 5 && payload[0] == 0x47 && payload[1] == 0x45 && payload[2]
                == 0x54 && payload[3] == 0x20 && payload[4] == 0x2F {
                (0, Some((dst_port, src_port)))
            } else {
                (2, None)
            }
        },
        None => (2, None),
    }
}

/// The page sent back to a request.
pub fn udp_http_response() -> (r: &'static str)
    ensures
        r@ == "HTTP/1.1 200 OK\r\nContent-Type: text/plain\r\n\r\nHello from rou2exOS Rusted Edition!"@,
{
    "HTTP/1.1 200 OK\r\nContent-Type: text/plain\r\n\r\nHello from rou2exOS Rusted Edition!"
}

} // verus!
