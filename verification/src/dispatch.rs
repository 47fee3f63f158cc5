//! The dispatcher: which translator a packet goes to, and what becomes of
//! the packet.

use crate::natter::NATter;
use crate::packet::{
    correct_header_checksum, destination, header_sum, ip_version, payload, payload_bounds,
    protocol, read_be32, with_be16, MAX_PACKET, MIN_HEADER, PROTO_TCP, PROTO_UDP,
};
use vstd::prelude::*;

verus! {

/// A packet to this address makes the translators report their tables: it
/// is 192.0.2.2.
pub const STATUS_ADDR: u32 = 0xc000_0202;

/// The protocol number of the control messages.
pub const PROTO_MESSAGE: u8 = 1;

/// The message type of an echo request.
pub const TYPE_ECHO_REQUEST: u8 = 8;

/// The message type of an echo reply.
pub const TYPE_ECHO_REPLY: u8 = 0;

/// The message type of "destination unreachable".
pub const TYPE_UNREACHABLE: u8 = 3;

/// The message type of "time exceeded".
pub const TYPE_TIME_EXCEEDED: u8 = 11;

/// Where a packet goes.
#[derive(Clone, Copy, PartialEq, Eq, Debug, Structural)]
pub enum Route {
    /// The tables are to be reported; the packet goes nowhere.
    Status,
    /// To the TCP translator.
    Tcp { ingress: bool },
    /// To the UDP translator.
    Udp { ingress: bool },
    /// To the echo translator.
    Echo { ingress: bool },
    /// To the TCP translator, as an error about a segment.
    TcpError,
    /// To the UDP translator, as an error about a datagram.
    UdpError,
    /// Nowhere.
    Drop,
}

/// Where a control message goes: an echo request out, an echo reply in,
/// an error to the translator of the protocol that the quoted packet
/// carries. Anything else goes nowhere.
pub open spec fn message_route(message: Seq<u8>, ingress: bool) -> Route {
    if message.len() < 4 {
        Route::Drop
    } else if message[0] == TYPE_ECHO_REQUEST {
        if !ingress {
            Route::Echo { ingress: false }
        } else {
            Route::Drop
        }
    } else if message[0] == TYPE_ECHO_REPLY {
        if ingress {
            Route::Echo { ingress: true }
        } else {
            Route::Drop
        }
    } else if message[0] == TYPE_UNREACHABLE || message[0] == TYPE_TIME_EXCEEDED {
        if message.len() > 17 && message[17] == PROTO_UDP {
            Route::UdpError
        } else if message.len() > 17 && message[17] == PROTO_TCP {
            Route::TcpError
        } else {
            Route::Drop
        }
    } else {
        Route::Drop
    }
}

/// Where a packet goes. Only IPv4 packets of a size that such a packet can
/// have go anywhere. A packet is incoming if it is addressed to
/// `global_addr`.
pub open spec fn route_of(packet: Seq<u8>, global_addr: u32) -> Route {
    if packet.len() < MIN_HEADER || packet.len() > MAX_PACKET || ip_version(packet) != 4 {
        Route::Drop
    } else if destination(packet) == STATUS_ADDR {
        Route::Status
    } else {
        let ingress = destination(packet) == global_addr;
        if protocol(packet) == PROTO_TCP {
            Route::Tcp { ingress }
        } else if protocol(packet) == PROTO_UDP {
            Route::Udp { ingress }
        } else if protocol(packet) == PROTO_MESSAGE {
            message_route(payload(packet), ingress)
        } else {
            Route::Drop
        }
    }
}

/// Finds where a packet goes.
pub fn route(packet: &[u8], global_addr: u32) -> (r: Route)
    ensures
        r == route_of(packet@, global_addr),
{
    if packet.len() < MIN_HEADER || packet.len() > MAX_PACKET || packet[0] / 16 != 4 {
        return Route::Drop;
    }
    let dst = read_be32(packet, 16);
    if dst == STATUS_ADDR {
        return Route::Status;
    }
    let ingress = dst == global_addr;
    let proto = packet[9];
    if proto == PROTO_TCP {
        Route::Tcp { ingress }
    } else if proto == PROTO_UDP {
        Route::Udp { ingress }
    } else if proto == PROTO_MESSAGE {
        let (start, end) = payload_bounds(packet);
        let len = end - start;
        if len < 4 {
            return Route::Drop;
        }
        assert(payload(packet@)[0] == packet@[start + 0]);
        let kind = packet[start];
        if kind == TYPE_ECHO_REQUEST {
            if !ingress {
                Route::Echo { ingress: false }
            } else {
                Route::Drop
            }
        } else if kind == TYPE_ECHO_REPLY {
            if ingress {
                Route::Echo { ingress: true }
            } else {
                Route::Drop
            }
        } else if kind == TYPE_UNREACHABLE || kind == TYPE_TIME_EXCEEDED {
            if len > 17 {
                assert(payload(packet@)[17] == packet@[start + 17]);
                let quoted = packet[start + 17];
                if quoted == PROTO_UDP {
                    Route::UdpError
                } else if quoted == PROTO_TCP {
                    Route::TcpError
                } else {
                    Route::Drop
                }
            } else {
                Route::Drop
            }
        } else {
            Route::Drop
        }
    } else {
        Route::Drop
    }
}

/// What becomes of a packet.
pub enum Outcome {
    /// The packet, translated, is to be sent on.
    Forward(Vec<u8>),
    /// The tables are to be reported.
    Status,
    /// The packet is dropped.
    Drop,
}

/// What becomes of a packet that its translator has handed back as `t`: it
/// is sent on with the checksum of its header set right, or dropped where
/// the translator gave nothing, or nothing of the size of an IPv4 packet.
pub open spec fn finished(t: Option<Vec<u8>>, r: Outcome) -> bool {
    match t {
        Some(v) => if MIN_HEADER <= v@.len() <= MAX_PACKET {
            r matches Outcome::Forward(w) && w@ == with_be16(v@, 10, header_sum(v@))
        } else {
            r is Drop
        },
        None => r is Drop,
    }
}

/// The three translators behind one external address.
pub struct Dispatcher<T: NATter, U: NATter, E: NATter> {
    pub global_addr: u32,
    pub tcp: T,
    pub udp: U,
    pub echo: E,
}

impl<T: NATter, U: NATter, E: NATter> Dispatcher<T, U, E> {
    /// Every translator's table is well formed.
    pub open spec fn ready(&self) -> bool {
        &&& self.tcp.ready()
        &&& self.udp.ready()
        &&& self.echo.ready()
    }

    /// Puts three translators behind the address `global_addr`.
    pub fn new(global_addr: u32, tcp: T, udp: U, echo: E) -> (d: Self)
        ensures
            d.global_addr == global_addr,
            d.tcp == tcp,
            d.udp == udp,
            d.echo == echo,
    {
        Self { global_addr, tcp, udp, echo }
    }

    /// Hands a packet that was read at time `now` to the translator that
    /// `route_of` names, and sets the header checksum of what comes back.
    /// No other translator is touched. A packet that goes nowhere, and one
    /// that its translator drops, is dropped.
    pub fn handle(&mut self, packet: Vec<u8>, now: u64) -> (r: Outcome)
        requires
            old(self).ready(),
        ensures
            final(self).ready(),
            final(self).global_addr == old(self).global_addr,
            match route_of(packet@, old(self).global_addr) {
                Route::Status => r is Status && *final(self) == *old(self),
                Route::Drop => r is Drop && *final(self) == *old(self),
                Route::Tcp { ingress } => final(self).udp == old(self).udp && final(self).echo
                    == old(self).echo && exists|t: Option<Vec<u8>>|
                    T::transforms(&old(self).tcp, &final(self).tcp, packet@, ingress, now, t)
                        && #[trigger] finished(t, r),
                Route::TcpError => final(self).udp == old(self).udp && final(self).echo
                    == old(self).echo && exists|t: Option<Vec<u8>>|
                    T::reflects(&old(self).tcp, &final(self).tcp, packet@, t)
                        && #[trigger] finished(t, r),
                Route::Udp { ingress } => final(self).tcp == old(self).tcp && final(self).echo
                    == old(self).echo && exists|t: Option<Vec<u8>>|
                    U::transforms(&old(self).udp, &final(self).udp, packet@, ingress, now, t)
                        && #[trigger] finished(t, r),
                Route::UdpError => final(self).tcp == old(self).tcp && final(self).echo
                    == old(self).echo && exists|t: Option<Vec<u8>>|
                    U::reflects(&old(self).udp, &final(self).udp, packet@, t)
                        && #[trigger] finished(t, r),
                Route::Echo { ingress } => final(self).tcp == old(self).tcp && final(self).udp
                    == old(self).udp && exists|t: Option<Vec<u8>>|
                    E::transforms(&old(self).echo, &final(self).echo, packet@, ingress, now, t)
                        && #[trigger] finished(t, r),
            },
    {
        let translated = match route(packet.as_slice(), self.global_addr) {
            Route::Status => {
                return Outcome::Status;
            },
            Route::Drop => {
                return Outcome::Drop;
            },
            Route::Tcp { ingress } => self.tcp.transform(packet, ingress, now),
            Route::Udp { ingress } => self.udp.transform(packet, ingress, now),
            Route::Echo { ingress } => self.echo.transform(packet, ingress, now),
            Route::TcpError => self.tcp.transform_icmp(packet),
            Route::UdpError => self.udp.transform_icmp(packet),
        };
        let r = match translated {
            Some(natted) => {
                let mut natted = natted;
                if correct_header_checksum(&mut natted) {
                    Outcome::Forward(natted)
                } else {
                    Outcome::Drop
                }
            },
            None => Outcome::Drop,
        };
        assert(finished(translated, r));
        r
    }
}

} // verus!
