//! The translators: a table of one protocol with the address that stands
//! for the local network, at work on whole packets.

use crate::keygen::{FilterKey, KeyGen};
use crate::nattable::HashNATTable;
use crate::packet::{
    read_quote, redirect, redirected, quote_of, segment_flags, segment_flags_of, with_be32,
    write_be32,
};
use crate::statenattable::TcpStateHashNATTable;
use crate::util::{same_bytes, sized, IcmpEchoPortManager, PacketInfo, PortManager, TcpPortManager};
use std::marker::PhantomData;
use vstd::prelude::*;

verus! {

/// The packet as it leaves for the outside: sent from `global_addr` and
/// the external port `port`, with its checksum set right. Nothing where
/// the packet has no room for the port.
pub open spec fn sent_out<P: PortManager>(packet: Seq<u8>, global_addr: u32, port: u16) -> Option<
    Seq<u8>,
> {
    match P::with_src_port(with_be32(packet, 12, global_addr), port) {
        Some(s) => P::with_checksum(s),
        None => None,
    }
}

/// The packet as it is delivered inside: sent to the local endpoint
/// `local`, with its checksum set right. Nothing where the packet has no
/// room for the port.
pub open spec fn sent_in<P: PortManager>(packet: Seq<u8>, local: (u32, u16)) -> Option<Seq<u8>> {
    match P::with_dst_port(with_be32(packet, 16, local.0), local.1) {
        Some(s) => P::with_checksum(s),
        None => None,
    }
}

/// Rewrites an outgoing packet.
pub fn rewrite_egress<P: PortManager>(packet: Vec<u8>, global_addr: u32, port: u16) -> (r: Option<
    Vec<u8>,
>)
    requires
        sized(packet@),
    ensures
        same_bytes(r, sent_out::<P>(packet@, global_addr, port)),
        r is Some ==> r->0@.len() == packet@.len(),
{
    let mut packet = packet;
    write_be32(&mut packet, 12, global_addr);
    match P::set_src_port(packet, port) {
        Some(newp) => P::correct_checksum(newp),
        None => None,
    }
}

/// Rewrites an incoming packet.
pub fn rewrite_ingress<P: PortManager>(packet: Vec<u8>, local: (u32, u16)) -> (r: Option<Vec<u8>>)
    requires
        sized(packet@),
    ensures
        same_bytes(r, sent_in::<P>(packet@, local)),
        r is Some ==> r->0@.len() == packet@.len(),
{
    let mut packet = packet;
    write_be32(&mut packet, 16, local.0);
    match P::set_dst_port(packet, local.1) {
        Some(newp) => P::correct_checksum(newp),
        None => None,
    }
}

/// What answers a table gives for a packet, said of the table before and
/// after: for an incoming packet the local endpoint of the entry that
/// holds its destination port, for an outgoing one the external port that
/// the table maps its source to afterwards.
pub open spec fn translated<P: PortManager>(
    packet: Seq<u8>,
    ingress: bool,
    global_addr: u32,
    answer_in: Option<(u32, u16)>,
    answer_out: Option<u16>,
) -> Option<Seq<u8>> {
    if ingress {
        match answer_in {
            Some(local) => sent_in::<P>(packet, local),
            None => None,
        }
    } else {
        match answer_out {
            Some(port) => sent_out::<P>(packet, global_addr, port),
            None => None,
        }
    }
}

impl<LK: FilterKey, C: KeyGen<LK>> TcpStateHashNATTable<LK, C> {
    /// What `translate` does with the packet `pkt1` at time `now`: it takes
    /// the table from `pre` to `post` and gives `r`.
    ///
    /// A segment too short for its flags is dropped before the table sees
    /// it. Otherwise the table takes the segment as `my_transform_egress`
    /// or `my_transform_ingress` says, and the packet is rewritten with the
    /// table's answer.
    pub open spec fn translated_by(
        pre: &Self,
        post: &Self,
        pkt1: Seq<u8>,
        ingress: bool,
        global_addr: u32,
        now: u64,
        r: Option<Vec<u8>>,
    ) -> bool {
        let pi = TcpPortManager::info(pkt1);
        match segment_flags_of(pkt1) {
            None => r is None && *post == *pre,
            Some(flags) => {
                let answer_in = pre.error_target(
                    pi.dst_tuple.1,
                    pi.src_tuple.0,
                    pi.src_tuple.1,
                );
                let answer_out = post.mapped_port(
                    pi.src_tuple,
                    pre.key_of(pi.dst_tuple),
                );
                &&& same_bytes(
                    r,
                    translated::<TcpPortManager>(
                        pkt1,
                        ingress,
                        global_addr,
                        answer_in,
                        answer_out,
                    ),
                )
                &&& if ingress {
                    Self::ingressed(pre, post, pi, flags, now, answer_in)
                } else {
                    Self::egressed(pre, post, pi, flags, now, answer_out)
                }
            },
        }
    }

    /// Translates the packet `pkt1`, seen at time `now`, and rewrites it,
    /// or gives nothing if the packet is to be dropped.
    pub fn translate(
        &mut self,
        pkt1: Vec<u8>,
        ingress: bool,
        global_addr: u32,
        now: u64,
    ) -> (r: Option<Vec<u8>>)
        requires
            old(self).wf(),
            old(self).accepts(now),
            sized(pkt1@),
        ensures
            final(self).wf(),
            r is Some ==> r->0@.len() == pkt1@.len(),
            Self::translated_by(old(self), final(self), pkt1@, ingress, global_addr, now, r),
    {
        let pi: PacketInfo = TcpPortManager::get_info(pkt1.as_slice());
        let flags = match segment_flags(pkt1.as_slice()) {
            Some(flags) => flags,
            None => {
                return None;
            },
        };
        if ingress {
            match self.my_transform_ingress(pi, flags, now) {
                Some(local) => rewrite_ingress::<TcpPortManager>(pkt1, local),
                None => None,
            }
        } else {
            let answer = self.my_transform_egress(pi, flags, now);
            proof {
                Self::lemma_egress_answer(old(self), self, pi, flags, now, answer);
            }
            match answer {
                Some(np) => rewrite_egress::<TcpPortManager>(pkt1, global_addr, np),
                None => None,
            }
        }
    }
}

impl<LK: FilterKey, C: KeyGen<LK>> HashNATTable<LK, C> {
    /// What `translate` does with the packet `pkt1` at time `now`: it takes
    /// the table from `pre` to `post` and gives `r`.
    ///
    /// A packet that cannot be read is dropped before the table sees it.
    /// Otherwise the table takes the packet as `my_transform_egress` or
    /// `my_transform_ingress` says, and the packet is rewritten with the
    /// table's answer.
    pub open spec fn translated_by<P: PortManager>(
        pre: &Self,
        post: &Self,
        pkt1: Seq<u8>,
        ingress: bool,
        global_addr: u32,
        now: u64,
        r: Option<Vec<u8>>,
    ) -> bool {
        let pi = P::info(pkt1);
        let answer_in = pre.error_target(pi.dst_tuple.1, pi.src_tuple.0, pi.src_tuple.1);
        let answer_out = post.mapped_port(pi.src_tuple, pre.key_of(pi.dst_tuple));
        if !P::reads(pkt1) {
            r is None && *post == *pre
        } else {
            &&& same_bytes(r, translated::<P>(pkt1, ingress, global_addr, answer_in, answer_out))
            &&& if ingress {
                Self::ingressed(pre, post, pi, now, answer_in)
            } else {
                Self::egressed(pre, post, pi, now, answer_out)
            }
        }
    }

    /// Translates the packet `pkt1`, seen at time `now`, and rewrites it,
    /// or gives nothing if the packet is to be dropped.
    pub fn translate<P: PortManager>(
        &mut self,
        pkt1: Vec<u8>,
        ingress: bool,
        global_addr: u32,
        now: u64,
    ) -> (r: Option<Vec<u8>>)
        requires
            old(self).wf(),
            sized(pkt1@),
        ensures
            final(self).wf(),
            r is Some ==> r->0@.len() == pkt1@.len(),
            Self::translated_by::<P>(old(self), final(self), pkt1@, ingress, global_addr, now, r),
    {
        if !P::can_read(pkt1.as_slice()) {
            return None;
        }
        let pi: PacketInfo = P::get_info(pkt1.as_slice());
        if ingress {
            match self.my_transform_ingress(pi, now) {
                Some(local) => rewrite_ingress::<P>(pkt1, local),
                None => None,
            }
        } else {
            let answer = self.my_transform_egress(pi, now);
            proof {
                Self::lemma_egress_answer(old(self), self, pi, now, answer);
            }
            match answer {
                Some(np) => rewrite_egress::<P>(pkt1, global_addr, np),
                None => None,
            }
        }
    }
}

/// A table at work on the packets of the protocol that `P` reads.
pub trait NATter0<P: PortManager>: Sized {
    /// The table is well formed.
    spec fn ready(&self) -> bool;

    /// The table can take a packet at time `now`.
    spec fn accepts(&self, now: u64) -> bool;

    /// The local endpoint that an ICMP error is for.
    spec fn target(&self, local_port: u16, remote_addr: u32, remote_port: u16) -> Option<
        (u32, u16),
    >;

    /// What `transform` does with a packet: it takes the table from `pre`
    /// to `post` and gives `r`.
    spec fn translates(
        pre: &Self,
        post: &Self,
        pkt1: Seq<u8>,
        ingress: bool,
        global_addr: u32,
        now: u64,
        r: Option<Vec<u8>>,
    ) -> bool;

    /// Whether the table can take a packet at time `now`.
    fn has_room(&self, now: u64) -> (b: bool)
        requires
            self.ready(),
        ensures
            b == self.accepts(now),
    ;

    /// Translates the packet `pkt1`, seen at time `now`, and rewrites it,
    /// or gives nothing if the packet is to be dropped.
    fn transform(&mut self, pkt1: Vec<u8>, ingress: bool, global_addr: u32, now: u64) -> (r:
        Option<Vec<u8>>)
        requires
            old(self).ready(),
            old(self).accepts(now),
            sized(pkt1@),
        ensures
            final(self).ready(),
            r is Some ==> r->0@.len() == pkt1@.len(),
            Self::translates(old(self), final(self), pkt1@, ingress, global_addr, now, r),
    ;

    /// Finds the local endpoint that an ICMP error is for.
    fn transform_icmp_error(&mut self, local_port: u16, remote_addr: u32, remote_port: u16) -> (r:
        Option<(u32, u16)>)
        requires
            old(self).ready(),
        ensures
            *final(self) == *old(self),
            r == old(self).target(local_port, remote_addr, remote_port),
    ;
}

impl<LK: FilterKey, C: KeyGen<LK>> NATter0<TcpPortManager> for TcpStateHashNATTable<LK, C> {
    open spec fn ready(&self) -> bool {
        self.wf()
    }

    open spec fn accepts(&self, now: u64) -> bool {
        TcpStateHashNATTable::accepts(self, now)
    }

    open spec fn target(&self, local_port: u16, remote_addr: u32, remote_port: u16) -> Option<
        (u32, u16),
    > {
        self.error_target(local_port, remote_addr, remote_port)
    }

    open spec fn translates(
        pre: &Self,
        post: &Self,
        pkt1: Seq<u8>,
        ingress: bool,
        global_addr: u32,
        now: u64,
        r: Option<Vec<u8>>,
    ) -> bool {
        Self::translated_by(pre, post, pkt1, ingress, global_addr, now, r)
    }

    fn has_room(&self, now: u64) -> (b: bool) {
        TcpStateHashNATTable::has_room(self, now)
    }

    fn transform(&mut self, pkt1: Vec<u8>, ingress: bool, global_addr: u32, now: u64) -> (r:
        Option<Vec<u8>>) {
        self.translate(pkt1, ingress, global_addr, now)
    }

    fn transform_icmp_error(&mut self, local_port: u16, remote_addr: u32, remote_port: u16) -> (r:
        Option<(u32, u16)>) {
        self.my_transform_icmp_error(local_port, remote_addr, remote_port)
    }
}

impl<P: PortManager, LK: FilterKey, C: KeyGen<LK>> NATter0<P> for HashNATTable<LK, C> {
    open spec fn ready(&self) -> bool {
        self.wf()
    }

    open spec fn accepts(&self, now: u64) -> bool {
        true
    }

    open spec fn target(&self, local_port: u16, remote_addr: u32, remote_port: u16) -> Option<
        (u32, u16),
    > {
        self.error_target(local_port, remote_addr, remote_port)
    }

    open spec fn translates(
        pre: &Self,
        post: &Self,
        pkt1: Seq<u8>,
        ingress: bool,
        global_addr: u32,
        now: u64,
        r: Option<Vec<u8>>,
    ) -> bool {
        Self::translated_by::<P>(pre, post, pkt1, ingress, global_addr, now, r)
    }

    fn has_room(&self, now: u64) -> (b: bool) {
        true
    }

    fn transform(&mut self, pkt1: Vec<u8>, ingress: bool, global_addr: u32, now: u64) -> (r:
        Option<Vec<u8>>) {
        self.translate::<P>(pkt1, ingress, global_addr, now)
    }

    fn transform_icmp_error(&mut self, local_port: u16, remote_addr: u32, remote_port: u16) -> (r:
        Option<(u32, u16)>) {
        self.my_transform_icmp_error(local_port, remote_addr, remote_port)
    }
}

/// A translator for one protocol.
pub trait NATter {
    /// The translator's table is well formed.
    spec fn ready(&self) -> bool;

    /// What `transform` does with the packet `p` at time `now`: it takes
    /// the translator from `pre` to `post` and gives `r`.
    spec fn transforms(
        pre: &Self,
        post: &Self,
        p: Seq<u8>,
        ingress: bool,
        now: u64,
        r: Option<Vec<u8>>,
    ) -> bool;

    /// What `transform_icmp` does with the ICMP error `p`: it takes the
    /// translator from `pre` to `post` and gives `r`.
    spec fn reflects(pre: &Self, post: &Self, p: Seq<u8>, r: Option<Vec<u8>>) -> bool;

    /// Translates a packet seen at time `now`. A packet that is not of the
    /// size of an IPv4 packet, or for which the table has no room, is
    /// dropped.
    fn transform(&mut self, p: Vec<u8>, ingress: bool, now: u64) -> (r: Option<Vec<u8>>)
        requires
            old(self).ready(),
        ensures
            final(self).ready(),
            Self::transforms(old(self), final(self), p@, ingress, now, r),
    ;

    /// Translates an ICMP error that quotes a packet sent out through the
    /// table.
    fn transform_icmp(&mut self, p: Vec<u8>) -> (r: Option<Vec<u8>>)
        requires
            old(self).ready(),
        ensures
            final(self).ready(),
            Self::reflects(old(self), final(self), p@, r),
    ;
}

/// The translator for the protocol that `P` reads: the table `table`
/// behind the external address `global_addr`.
pub struct HashNATTer<P: PortManager, N: NATter0<P>> {
    pub p: PhantomData<P>,
    pub global_addr: u32,
    pub table: N,
}

/// The ICMP error `packet` as it is delivered inside, where the table finds
/// `target` for the endpoints that it quotes: the quoted packet's source
/// and the error's own destination are the local endpoint, and the ICMP
/// checksum is set right. Nothing where the error quotes too little or the
/// table finds no entry.
pub open spec fn reflected(packet: Seq<u8>, target: Option<(u32, u16)>) -> Option<Seq<u8>> {
    match (quote_of(packet), target) {
        (Some(q), Some(local)) => IcmpEchoPortManager::with_checksum(
            redirected(packet, q, local.0, local.1),
        ),
        _ => None,
    }
}

impl<P: PortManager, N: NATter0<P>> NATter for HashNATTer<P, N> {
    open spec fn ready(&self) -> bool {
        self.table.ready()
    }

    /// A packet of the size of an IPv4 packet, for which the table has
    /// room, is translated by the table behind the translator's address.
    /// Any other is dropped.
    open spec fn transforms(
        pre: &Self,
        post: &Self,
        p: Seq<u8>,
        ingress: bool,
        now: u64,
        r: Option<Vec<u8>>,
    ) -> bool {
        &&& post.global_addr == pre.global_addr
        &&& if sized(p) && pre.table.accepts(now) {
            N::translates(&pre.table, &post.table, p, ingress, pre.global_addr, now, r)
        } else {
            r is None && post.table == pre.table
        }
    }

    /// The endpoints that the error quotes are looked up in the table as
    /// `transform_icmp_error` says, and the error is rewritten for the
    /// local endpoint found. An error that is not of the size of an IPv4
    /// packet is dropped. The table stays as it is.
    open spec fn reflects(pre: &Self, post: &Self, p: Seq<u8>, r: Option<Vec<u8>>) -> bool {
        &&& post.global_addr == pre.global_addr
        &&& post.table == pre.table
        &&& if sized(p) {
            same_bytes(
                r,
                reflected(
                    p,
                    match quote_of(p) {
                        Some(q) => pre.table.target(q.src_port, q.dst_addr, q.dst_port),
                        None => None,
                    },
                ),
            )
        } else {
            r is None
        }
    }

    fn transform(&mut self, pkt1: Vec<u8>, ingress: bool, now: u64) -> (r: Option<Vec<u8>>) {
        if pkt1.len() < crate::packet::MIN_HEADER || pkt1.len() > crate::packet::MAX_PACKET {
            return None;
        }
        if !self.table.has_room(now) {
            return None;
        }
        self.table.transform(pkt1, ingress, self.global_addr, now)
    }

    fn transform_icmp(&mut self, packet: Vec<u8>) -> (r: Option<Vec<u8>>) {
        if packet.len() < crate::packet::MIN_HEADER || packet.len() > crate::packet::MAX_PACKET {
            return None;
        }
        let q = match read_quote(packet.as_slice()) {
            Some(q) => q,
            None => {
                return None;
            },
        };
        match self.table.transform_icmp_error(q.src_port, q.dst_addr, q.dst_port) {
            Some((addr, port)) => {
                let packet = redirect(packet, q, addr, port);
                IcmpEchoPortManager::correct_checksum(packet)
            },
            None => None,
        }
    }
}

} // verus!
