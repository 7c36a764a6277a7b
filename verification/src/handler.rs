use vstd::prelude::*;
use crate::addr::NetAddr;
use crate::gd_udp::RETURN_RECEIPT;
use crate::protocol::{
    AckMessage,
    AckMessageV,
    Header,
    KadMessage,
    Message,
    MessageV,
    Packet,
    dec_ack,
    dec_kad,
    dec_packet,
    enc_ack,
};
use crate::hexs::hex_decode;

verus! {

/// A completed message routed to its component.
pub enum Dispatch {
    Kad(NetAddr, KadMessage),
    Gossip(NetAddr, Message),
    Ack(AckMessage),
}

/// What the router answers for a completed message: lookup-protocol
/// messages go to the lookup service, gossip messages to the gossip
/// service, acknowledgements to the packet layer, and undecodable bodies
/// are dropped.
pub open spec fn dispatched(m: MessageV, src: NetAddr, r: Option<Dispatch>) -> bool {
    match m.head {
        Header::Request | Header::Response => match r {
            Some(d) => d matches Dispatch::Kad(a, km) && a == src && Some(km@) == dec_kad(m.msg),
            None => dec_kad(m.msg) is None,
        },
        Header::Gossip => r matches Some(d) && d matches Dispatch::Gossip(a, mm) && a == src && mm@
            == m,
        Header::Ack => match r {
            Some(d) => d matches Dispatch::Ack(am) && Some(am@) == dec_ack(m.msg),
            None => dec_ack(m.msg) is None,
        },
    }
}

/// The payloads of packet numbers `n` through `total`, hex-decoded and
/// joined in packet order; `None` when a number is missing or a payload is
/// not a hex rendering.
pub open spec fn stream_payload(packets: Seq<Packet>, n: int, total: int) -> Option<Seq<u8>>
    decreases total - n + 1,
{
    if n > total {
        Some(Seq::empty())
    } else if exists|j: int| 0 <= j < packets.len() && (#[trigger] packets[j]).n as int == n {
        let j = choose|j: int| 0 <= j < packets.len() && (#[trigger] packets[j]).n as int == n;
        if exists|bs: Seq<u8>| packets[j]@.bytes == crate::hexs::hex_of(bs) {
            match stream_payload(packets, n + 1, total) {
                Some(rest) => Some(crate::protocol::unhex(packets[j]@.bytes) + rest),
                None => None,
            }
        } else {
            None
        }
    } else {
        None
    }
}

/// The packets of one stream still awaiting completion.
pub struct PendingStream {
    pub id: [u8; 32],
    pub packets: Vec<Packet>,
}

/// Reassembles incoming packets into messages and routes each completed
/// message by its header.
pub struct MessageHandler {
    pub pending: Vec<PendingStream>,
}

impl MessageHandler {
    /// Distinct stream ids, and distinct packet numbers within a stream.
    pub open spec fn wf(&self) -> bool {
        &&& forall|i: int, j: int|
            0 <= i < j < self.pending@.len() ==> (#[trigger] self.pending@[i]).id@ != (
            #[trigger] self.pending@[j]).id@
        &&& forall|i: int, a: int, b: int|
            #![trigger self.pending@[i].packets@[a], self.pending@[i].packets@[b]]
            0 <= i < self.pending@.len() && 0 <= a < b < self.pending@[i].packets@.len()
                ==> self.pending@[i].packets@[a].n != self.pending@[i].packets@[b].n
    }

    /// Whether some pending stream carries this id.
    pub open spec fn has_pending(&self, id: Seq<u8>) -> bool {
        exists|j: int| 0 <= j < self.pending@.len() && (#[trigger] self.pending@[j]).id@ == id
    }

    /// The index of the pending stream carrying this id; meaningful when
    /// one does.
    pub open spec fn pending_index(&self, id: Seq<u8>) -> int {
        choose|j: int| 0 <= j < self.pending@.len() && (#[trigger] self.pending@[j]).id@ == id
    }

    /// A handler with the given pending reassemblies.
    pub fn new(pending: Vec<PendingStream>) -> (r: MessageHandler)
        ensures
            r.pending == pending,
    {
        MessageHandler { pending }
    }

    /// Decode one received datagram as a packet; when it asks for a return
    /// receipt, also build the acknowledgement message to enqueue for the
    /// sender. Bytes that do not decode are dropped.
    pub fn process_packet(&self, local: NetAddr, buf: &[u8], src: NetAddr) -> (r: Option<
        (Packet, Option<(NetAddr, Message)>),
    >)
        ensures
            match r {
                Some(pa) => {
                    &&& dec_packet(buf@) == Some(pa.0@)
                    &&& (pa.1 is Some <==> pa.0@.ret == RETURN_RECEIPT)
                    &&& (pa.1 matches Some(am) ==> am.0 == src && am.1@ == (MessageV {
                        head: Header::Ack,
                        msg: enc_ack(
                            AckMessageV {
                                packet_id: pa.0@.id,
                                packet_number: pa.0@.n,
                                src: crate::wire::enc_addr(local),
                            },
                        ),
                    }))
                },
                None => dec_packet(buf@) is None,
            },
    {
        let packet = Packet::from_bytes(buf);
        match packet {
            Some(packet) => {
                if packet.ret == RETURN_RECEIPT {
                    let ack = AckMessage {
                        packet_id: packet.id,
                        packet_number: packet.n,
                        src: local.to_bytes(),
                    };
                    let message = Message { head: Header::Ack, msg: ack.as_bytes() };
                    Some((packet, Some((src, message))))
                } else {
                    Some((packet, None))
                }
            },
            None => None,
        }
    }

    /// Route a completed message by its header: lookup-protocol messages to
    /// the lookup service, gossip messages to the gossip service, and
    /// acknowledgements to the packet layer. Bodies that do not decode are
    /// dropped.
    pub fn handle_message(&self, message: Message, src: NetAddr) -> (r: Option<Dispatch>)
        ensures
            dispatched(message@, src, r),
    {
        match message.head {
            Header::Request | Header::Response => {
                match KadMessage::from_bytes(message.msg.as_slice()) {
                    Some(msg) => Some(Dispatch::Kad(src, msg)),
                    None => None,
                }
            },
            Header::Ack => {
                match AckMessage::from_bytes(message.msg.as_slice()) {
                    Some(ack) => Some(Dispatch::Ack(ack)),
                    None => None,
                }
            },
            Header::Gossip => Some(Dispatch::Gossip(src, message)),
        }
    }

    /// Take one packet in: a single-packet stream with no partial assembly
    /// is decoded and dispatched at once; otherwise the packet joins its
    /// stream, and once every packet number up to the stream's count is
    /// present, the payloads are hex-decoded, joined in packet order,
    /// decoded as a message, dispatched, and the stream is dropped.
    /// Duplicate packet numbers and undecodable payloads are dropped.
    pub fn insert_packet(&mut self, packet: Packet, src: NetAddr) -> (r: Option<Dispatch>)
        requires
            old(self).wf(),
        ensures
            final (self).wf(),
            (!old(self).has_pending(packet@.id) && packet@.total_n == 1) ==> (*final (self)
                == *old(self) && ((exists|bs: Seq<u8>|
                packet@.bytes == crate::hexs::hex_of(bs)) ==> (match crate::protocol::dec_message(
                crate::protocol::unhex(packet@.bytes),
            ) {
                Some(mv) => dispatched(mv, src, r),
                None => r is None,
            }))),
            (!old(self).has_pending(packet@.id) && packet@.total_n != 1) ==> {
                &&& r is None
                &&& final (self).pending@.len() == old(self).pending@.len() + 1
                &&& (forall|j: int|
                    0 <= j < old(self).pending@.len() ==> final (self).pending@[j] == old(
                        self,
                    ).pending@[j])
                &&& final (self).pending@[old(self).pending@.len() as int].id@ == packet@.id
                &&& final (self).pending@[old(self).pending@.len() as int].packets@ == seq![packet]
            },
            old(self).has_pending(packet@.id) ==> {
                let i = old(self).pending_index(packet@.id);
                let opp = old(self).pending@[i].packets@;
                let stored = (if exists|j: int|
                    0 <= j < opp.len() && (#[trigger] opp[j]).n == packet.n {
                    opp
                } else {
                    opp.push(packet)
                });
                &&& (stored.len() != stored[0]@.total_n ==> {
                    &&& r is None
                    &&& final (self).pending@.len() == old(self).pending@.len()
                    &&& (forall|j: int|
                        0 <= j < old(self).pending@.len() && j != i ==> final (self).pending@[j]
                            == old(self).pending@[j])
                    &&& final (self).pending@[i].id@ == packet@.id
                    &&& final (self).pending@[i].packets@ == stored
                })
                &&& (stored.len() == stored[0]@.total_n ==> {
                    &&& final (self).pending@ == old(self).pending@.remove(i)
                    &&& (stored[0]@.total_n < usize::MAX ==> (stream_payload(
                        stored,
                        1,
                        stored[0]@.total_n,
                    ) matches Some(w) ==> (match crate::protocol::dec_message(w) {
                        Some(mv) => dispatched(mv, src, r),
                        None => r is None,
                    })))
                    &&& (stored[0]@.total_n == usize::MAX ==> r is None)
                })
            },
    {
        let si = self.find_stream(&packet.id);
        match si {
            None => {
                if packet.total_n == 1 {
                    let decoded = hex_decode(packet.bytes.as_str());
                    match decoded {
                        Some(bytes) => {
                            proof {
                                if exists|bs: Seq<u8>|
                                    packet@.bytes == crate::hexs::hex_of(bs) {
                                    assert(packet@.bytes == crate::hexs::hex_of(bytes@));
                                    crate::protocol::lemma_unhex_hex(bytes@);
                                    assert(crate::protocol::unhex(packet@.bytes) == bytes@);
                                }
                            }
                            match Message::from_bytes(bytes.as_slice()) {
                                Some(message) => self.handle_message(message, src),
                                None => None,
                            }
                        },
                        None => None,
                    }
                } else {
                    let mut packets: Vec<Packet> = Vec::new();
                    packets.push(packet);
                    let id = packets[0].id;
                    let ghost old_pending = self.pending@;
                    self.pending.push(PendingStream { id, packets });
                    proof {
                        assert(self.pending@[old_pending.len() as int].packets@ =~= seq![packet]);
                        assert(self.pending@[old_pending.len() as int].id@ == packet@.id);
                        assert forall|i: int, j: int|
                            0 <= i < j < self.pending@.len() implies (
                        #[trigger] self.pending@[i]).id@ != (#[trigger] self.pending@[j]).id@ by {
                            if j == old_pending.len() {
                                assert(self.pending@[i] == old_pending[i]);
                            } else {
                                assert(self.pending@[i] == old_pending[i]);
                                assert(self.pending@[j] == old_pending[j]);
                            }
                        }
                        assert forall|i: int, a: int, b: int|
                            #![trigger self.pending@[i].packets@[a], self.pending@[i].packets@[b]]
                            0 <= i < self.pending@.len() && 0 <= a < b
                                < self.pending@[i].packets@.len() implies self.pending@[i].packets@[a].n
                            != self.pending@[i].packets@[b].n by {
                            if i < old_pending.len() {
                                assert(self.pending@[i] == old_pending[i]);
                            }
                        }
                    }
                    None
                }
            },
            Some(i) => {
                proof {
                    assert(old(self).pending@[i as int].id@ == packet@.id);
                    assert(old(self).has_pending(packet@.id));
                    let gi = old(self).pending_index(packet@.id);
                    assert(0 <= gi < old(self).pending@.len() && old(self).pending@[gi].id@
                        == packet@.id);
                    if gi != i as int {
                        if gi < i as int {
                            assert(old(self).pending@[gi].id@ != old(
                                self,
                            ).pending@[i as int].id@);
                        } else {
                            assert(old(self).pending@[i as int].id@ != old(
                                self,
                            ).pending@[gi].id@);
                        }
                        assert(false);
                    }
                    assert(old(self).pending_index(packet@.id) == i as int);
                }
                let have = stream_has_n(&self.pending[i].packets, packet.n);
                let ghost opp = self.pending@[i as int].packets@;
                let ghost stored_g = (if exists|j: int|
                    0 <= j < opp.len() && (#[trigger] opp[j]).n == packet.n {
                    opp
                } else {
                    opp.push(packet)
                });
                let ghost old_pending = self.pending@;
                if !have {
                    let ghost pn = packet@.n;
                    let entry = &mut self.pending[i];
                    entry.packets.push(packet);
                    proof {
                        assert forall|x: int, j: int|
                            0 <= x < j < self.pending@.len() implies (
                        #[trigger] self.pending@[x]).id@ != (#[trigger] self.pending@[j]).id@ by {
                            if x != i {
                                assert(self.pending@[x] == old_pending[x]);
                            }
                            if j != i {
                                assert(self.pending@[j] == old_pending[j]);
                            }
                            assert(old_pending[x].id@ != old_pending[j].id@);
                        }
                        assert forall|x: int, a: int, b: int|
                            #![trigger self.pending@[x].packets@[a], self.pending@[x].packets@[b]]
                            0 <= x < self.pending@.len() && 0 <= a < b
                                < self.pending@[x].packets@.len() implies self.pending@[x].packets@[a].n
                            != self.pending@[x].packets@[b].n by {
                            if x != i {
                                assert(self.pending@[x] == old_pending[x]);
                            } else {
                                if b == old_pending[i as int].packets@.len() {
                                    assert(self.pending@[x].packets@[a]
                                        == old_pending[i as int].packets@[a]);
                                    assert(old_pending[i as int].packets@[a].n != pn);
                                } else {
                                    assert(self.pending@[x].packets@[a]
                                        == old_pending[i as int].packets@[a]);
                                    assert(self.pending@[x].packets@[b]
                                        == old_pending[i as int].packets@[b]);
                                }
                            }
                        }
                    }
                    proof {
                        assert(self.pending@[i as int].packets@ == stored_g);
                    }
                } else {
                    proof {
                        assert(self.pending@[i as int].packets@ == stored_g);
                    }
                }
                let total = self.pending[i].packets[0].total_n;
                proof {
                    assert(stored_g[0]@.total_n == total as int);
                    assert(self.pending@[i as int].id@ == packet@.id);
                }
                if self.pending[i].packets.len() == total {
                    proof {
                        assert(forall|a: int, b: int|
                            0 <= a < b < self.pending@[i as int].packets@.len()
                                ==> self.pending@[i as int].packets@[a].n
                                != self.pending@[i as int].packets@[b].n);
                    }
                    let message = assemble_packets(total, &self.pending[i].packets);
                    let ghost old_pending2 = self.pending@;
                    let removed = self.pending.remove(i);
                    let _ = removed;
                    proof {
                        assert(self.pending@ =~= old(self).pending@.remove(i as int));
                        assert forall|x: int, j: int|
                            0 <= x < j < self.pending@.len() implies (
                        #[trigger] self.pending@[x]).id@ != (#[trigger] self.pending@[j]).id@ by {
                            let x0 = if x < i {
                                x
                            } else {
                                x + 1
                            };
                            let j0 = if j < i {
                                j
                            } else {
                                j + 1
                            };
                            assert(self.pending@[x] == old_pending2[x0]);
                            assert(self.pending@[j] == old_pending2[j0]);
                        }
                        assert forall|x: int, a: int, b: int|
                            #![trigger self.pending@[x].packets@[a], self.pending@[x].packets@[b]]
                            0 <= x < self.pending@.len() && 0 <= a < b
                                < self.pending@[x].packets@.len() implies self.pending@[x].packets@[a].n
                            != self.pending@[x].packets@[b].n by {
                            let x0 = if x < i {
                                x
                            } else {
                                x + 1
                            };
                            assert(self.pending@[x] == old_pending2[x0]);
                        }
                    }
                    match message {
                        Some(message) => self.handle_message(message, src),
                        None => None,
                    }
                } else {
                    None
                }
            },
        }
    }

    /// The index of the pending stream with this id, if any.
    fn find_stream(&self, id: &[u8; 32]) -> (r: Option<usize>)
        ensures
            match r {
                Some(i) => i < self.pending@.len() && self.pending@[i as int].id@ == id@,
                None => forall|j: int|
                    0 <= j < self.pending@.len() ==> (#[trigger] self.pending@[j]).id@ != id@,
            },
    {
        let mut i: usize = 0;
        while i < self.pending.len()
            invariant
                i <= self.pending@.len(),
                forall|j: int| 0 <= j < i ==> (#[trigger] self.pending@[j]).id@ != id@,
            decreases self.pending@.len() - i,
        {
            if crate::gd_udp::key_eq(&self.pending[i].id, id) {
                return Some(i);
            }
            i += 1;
        }
        None
    }
}

/// Whether the stream already records this packet number.
fn stream_has_n(packets: &Vec<Packet>, n: usize) -> (r: bool)
    ensures
        r == exists|j: int| 0 <= j < packets@.len() && (#[trigger] packets@[j]).n == n,
{
    let mut j: usize = 0;
    while j < packets.len()
        invariant
            j <= packets@.len(),
            forall|k: int| 0 <= k < j ==> (#[trigger] packets@[k]).n != n,
        decreases packets@.len() - j,
    {
        if packets[j].n == n {
            return true;
        }
        j += 1;
    }
    false
}

/// The index of the first packet carrying this packet number, if any.
fn find_packet(packets: &Vec<Packet>, n: usize) -> (r: Option<usize>)
    ensures
        match r {
            Some(j) => j < packets@.len() && packets@[j as int].n == n,
            None => forall|k: int| 0 <= k < packets@.len() ==> (#[trigger] packets@[k]).n != n,
        },
{
    let mut j: usize = 0;
    while j < packets.len()
        invariant
            j <= packets@.len(),
            forall|k: int| 0 <= k < j ==> (#[trigger] packets@[k]).n != n,
        decreases packets@.len() - j,
    {
        if packets[j].n == n {
            return Some(j);
        }
        j += 1;
    }
    None
}

/// Join the payloads of packets 1 through `total` in packet order,
/// hex-decode each, and decode the whole as a message. `None` when a packet
/// number is missing or a payload does not decode.
fn assemble_packets(total: usize, packets: &Vec<Packet>) -> (r: Option<Message>)
    requires
        forall|a: int, b: int|
            0 <= a < b < packets@.len() ==> packets@[a].n != packets@[b].n,
    ensures
        total == usize::MAX ==> r is None,
        total < usize::MAX ==> (stream_payload(packets@, 1, total as int) matches Some(w) ==> (
        match r {
            Some(m) => crate::protocol::dec_message(w) == Some(m@),
            None => crate::protocol::dec_message(w) is None,
        })),
{
    if total == usize::MAX {
        return None;
    }
    let mut bytes: Vec<u8> = Vec::new();
    let mut n: usize = 1;
    proof {
        if stream_payload(packets@, 1, total as int) is Some {
            let w = stream_payload(packets@, 1, total as int).unwrap();
            assert(bytes@ + w =~= w);
        }
    }
    while n <= total
        invariant
            1 <= n <= total + 1,
            total <= usize::MAX - 1,
            forall|a: int, b: int|
                0 <= a < b < packets@.len() ==> packets@[a].n != packets@[b].n,
            stream_payload(packets@, 1, total as int) matches Some(w) ==> (stream_payload(
                packets@,
                n as int,
                total as int,
            ) matches Some(rest) && w == bytes@ + rest),
        decreases total - n + 1,
    {
        let ghost pre_bytes = bytes@;
        let found = find_packet(packets, n);
        match found {
            Some(j) => {
                proof {
                    if stream_payload(packets@, 1, total as int) is Some {
                        assert(stream_payload(packets@, n as int, total as int) is Some);
                        let sj = choose|sj: int|
                            0 <= sj < packets@.len() && (#[trigger] packets@[sj]).n as int
                                == n as int;
                        if sj != j as int {
                            if sj < j as int {
                                assert(packets@[sj].n != packets@[j as int].n);
                            } else {
                                assert(packets@[j as int].n != packets@[sj].n);
                            }
                            assert(false);
                        }
                    }
                }
                let decoded = hex_decode(packets[j].bytes.as_str());
                match decoded {
                    Some(part) => {
                        proof {
                            if stream_payload(packets@, 1, total as int) is Some {
                                assert(exists|bs: Seq<u8>|
                                    packets@[j as int]@.bytes == crate::hexs::hex_of(bs));
                                assert(packets@[j as int]@.bytes == crate::hexs::hex_of(part@));
                                crate::protocol::lemma_unhex_hex(part@);
                                assert(crate::protocol::unhex(packets@[j as int]@.bytes)
                                    == part@);
                                let rest = stream_payload(
                                    packets@,
                                    n as int,
                                    total as int,
                                ).unwrap();
                                let rest2 = stream_payload(
                                    packets@,
                                    n as int + 1,
                                    total as int,
                                ).unwrap();
                                assert(rest == part@ + rest2);
                                assert(pre_bytes + (part@ + rest2) =~= (pre_bytes + part@)
                                    + rest2);
                            }
                        }
                        crate::wire::push_bytes(&mut bytes, part.as_slice());
                    },
                    None => {
                        proof {
                            if stream_payload(packets@, 1, total as int) is Some {
                                assert(exists|bs: Seq<u8>|
                                    packets@[j as int]@.bytes == crate::hexs::hex_of(bs));
                                assert(false);
                            }
                        }
                        return None;
                    },
                }
            },
            None => {
                proof {
                    if stream_payload(packets@, 1, total as int) is Some {
                        assert(stream_payload(packets@, n as int, total as int) is Some);
                        let sj = choose|sj: int|
                            0 <= sj < packets@.len() && (#[trigger] packets@[sj]).n as int
                                == n as int;
                        assert(packets@[sj].n == n);
                        assert(false);
                    }
                }
                return None;
            },
        }
        n += 1;
    }
    proof {
        if stream_payload(packets@, 1, total as int) is Some {
            let w = stream_payload(packets@, 1, total as int).unwrap();
            assert(stream_payload(packets@, n as int, total as int) == Some(
                Seq::<u8>::empty(),
            ));
            assert(bytes@ + Seq::<u8>::empty() =~= bytes@);
            assert(w == bytes@);
        }
    }
    Message::from_bytes(bytes.as_slice())
}

} // verus!
