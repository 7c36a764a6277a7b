use vstd::prelude::*;
use crate::addr::NetAddr;
use crate::gd_udp::{
    GDUdp,
    NO_RETURN_RECEIPT,
    RETURN_RECEIPT,
    ack_applied,
    entry_retained,
    entry_stems_from,
    has_stream,
    keep_entry,
    recipient_served,
    send_listed,
    MAINTENANCE_NS,
    has_entry,
    OutboxEntryV,
    OutboxStreamV,
    sends_views,
    outbox_resends,
};
use crate::protocol::{AckMessage, Header, Message, MessageKey, Packet, enc_message, packetize, slice_count, wf_packet};

verus! {

/// The transport driver's state: the reliable packet layer. Messages and
/// acknowledgements reach it through the caller's channels.
pub struct Transport {
    pub gd_udp: GDUdp,
}

impl Transport {
    pub open spec fn wf(&self) -> bool {
        self.gd_udp.wf()
    }

    pub fn new(addr: NetAddr) -> (r: Transport)
        ensures
            r.wf(),
            r.gd_udp.addr == addr,
            r.gd_udp.outbox_view().len() == 0,
    {
        Transport { gd_udp: GDUdp::new(addr) }
    }

    /// Record an incoming acknowledgement when its stream is tracked: the
    /// entry for (stream, packet number) gains the parsed source in its
    /// acknowledged-by set. Anything else is ignored.
    pub fn incoming_ack(&mut self, ack: AckMessage)
        requires
            old(self).wf(),
        ensures
            final (self).wf(),
            final (self).gd_udp.addr == old(self).gd_udp.addr,
            final (self).gd_udp.timer == old(self).gd_udp.timer,
            !has_stream(old(self).gd_udp.outbox_view(), ack@.packet_id) ==> *final (self) == *old(
                self,
            ),
            has_stream(old(self).gd_udp.outbox_view(), ack@.packet_id) ==> ack_applied(
                old(self).gd_udp.outbox_view(),
                final (self).gd_udp.outbox_view(),
                ack@.packet_id,
                ack@.packet_number,
                ack@.src,
            ),
    {
        let exists_stream = self.gd_udp.outbox_contains(&ack.packet_id);
        if exists_stream {
            self.gd_udp.process_ack(ack.packet_id, ack.packet_number, ack.src);
        }
    }

    /// Cut one outgoing message into packets under a fresh random stream
    /// id: an acknowledgement is sent fire-and-forget without bookkeeping,
    /// anything else asks for return receipts and is recorded for
    /// retransmission. The caller transmits the returned packets to `dest`.
    pub fn outgoing_msg(&mut self, dest: NetAddr, msg: &Message) -> (r: Vec<Packet>)
        requires
            old(self).wf(),
            enc_message(msg@).len() + 32500 < usize::MAX,
        ensures
            final (self).wf(),
            r@.len() == slice_count(enc_message(msg@).len() as int),
            forall|i: int|
                0 <= i < r@.len() ==> {
                    &&& (#[trigger] r@[i])@.ret == (if msg@.head is Ack {
                        NO_RETURN_RECEIPT
                    } else {
                        RETURN_RECEIPT
                    })
                    &&& wf_packet(r@[i]@)
                    &&& r@[i]@.n == i + 1
                    &&& r@[i]@.total_n == r@.len()
                    &&& r@[i]@.bytes == crate::hexs::hex_of(
                        crate::protocol::slice_at(enc_message(msg@), i),
                    )
                },
            forall|i: int, j: int|
                0 <= i < r@.len() && 0 <= j < r@.len() ==> (#[trigger] r@[i])@.id == (
                #[trigger] r@[j])@.id,
            msg@.head is Ack ==> *final (self) == *old(self),
            (!(msg@.head is Ack) && r@.len() > 0) ==> has_stream(
                final (self).gd_udp.outbox_view(),
                r@[0]@.id,
            ),
            (!(msg@.head is Ack) && r@.len() > 0 && !has_stream(
                old(self).gd_udp.outbox_view(),
                r@[0]@.id,
            )) ==> {
                let ob0 = old(self).gd_udp.outbox_view();
                let ob1 = final (self).gd_udp.outbox_view();
                &&& ob1.len() == ob0.len() + 1
                &&& (forall|x: int| 0 <= x < ob0.len() ==> ob1[x] == ob0[x])
                &&& ob1[ob0.len() as int].id == r@[0]@.id
                &&& ob1[ob0.len() as int].entries.len() == r@.len()
                &&& (forall|n: int|
                    0 <= n < r@.len() ==> ob1[ob0.len() as int].entries[n] == (OutboxEntryV {
                        n: n + 1,
                        sent: seq![dest],
                        acked: Seq::empty(),
                        packet: r@[n]@,
                        attempts: 1,
                    }))
            },
    {
        let bytes = msg.as_bytes();
        let packets_id = MessageKey::rand().inner();
        match msg.head {
            Header::Ack => packetize(bytes, packets_id, NO_RETURN_RECEIPT),
            _ => {
                let packets = packetize(bytes, packets_id, RETURN_RECEIPT);
                let ghost ob0 = self.gd_udp.outbox_view();
                let ghost fresh = !has_stream(ob0, packets_id@);
                let mut i: usize = 0;
                while i < packets.len()
                    invariant
                        self.wf(),
                        self.gd_udp.addr == old(self).gd_udp.addr,
                        self.gd_udp.timer == old(self).gd_udp.timer,
                        self.gd_udp.message_cache == old(self).gd_udp.message_cache,
                        self.gd_udp.log == old(self).gd_udp.log,
                        i <= packets@.len(),
                        ob0 == old(self).gd_udp.outbox_view(),
                        fresh == !has_stream(ob0, packets_id@),
                        forall|x: int|
                            0 <= x < packets@.len() ==> (#[trigger] packets@[x])@.id
                                == packets_id@,
                        forall|x: int|
                            0 <= x < packets@.len() ==> (#[trigger] packets@[x])@.n == x + 1,
                        i > 0 ==> has_stream(self.gd_udp.outbox_view(), packets_id@),
                        (fresh && i == 0) ==> self.gd_udp.outbox_view() == ob0,
                        (fresh && i > 0) ==> {
                            let ob1 = self.gd_udp.outbox_view();
                            &&& ob1.len() == ob0.len() + 1
                            &&& (forall|x: int| 0 <= x < ob0.len() ==> ob1[x] == ob0[x])
                            &&& ob1[ob0.len() as int].id == packets_id@
                            &&& ob1[ob0.len() as int].entries.len() == i
                            &&& (forall|n: int|
                                0 <= n < i ==> ob1[ob0.len() as int].entries[n] == (OutboxEntryV {
                                    n: n + 1,
                                    sent: seq![dest],
                                    acked: Seq::empty(),
                                    packet: packets@[n]@,
                                    attempts: 1,
                                }))
                        },
                    decreases packets@.len() - i,
                {
                    let ghost pre_view = self.gd_udp.outbox_view();
                    self.gd_udp.send_reliable(&dest, &packets[i]);
                    proof {
                        if !has_stream(pre_view, packets@[i as int]@.id) {
                            assert(self.gd_udp.outbox_view()[self.gd_udp.outbox_view().len()
                                - 1].id == packets_id@);
                        }
                        assert(has_stream(self.gd_udp.outbox_view(), packets_id@));
                        if fresh {
                            let ob1 = self.gd_udp.outbox_view();
                            let si = ob0.len() as int;
                            if i == 0 {
                                assert(pre_view == ob0);
                                assert(!has_stream(pre_view, packets@[0]@.id));
                                assert(ob1 == pre_view.push(
                                    (OutboxStreamV {
                                        id: packets@[0]@.id,
                                        entries: seq![
                                            (OutboxEntryV {
                                                n: packets@[0]@.n,
                                                sent: seq![dest],
                                                acked: Seq::empty(),
                                                packet: packets@[0]@,
                                                attempts: 1,
                                            }),
                                        ],
                                    }),
                                ));
                                assert(ob1[si].entries.len() == 1);
                                assert(ob1[si].entries[0] == (OutboxEntryV {
                                    n: 1,
                                    sent: seq![dest],
                                    acked: Seq::empty(),
                                    packet: packets@[0]@,
                                    attempts: 1,
                                }));
                            } else {
                                assert(has_stream(pre_view, packets@[i as int]@.id)) by {
                                    assert(pre_view[si].id == packets_id@);
                                }
                                let wi = choose|wi: int|
                                    {
                                        &&& 0 <= wi < pre_view.len()
                                        &&& (#[trigger] pre_view[wi]).id == packets@[i as int]@.id
                                        &&& ob1.len() == pre_view.len()
                                        &&& (forall|j: int|
                                            0 <= j < pre_view.len() && j != wi ==> ob1[j]
                                                == pre_view[j])
                                        &&& ob1[wi].id == packets@[i as int]@.id
                                        &&& (if has_entry(pre_view[wi], packets@[i as int]@.n) {
                                            exists|j: int|
                                                {
                                                    &&& 0 <= j < pre_view[wi].entries.len()
                                                    &&& (#[trigger] pre_view[wi].entries[j]).n
                                                        == packets@[i as int]@.n
                                                }
                                        } else {
                                            ob1[wi].entries == pre_view[wi].entries.push(
                                                (OutboxEntryV {
                                                    n: packets@[i as int]@.n,
                                                    sent: seq![dest],
                                                    acked: Seq::empty(),
                                                    packet: packets@[i as int]@,
                                                    attempts: 1,
                                                }),
                                            )
                                        })
                                    };
                                assert(wi == si) by {
                                    if wi < si {
                                        assert(pre_view[wi] == ob0[wi]);
                                        assert(!has_stream(ob0, packets_id@));
                                        assert(ob0[wi].id != packets_id@);
                                    }
                                }
                                assert(!has_entry(pre_view[si], packets@[i as int]@.n)) by {
                                    assert(packets@[i as int]@.n == i + 1);
                                    assert forall|j: int|
                                        0 <= j < pre_view[si].entries.len() implies (
                                    #[trigger] pre_view[si].entries[j]).n != i + 1 by {
                                        assert(pre_view[si].entries[j].n == j + 1);
                                    }
                                }
                                assert(ob1[si].entries == pre_view[si].entries.push(
                                    (OutboxEntryV {
                                        n: i + 1,
                                        sent: seq![dest],
                                        acked: Seq::empty(),
                                        packet: packets@[i as int]@,
                                        attempts: 1,
                                    }),
                                ));
                                assert(ob1[si].entries.len() == i + 1);
                                assert forall|x: int|
                                    0 <= x < ob0.len() implies ob1[x] == ob0[x] by {
                                    assert(ob1[x] == pre_view[x]);
                                }
                            }
                        }
                    }
                    i += 1;
                }
                proof {
                    if fresh && packets@.len() > 0 {
                        assert(packets@[0]@.id == packets_id@);
                    }
                }
                packets
            },
        }
    }

    /// Run the packet layer's periodic maintenance against the given
    /// wall-clock time, handing back the retransmissions to perform: once
    /// the interval has passed, exactly the keepable outbox entries are
    /// retained and every unacknowledged recipient of each is served one
    /// resend; otherwise nothing changes.
    pub fn check_time_elapsed(&mut self, now: u128) -> (r: Vec<(NetAddr, Packet)>)
        requires
            old(self).wf(),
        ensures
            final (self).wf(),
            (now < old(self).gd_udp.timer || now - old(self).gd_udp.timer < MAINTENANCE_NS) ==> (
            *final (self) == *old(self) && r@.len() == 0),
            (now >= old(self).gd_udp.timer && now - old(self).gd_udp.timer >= MAINTENANCE_NS)
                ==> {
                &&& final (self).gd_udp.timer == now
                &&& (forall|i: int, j: int|
                    0 <= i < final (self).gd_udp.outbox_view().len() && 0 <= j < final (
                    self).gd_udp.outbox_view()[i].entries.len() ==> #[trigger] entry_stems_from(
                        old(self).gd_udp.outbox_view(),
                        final (self).gd_udp.outbox_view(),
                        i,
                        j,
                    ))
                &&& (forall|i0: int, j0: int|
                    #![trigger old(self).gd_udp.outbox_view()[i0].entries[j0]]
                    0 <= i0 < old(self).gd_udp.outbox_view().len() && 0 <= j0 < old(
                        self,
                    ).gd_udp.outbox_view()[i0].entries.len() && keep_entry(
                        old(self).gd_udp.outbox_view()[i0].entries[j0],
                    ) ==> entry_retained(
                        old(self).gd_udp.outbox_view(),
                        final (self).gd_udp.outbox_view(),
                        i0,
                        j0,
                    ))
                &&& (forall|k: int|
                    0 <= k < r@.len() ==> #[trigger] send_listed(
                        final (self).gd_udp.outbox_view(),
                        r@,
                        k,
                    ))
                &&& (forall|i: int, j: int, t: int|
                    #![trigger final(self).gd_udp.outbox_view()[i].entries[j].sent[t]]
                    0 <= i < final (self).gd_udp.outbox_view().len() && 0 <= j < final (
                    self).gd_udp.outbox_view()[i].entries.len() && 0 <= t < final (
                    self).gd_udp.outbox_view()[i].entries[j].sent.len() && !final (
                    self).gd_udp.outbox_view()[i].entries[j].acked.contains(
                        final (self).gd_udp.outbox_view()[i].entries[j].sent[t],
                    ) ==> recipient_served(final (self).gd_udp.outbox_view(), r@, i, j, t))
                &&& sends_views(r@) == outbox_resends(final (self).gd_udp.outbox_view())
            },
    {
        self.gd_udp.check_time_elapsed(now)
    }
}

} // verus!
