use vstd::prelude::*;
use crate::addr::NetAddr;
use crate::protocol::{Packet, PacketV};
use crate::utils::timestamp_now;

verus! {

/// How often the outbox is maintained, in nanoseconds.
pub const MAINTENANCE_NS: u128 = 300_000_000;

/// The flag value asking the receiver for an acknowledgement.
pub const RETURN_RECEIPT: u8 = 1;

/// The flag value asking for none.
pub const NO_RETURN_RECEIPT: u8 = 0;

/// How many delivery attempts an outbox entry is granted.
pub const MAX_SEND_ATTEMPTS: usize = 5;

/// The retransmission record of one packet: who it was sent to, who has
/// acknowledged it, the packet itself, and how many sends were attempted.
#[derive(Debug)]
pub struct OutboxEntry {
    pub n: usize,
    pub sent: Vec<NetAddr>,
    pub acked: Vec<NetAddr>,
    pub packet: Packet,
    pub attempts: usize,
}

/// The mathematical content of an `OutboxEntry`.
pub ghost struct OutboxEntryV {
    pub n: int,
    pub sent: Seq<NetAddr>,
    pub acked: Seq<NetAddr>,
    pub packet: PacketV,
    pub attempts: int,
}

impl View for OutboxEntry {
    type V = OutboxEntryV;

    open spec fn view(&self) -> OutboxEntryV {
        OutboxEntryV {
            n: self.n as int,
            sent: self.sent@,
            acked: self.acked@,
            packet: self.packet@,
            attempts: self.attempts as int,
        }
    }
}

/// The retransmission records of one packet stream, keyed by its id.
#[derive(Debug)]
pub struct OutboxStream {
    pub id: [u8; 32],
    pub entries: Vec<OutboxEntry>,
}

/// The mathematical content of an `OutboxStream`.
pub ghost struct OutboxStreamV {
    pub id: Seq<u8>,
    pub entries: Seq<OutboxEntryV>,
}

impl View for OutboxStream {
    type V = OutboxStreamV;

    open spec fn view(&self) -> OutboxStreamV {
        OutboxStreamV {
            id: self.id@,
            entries: Seq::new(self.entries@.len(), |i: int| self.entries@[i]@),
        }
    }
}

/// Whether every address of `a` occurs in `b`.
pub open spec fn addrs_subset(a: Seq<NetAddr>, b: Seq<NetAddr>) -> bool {
    forall|i: int| 0 <= i < a.len() ==> b.contains(#[trigger] a[i])
}

/// The address list grown by one address, unless already present.
pub open spec fn addr_insert(s: Seq<NetAddr>, a: NetAddr) -> Seq<NetAddr> {
    if s.contains(a) {
        s
    } else {
        s.push(a)
    }
}

/// Recording the same acknowledgement twice changes nothing beyond the
/// first time: the acknowledged-by set of an outbox entry is a set.
pub proof fn lemma_ack_idempotent(s: Seq<NetAddr>, a: NetAddr)
    ensures
        addr_insert(addr_insert(s, a), a) == addr_insert(s, a),
{
    assert(addr_insert(s, a).contains(a)) by {
        if !s.contains(a) {
            assert(addr_insert(s, a)[s.len() as int] == a);
        }
    }
}

/// Whether maintenance keeps the entry: attempts below the cap and the
/// acknowledgements a proper subset of the recipients.
#[verifier::opaque]
pub open spec fn keep_entry(e: OutboxEntryV) -> bool {
    &&& e.attempts < MAX_SEND_ATTEMPTS
    &&& addrs_subset(e.acked, e.sent)
    &&& !addrs_subset(e.sent, e.acked)
}

/// Whether entry `j` of stream `i` of the maintained outbox `nv` stems from
/// a keepable entry of the same-id stream of the old outbox `ov`.
pub open spec fn entry_stems_from(
    ov: Seq<OutboxStreamV>,
    nv: Seq<OutboxStreamV>,
    i: int,
    j: int,
) -> bool {
    exists|i0: int, j0: int|
        {
            &&& 0 <= i0 < ov.len()
            &&& 0 <= j0 < ov[i0].entries.len()
            &&& ov[i0].id == nv[i].id
            &&& entry_kept(#[trigger] ov[i0].entries[j0], nv[i].entries[j])
        }
}

/// Whether the keepable entry (i0, j0) of the old outbox `ov` is retained,
/// under the same stream id, in the maintained outbox `nv`.
pub open spec fn entry_retained(
    ov: Seq<OutboxStreamV>,
    nv: Seq<OutboxStreamV>,
    i0: int,
    j0: int,
) -> bool {
    exists|i: int, j: int|
        {
            &&& 0 <= i < nv.len()
            &&& 0 <= j < nv[i].entries.len()
            &&& nv[i].id == ov[i0].id
            &&& entry_kept(ov[i0].entries[j0], #[trigger] nv[i].entries[j])
        }
}

/// Whether send `k` of `out` goes to a recipient of some entry of `ob` that
/// has not acknowledged it, carrying that entry's packet.
pub open spec fn send_listed(ob: Seq<OutboxStreamV>, out: Seq<(NetAddr, Packet)>, k: int) -> bool {
    exists|i: int, j: int|
        {
            &&& 0 <= i < ob.len()
            &&& 0 <= j < ob[i].entries.len()
            &&& (#[trigger] ob[i].entries[j]).sent.contains(out[k].0)
            &&& !ob[i].entries[j].acked.contains(out[k].0)
            &&& (out[k].1)@ == ob[i].entries[j].packet
        }
}

/// Whether the unacknowledged recipient `t` of entry (i, j) of `ob` gets a
/// send in `out` carrying that entry's packet.
pub open spec fn recipient_served(
    ob: Seq<OutboxStreamV>,
    out: Seq<(NetAddr, Packet)>,
    i: int,
    j: int,
    t: int,
) -> bool {
    exists|k: int|
        {
            &&& 0 <= k < out.len()
            &&& (#[trigger] out[k]).0 == ob[i].entries[j].sent[t]
            &&& (out[k].1)@ == ob[i].entries[j].packet
        }
}

/// The views of a list of streams.
pub open spec fn streams_view(v: Seq<OutboxStream>) -> Seq<OutboxStreamV> {
    Seq::new(v.len(), |a: int| v[a]@)
}

/// The addresses of `sent` that `acked` does not hold, in order.
pub open spec fn addr_seq_diff(sent: Seq<NetAddr>, acked: Seq<NetAddr>) -> Seq<NetAddr> {
    sent.filter(|a: NetAddr| !acked.contains(a))
}

/// The recipients of an entry that have not acknowledged it, in recipient
/// order.
pub open spec fn unacked_of(e: OutboxEntryV) -> Seq<NetAddr> {
    addr_seq_diff(e.sent, e.acked)
}

/// The views of a list of sends.
pub open spec fn sends_views(v: Seq<(NetAddr, Packet)>) -> Seq<(NetAddr, PacketV)> {
    Seq::new(v.len(), |k: int| (v[k].0, (v[k].1)@))
}

/// One resend per unacknowledged recipient of the entry, in recipient
/// order, carrying the entry's packet.
pub open spec fn entry_resends(e: OutboxEntryV) -> Seq<(NetAddr, PacketV)> {
    Seq::new(unacked_of(e).len(), |t: int| (unacked_of(e)[t], e.packet))
}

/// The resends of a list of entries, in entry order.
pub open spec fn entries_resends(entries: Seq<OutboxEntryV>) -> Seq<(NetAddr, PacketV)>
    decreases entries.len(),
{
    if entries.len() == 0 {
        Seq::empty()
    } else {
        entries_resends(entries.drop_last()) + entry_resends(entries.last())
    }
}

/// The resends of a whole outbox: stream by stream, entry by entry,
/// recipient by recipient.
pub open spec fn outbox_resends(ob: Seq<OutboxStreamV>) -> Seq<(NetAddr, PacketV)>
    decreases ob.len(),
{
    if ob.len() == 0 {
        Seq::empty()
    } else {
        outbox_resends(ob.drop_last()) + entries_resends(ob.last().entries)
    }
}

/// Whether how the acknowledgement (id, n, src) changes an outbox from `ov`
/// to `nv`: when the source address parses and the entry exists, its
/// acknowledged-by set gains the address; in every other case nothing
/// changes.
pub open spec fn ack_applied(
    ov: Seq<OutboxStreamV>,
    nv: Seq<OutboxStreamV>,
    id: Seq<u8>,
    n: int,
    src: Seq<u8>,
) -> bool {
    let parsed = crate::wire::dec_addr(src);
    if parsed is Some && has_stream(ov, id) {
        exists|i: int|
            {
                &&& 0 <= i < ov.len()
                &&& (#[trigger] ov[i]).id == id
                &&& nv.len() == ov.len()
                &&& (forall|j: int| 0 <= j < ov.len() && j != i ==> nv[j] == ov[j])
                &&& nv[i].id == id
                &&& (if has_entry(ov[i], n) {
                    exists|j: int|
                        {
                            &&& 0 <= j < ov[i].entries.len()
                            &&& (#[trigger] ov[i].entries[j]).n == n
                            &&& (forall|k: int|
                                0 <= k < ov[i].entries.len() && k != j ==> nv[i].entries[k]
                                    == ov[i].entries[k])
                            &&& nv[i].entries.len() == ov[i].entries.len()
                            &&& nv[i].entries[j].acked == addr_insert(
                                ov[i].entries[j].acked,
                                parsed.unwrap(),
                            )
                            &&& nv[i].entries[j].sent == ov[i].entries[j].sent
                            &&& nv[i].entries[j].n == ov[i].entries[j].n
                            &&& nv[i].entries[j].packet == ov[i].entries[j].packet
                            &&& nv[i].entries[j].attempts == ov[i].entries[j].attempts
                        }
                } else {
                    nv[i] == ov[i]
                })
            }
    } else {
        nv == ov
    }
}

/// Whether a stream with this id is in the outbox.
pub open spec fn has_stream(ob: Seq<OutboxStreamV>, id: Seq<u8>) -> bool {
    exists|i: int| 0 <= i < ob.len() && (#[trigger] ob[i]).id == id
}

/// Whether the stream records the packet number.
pub open spec fn has_entry(s: OutboxStreamV, n: int) -> bool {
    exists|j: int| 0 <= j < s.entries.len() && (#[trigger] s.entries[j]).n == n
}

/// The per-node reliable-datagram state: the retransmission outbox and the
/// maintenance timer.
#[derive(Debug)]
pub struct GDUdp {
    pub addr: NetAddr,
    pub message_cache: Vec<[u8; 32]>,
    pub outbox: Vec<OutboxStream>,
    pub timer: u128,
    pub log: String,
}

impl GDUdp {
    /// The outbox's streams in insertion order.
    pub open spec fn outbox_view(&self) -> Seq<OutboxStreamV> {
        Seq::new(self.outbox@.len(), |i: int| self.outbox@[i]@)
    }

    /// Distinct stream ids, distinct packet numbers within a stream, and
    /// duplicate-free recipient and acknowledgement lists.
    pub open spec fn wf(&self) -> bool {
        &&& forall|i: int, j: int|
            0 <= i < j < self.outbox_view().len() ==> (#[trigger] self.outbox_view()[i]).id != (
            #[trigger] self.outbox_view()[j]).id
        &&& forall|i: int, a: int, b: int|
            #![trigger self.outbox_view()[i].entries[a], self.outbox_view()[i].entries[b]]
            0 <= i < self.outbox_view().len() && 0 <= a < b < self.outbox_view()[i].entries.len()
                ==> self.outbox_view()[i].entries[a].n != self.outbox_view()[i].entries[b].n
        &&& forall|i: int, a: int, x: int, y: int|
            #![trigger self.outbox_view()[i].entries[a].sent[x], self.outbox_view()[i].entries[a].sent[y]]
            0 <= i < self.outbox_view().len() && 0 <= a < self.outbox_view()[i].entries.len() && 0
                <= x < y < self.outbox_view()[i].entries[a].sent.len() ==> self.outbox_view()[i].entries[a].sent[x]
                != self.outbox_view()[i].entries[a].sent[y]
        &&& forall|i: int, a: int, x: int, y: int|
            #![trigger self.outbox_view()[i].entries[a].acked[x], self.outbox_view()[i].entries[a].acked[y]]
            0 <= i < self.outbox_view().len() && 0 <= a < self.outbox_view()[i].entries.len() && 0
                <= x < y < self.outbox_view()[i].entries[a].acked.len()
                ==> self.outbox_view()[i].entries[a].acked[x]
                != self.outbox_view()[i].entries[a].acked[y]
    }

    /// A fresh state with an empty outbox.
    pub fn new(addr: NetAddr) -> (r: GDUdp)
        ensures
            r.outbox_view() == Seq::<OutboxStreamV>::empty(),
            r.wf(),
            r.addr == addr,
    {
        let r = GDUdp {
            addr,
            message_cache: Vec::new(),
            outbox: Vec::new(),
            timer: timestamp_now(),
            log: new_log_name(),
        };
        proof {
            assert(r.outbox_view() =~= Seq::<OutboxStreamV>::empty());
        }
        r
    }

    /// Whether the outbox tracks this stream id.
    pub fn outbox_contains(&self, id: &[u8; 32]) -> (r: bool)
        ensures
            r == has_stream(self.outbox_view(), id@),
    {
        let mut i: usize = 0;
        while i < self.outbox.len()
            invariant
                i <= self.outbox@.len(),
                forall|j: int| 0 <= j < i ==> (#[trigger] self.outbox_view()[j]).id != id@,
            decreases self.outbox@.len() - i,
        {
            if key_eq(&self.outbox[i].id, id) {
                proof {
                    assert(self.outbox_view()[i as int].id == id@);
                }
                return true;
            }
            i += 1;
        }
        false
    }

    /// Record a reliable send of the packet to the peer: locate or create
    /// the entry for (stream id, packet number), add the peer to its
    /// recipients, and count one more attempt. Acknowledgements already
    /// recorded are kept. The caller performs the transmission itself.
    pub fn send_reliable(&mut self, peer: &NetAddr, packet: &Packet)
        requires
            old(self).wf(),
        ensures
            final (self).wf(),
            final (self).addr == old(self).addr,
            final (self).timer == old(self).timer,
            final (self).message_cache == old(self).message_cache,
            final (self).log == old(self).log,
            !has_stream(old(self).outbox_view(), packet@.id) ==> final (self).outbox_view() == old(
                self,
            ).outbox_view().push(
                (OutboxStreamV {
                    id: packet@.id,
                    entries: seq![
                        (OutboxEntryV {
                            n: packet@.n,
                            sent: seq![*peer],
                            acked: Seq::empty(),
                            packet: packet@,
                            attempts: 1,
                        }),
                    ],
                }),
            ),
            has_stream(old(self).outbox_view(), packet@.id) ==> exists|i: int|
                {
                    &&& 0 <= i < old(self).outbox_view().len()
                    &&& (#[trigger] old(self).outbox_view()[i]).id == packet@.id
                    &&& final (self).outbox_view().len() == old(self).outbox_view().len()
                    &&& (forall|j: int|
                        0 <= j < old(self).outbox_view().len() && j != i ==> final (
                        self).outbox_view()[j] == old(self).outbox_view()[j])
                    &&& final (self).outbox_view()[i].id == packet@.id
                    &&& (if has_entry(old(self).outbox_view()[i], packet@.n) {
                        exists|j: int|
                            {
                                &&& 0 <= j < old(self).outbox_view()[i].entries.len()
                                &&& (#[trigger] old(self).outbox_view()[i].entries[j]).n
                                    == packet@.n
                                &&& (forall|k: int|
                                    0 <= k < old(self).outbox_view()[i].entries.len() && k != j
                                        ==> final (self).outbox_view()[i].entries[k] == old(
                                    self,
                                    ).outbox_view()[i].entries[k])
                                &&& final (self).outbox_view()[i].entries.len() == old(
                                    self,
                                ).outbox_view()[i].entries.len()
                                &&& final (self).outbox_view()[i].entries[j].n == packet@.n
                                &&& final (self).outbox_view()[i].entries[j].sent == addr_insert(
                                    old(self).outbox_view()[i].entries[j].sent,
                                    *peer,
                                )
                                &&& final (self).outbox_view()[i].entries[j].acked == old(
                                    self,
                                ).outbox_view()[i].entries[j].acked
                                &&& final (self).outbox_view()[i].entries[j].packet == old(
                                    self,
                                ).outbox_view()[i].entries[j].packet
                                &&& final (self).outbox_view()[i].entries[j].attempts == (if old(
                                    self,
                                ).outbox_view()[i].entries[j].attempts < usize::MAX {
                                    old(self).outbox_view()[i].entries[j].attempts + 1
                                } else {
                                    old(self).outbox_view()[i].entries[j].attempts
                                })
                            }
                    } else {
                        final (self).outbox_view()[i].entries == old(
                            self,
                        ).outbox_view()[i].entries.push(
                            (OutboxEntryV {
                                n: packet@.n,
                                sent: seq![*peer],
                                acked: Seq::empty(),
                                packet: packet@,
                                attempts: 1,
                            }),
                        )
                    })
                },
    {
        let ghost old_view = self.outbox_view();
        let si = self.find_stream(&packet.id);
        match si {
            Some(i) => {
                let ei = find_entry(&self.outbox[i].entries, packet.n);
                match ei {
                    Some(j) => {
                        let stream = &mut self.outbox[i];
                        let entry = &mut stream.entries[j];
                        addr_push_new(&mut entry.sent, *peer);
                        if entry.attempts < usize::MAX {
                            entry.attempts = entry.attempts + 1;
                        }
                        proof {
                            assert(self.outbox_view()[i as int].entries =~= old_view[i as int].entries.update(
                                j as int,
                                self.outbox_view()[i as int].entries[j as int],
                            ));
                            lemma_wf_after_stream_update(*old(self), *self, i as int);
                            assert(old_view[i as int].id == packet@.id);
                            assert(self.outbox_view().len() == old_view.len());
                            assert forall|jj: int|
                                0 <= jj < old_view.len() && jj != i implies self.outbox_view()[jj]
                                == old_view[jj] by {
                                assert(self.outbox@[jj] == old(self).outbox@[jj]);
                            }
                            assert(self.outbox_view()[i as int].id == packet@.id);
                            assert(old_view[i as int].entries[j as int].n == packet@.n);
                            assert(has_entry(old_view[i as int], packet@.n));
                            assert forall|k: int|
                                0 <= k < old_view[i as int].entries.len() && k != j implies self.outbox_view()[i as int].entries[k]
                                == old_view[i as int].entries[k] by {}
                            assert(self.outbox_view()[i as int].entries.len()
                                == old_view[i as int].entries.len());
                            assert(self.outbox_view()[i as int].entries[j as int].n == packet@.n);
                            assert(self.outbox_view()[i as int].entries[j as int].sent
                                == addr_insert(old_view[i as int].entries[j as int].sent, *peer));
                            assert(self.outbox_view()[i as int].entries[j as int].acked
                                == old_view[i as int].entries[j as int].acked);
                            assert(self.outbox_view()[i as int].entries[j as int].packet
                                == old_view[i as int].entries[j as int].packet);
                        }
                    },
                    None => {
                        let entry = OutboxEntry {
                            n: packet.n,
                            sent: one_addr(*peer),
                            acked: Vec::new(),
                            packet: packet.clone(),
                            attempts: 1,
                        };
                        let stream = &mut self.outbox[i];
                        stream.entries.push(entry);
                        proof {
                            assert(self.outbox_view()[i as int].entries =~= old_view[i as int].entries.push(
                                self.outbox_view()[i as int].entries.last(),
                            ));
                            assert forall|k: int|
                                0 <= k < old_view[i as int].entries.len() implies self.outbox_view()[i as int].entries[k]
                                == old_view[i as int].entries[k] by {}
                            lemma_wf_after_stream_update(*old(self), *self, i as int);
                            assert(old_view[i as int].id == packet@.id);
                            assert(self.outbox_view().len() == old_view.len());
                            assert forall|jj: int|
                                0 <= jj < old_view.len() && jj != i implies self.outbox_view()[jj]
                                == old_view[jj] by {
                                assert(self.outbox@[jj] == old(self).outbox@[jj]);
                            }
                            assert(self.outbox_view()[i as int].id == packet@.id);
                            assert(!has_entry(old_view[i as int], packet@.n));
                            assert(self.outbox_view()[i as int].entries.last() == (OutboxEntryV {
                                n: packet@.n,
                                sent: seq![*peer],
                                acked: Seq::<NetAddr>::empty(),
                                packet: packet@,
                                attempts: 1,
                            }));
                            assert(self.outbox_view()[i as int].entries == old_view[i as int].entries.push(
                                (OutboxEntryV {
                                    n: packet@.n,
                                    sent: seq![*peer],
                                    acked: Seq::<NetAddr>::empty(),
                                    packet: packet@,
                                    attempts: 1,
                                }),
                            ));
                        }
                    },
                }
            },
            None => {
                let entry = OutboxEntry {
                    n: packet.n,
                    sent: one_addr(*peer),
                    acked: Vec::new(),
                    packet: packet.clone(),
                    attempts: 1,
                };
                let mut entries: Vec<OutboxEntry> = Vec::new();
                entries.push(entry);
                let stream = OutboxStream { id: packet.id, entries };
                self.outbox.push(stream);
                proof {
                    assert(self.outbox_view() =~= old_view.push(self.outbox_view().last()));
                    assert(self.outbox_view().last().entries =~= seq![
                        (OutboxEntryV {
                            n: packet@.n,
                            sent: seq![*peer],
                            acked: Seq::<NetAddr>::empty(),
                            packet: packet@,
                            attempts: 1,
                        }),
                    ]);
                    assert forall|ii: int, jj: int|
                        0 <= ii < jj < self.outbox_view().len() implies (
                    #[trigger] self.outbox_view()[ii]).id != (
                    #[trigger] self.outbox_view()[jj]).id by {
                        if jj == old_view.len() {
                            assert(self.outbox_view()[ii] == old_view[ii]);
                            assert(!has_stream(old_view, packet@.id));
                        } else {
                            assert(self.outbox_view()[ii] == old_view[ii]);
                            assert(self.outbox_view()[jj] == old_view[jj]);
                        }
                    }
                }
            },
        }
    }

    /// Record that `src` acknowledged packet `packet_number` of stream
    /// `id`: the address joins the entry's acknowledged-by set. Unknown
    /// streams and packet numbers, and addresses that do not parse, change
    /// nothing; a repeated acknowledgement changes nothing either.
    pub fn process_ack(&mut self, id: [u8; 32], packet_number: usize, src: Vec<u8>)
        requires
            old(self).wf(),
        ensures
            final (self).wf(),
            final (self).addr == old(self).addr,
            final (self).timer == old(self).timer,
            final (self).message_cache == old(self).message_cache,
            final (self).log == old(self).log,
            ack_applied(
                old(self).outbox_view(),
                final (self).outbox_view(),
                id@,
                packet_number as int,
                src@,
            ),
    {
        let ghost old_view = self.outbox_view();
        let parsed = crate::addr::NetAddr::from_bytes(src.as_slice());
        match parsed {
            Some(srcaddr) => {
                let si = self.find_stream(&id);
                match si {
                    Some(i) => {
                        let ei = find_entry(&self.outbox[i].entries, packet_number);
                        match ei {
                            Some(j) => {
                                let stream = &mut self.outbox[i];
                                let entry = &mut stream.entries[j];
                                addr_push_new(&mut entry.acked, srcaddr);
                                proof {
                                    assert(self.outbox_view()[i as int].entries
                                        =~= old_view[i as int].entries.update(
                                        j as int,
                                        self.outbox_view()[i as int].entries[j as int],
                                    ));
                                    lemma_wf_after_stream_update(*old(self), *self, i as int);
                                    assert(srcaddr == crate::wire::dec_addr(src@).unwrap());
                                    assert(old_view[i as int].id == id@);
                                    assert(self.outbox_view().len() == old_view.len());
                                    assert forall|jj: int|
                                        0 <= jj < old_view.len() && jj != i implies self.outbox_view()[jj]
                                        == old_view[jj] by {
                                        assert(self.outbox@[jj] == old(self).outbox@[jj]);
                                    }
                                    assert(self.outbox_view()[i as int].id == id@);
                                    assert(old_view[i as int].entries[j as int].n
                                        == packet_number as int);
                                    assert(has_entry(old_view[i as int], packet_number as int));
                                    assert forall|k: int|
                                        0 <= k < old_view[i as int].entries.len() && k
                                            != j implies self.outbox_view()[i as int].entries[k]
                                        == old_view[i as int].entries[k] by {}
                                    assert(self.outbox_view()[i as int].entries.len()
                                        == old_view[i as int].entries.len());
                                    assert(self.outbox_view()[i as int].entries[j as int].acked
                                        == addr_insert(
                                        old_view[i as int].entries[j as int].acked,
                                        srcaddr,
                                    ));
                                    assert(self.outbox_view()[i as int].entries[j as int].sent
                                        == old_view[i as int].entries[j as int].sent);
                                    assert(self.outbox_view()[i as int].entries[j as int].n
                                        == old_view[i as int].entries[j as int].n);
                                    assert(self.outbox_view()[i as int].entries[j as int].packet
                                        == old_view[i as int].entries[j as int].packet);
                                    assert(self.outbox_view()[i as int].entries[j as int].attempts
                                        == old_view[i as int].entries[j as int].attempts);
                                }
                            },
                            None => {
                                proof {
                                    assert(self.outbox_view() =~= old_view);
                                    assert(old_view[i as int].id == id@);
                                    assert forall|k: int|
                                        0 <= k < old_view[i as int].entries.len() implies (
                                    #[trigger] old_view[i as int].entries[k]).n
                                        != packet_number as int by {
                                        assert(old_view[i as int].entries[k] == old(
                                            self,
                                        ).outbox@[i as int].entries@[k]@);
                                    }
                                    assert(!has_entry(old_view[i as int], packet_number as int));
                                    assert(self.outbox_view()[i as int] == old_view[i as int]);
                                }
                            },
                        }
                    },
                    None => {
                        proof {
                            assert(self.outbox_view() =~= old_view);
                        }
                    },
                }
            },
            None => {
                proof {
                    assert(self.outbox_view() =~= old_view);
                }
            },
        }
    }

    /// Drop every entry that is fully acknowledged or out of attempts,
    /// drop streams left empty, and for every kept entry record one more
    /// send to each recipient that has not acknowledged it; those sends are
    /// returned for the caller to transmit. Each kept entry stems from an
    /// entry that had attempts below the cap and acknowledgements a proper
    /// subset of its recipients, with recipients, acknowledgements and
    /// packet unchanged; each returned send goes to a recipient of a
    /// retained entry that has not acknowledged it and carries that entry's
    /// packet.
    #[verifier::rlimit(50)]
    #[verifier::rlimit(100)]
    pub fn maintain(&mut self) -> (r: Vec<(NetAddr, Packet)>)
        requires
            old(self).wf(),
        ensures
            final (self).wf(),
            final (self).addr == old(self).addr,
            final (self).timer == old(self).timer,
            final (self).message_cache == old(self).message_cache,
            final (self).log == old(self).log,
            forall|i: int, j: int|
                0 <= i < final (self).outbox_view().len() && 0 <= j < final (
                self).outbox_view()[i].entries.len() ==> #[trigger] entry_stems_from(
                    old(self).outbox_view(),
                    final (self).outbox_view(),
                    i,
                    j,
                ),
            forall|i0: int, j0: int|
                #![trigger old(self).outbox_view()[i0].entries[j0]]
                0 <= i0 < old(self).outbox_view().len() && 0 <= j0 < old(
                    self,
                ).outbox_view()[i0].entries.len() && keep_entry(
                    old(self).outbox_view()[i0].entries[j0],
                ) ==> entry_retained(old(self).outbox_view(), final (self).outbox_view(), i0, j0),
            forall|i: int|
                0 <= i < final (self).outbox_view().len() ==> (#[trigger] final (
                self).outbox_view()[i]).entries.len() > 0,
            forall|k: int|
                0 <= k < r@.len() ==> #[trigger] send_listed(final (self).outbox_view(), r@, k),
            forall|i: int, j: int, t: int|
                #![trigger final(self).outbox_view()[i].entries[j].sent[t]]
                0 <= i < final (self).outbox_view().len() && 0 <= j < final (
                self).outbox_view()[i].entries.len() && 0 <= t < final (
                self).outbox_view()[i].entries[j].sent.len() && !final (
                self).outbox_view()[i].entries[j].acked.contains(
                    final (self).outbox_view()[i].entries[j].sent[t],
                ) ==> recipient_served(final (self).outbox_view(), r@, i, j, t),
            sends_views(r@) == outbox_resends(final (self).outbox_view()),
    {
        let ghost old_view = self.outbox_view();
        let mut new_outbox: Vec<OutboxStream> = Vec::new();
        let ghost mut imap: Seq<int> = Seq::empty();
        let ghost mut jmaps: Seq<Seq<int>> = Seq::empty();
        let mut i: usize = 0;
        while i < self.outbox.len()
            invariant
                self.wf(),
                old_view == self.outbox_view(),
                i <= self.outbox@.len(),
                imap.len() == new_outbox@.len(),
                jmaps.len() == new_outbox@.len(),
                forall|a: int, b: int| 0 <= a < b < imap.len() ==> imap[a] < imap[b],
                forall|a: int| 0 <= a < imap.len() ==> 0 <= #[trigger] imap[a] < i,
                forall|a: int|
                    0 <= a < new_outbox@.len() ==> (#[trigger] new_outbox@[a])@.id
                        == old_view[imap[a]].id,
                forall|a: int|
                    0 <= a < new_outbox@.len() ==> (#[trigger] jmaps[a]).len()
                        == new_outbox@[a]@.entries.len(),
                forall|a: int, x: int, y: int|
                    #![trigger jmaps[a][x], jmaps[a][y]]
                    0 <= a < new_outbox@.len() && 0 <= x < y < jmaps[a].len() ==> jmaps[a][x]
                        < jmaps[a][y],
                forall|a: int, b: int|
                    #![trigger jmaps[a][b]]
                    0 <= a < new_outbox@.len() && 0 <= b < jmaps[a].len() ==> 0 <= jmaps[a][b]
                        < old_view[imap[a]].entries.len(),
                forall|a: int, b: int|
                    #![trigger new_outbox@[a]@.entries[b]]
                    0 <= a < new_outbox@.len() && 0 <= b < new_outbox@[a]@.entries.len()
                        ==> entry_kept(
                        old_view[imap[a]].entries[jmaps[a][b]],
                        new_outbox@[a]@.entries[b],
                    ),
                forall|a: int|
                    0 <= a < new_outbox@.len() ==> (#[trigger] new_outbox@[a])@.entries.len() > 0,
                forall|i0: int, j0: int|
                    #![trigger old_view[i0].entries[j0]]
                    0 <= i0 < i && 0 <= j0 < old_view[i0].entries.len() && keep_entry(
                        old_view[i0].entries[j0],
                    ) ==> entry_retained(old_view, streams_view(new_outbox@), i0, j0),
            decreases self.outbox@.len() - i,
        {
            let stream = &self.outbox[i];
            let pruned = prune_stream(stream);
            let kept = pruned.0;
            let ghost jmap = pruned.1@;
            let ghost gkept = kept@;
            if kept.len() > 0 {
                let ns = OutboxStream { id: stream.id, entries: kept };
                proof {
                    imap = imap.push(i as int);
                    jmaps = jmaps.push(jmap);
                    assert(stream@ == old_view[i as int]);
                    assert(ns@.id == old_view[i as int].id);
                    assert(ns.entries@ == gkept);
                }
                let ghost old_new = new_outbox@;
                new_outbox.push(ns);
                proof {
                    let last = new_outbox@.len() - 1;
                    assert(new_outbox@[last] == ns);
                    assert(imap[last] == i as int);
                    assert(jmaps[last] == jmap);
                    assert forall|b: int|
                        0 <= b < new_outbox@[last]@.entries.len() implies entry_kept(
                        old_view[imap[last]].entries[jmaps[last][b]],
                        #[trigger] new_outbox@[last]@.entries[b],
                    ) by {
                        assert(new_outbox@[last]@.entries[b] == gkept[b]@);
                        assert(entry_kept(stream@.entries[jmap[b]], gkept[b]@));
                    }
                    assert forall|a: int|
                        0 <= a < new_outbox@.len() implies (#[trigger] jmaps[a]).len()
                        == new_outbox@[a]@.entries.len() by {
                        if a < last {
                            assert(new_outbox@[a] == old_new[a]);
                        }
                    }
                    assert forall|a: int, b: int|
                        #![trigger new_outbox@[a]@.entries[b]]
                        0 <= a < new_outbox@.len() && 0 <= b
                            < new_outbox@[a]@.entries.len() implies entry_kept(
                        old_view[imap[a]].entries[jmaps[a][b]],
                        new_outbox@[a]@.entries[b],
                    ) by {
                        if a < last {
                            assert(new_outbox@[a] == old_new[a]);
                        }
                    }
                    assert forall|i0: int, j0: int|
                        #![trigger old_view[i0].entries[j0]]
                        0 <= i0 < i + 1 && 0 <= j0 < old_view[i0].entries.len() && keep_entry(
                            old_view[i0].entries[j0],
                        ) implies entry_retained(
                        old_view,
                        streams_view(new_outbox@),
                        i0,
                        j0,
                    ) by {
                        if i0 < i {
                            let (a0, b0) = choose|a0: int, b0: int|
                                {
                                    &&& 0 <= a0 < old_new.len()
                                    &&& 0 <= b0 < old_new[a0]@.entries.len()
                                    &&& streams_view(old_new)[a0].id == old_view[i0].id
                                    &&& entry_kept(
                                        old_view[i0].entries[j0],
                                        #[trigger] streams_view(old_new)[a0].entries[b0],
                                    )
                                };
                            assert(new_outbox@[a0] == old_new[a0]);
                            assert(entry_kept(
                                old_view[i0].entries[j0],
                                streams_view(new_outbox@)[a0].entries[b0],
                            ));
                        } else {
                            assert(jmap.contains(j0));
                            let b0 = choose|b0: int|
                                0 <= b0 < jmap.len() && #[trigger] jmap[b0] == j0;
                            assert(streams_view(new_outbox@)[last].entries[b0] == gkept[b0]@);
                            assert(entry_kept(stream@.entries[jmap[b0]], gkept[b0]@));
                            assert(entry_kept(
                                old_view[i0].entries[j0],
                                streams_view(new_outbox@)[last].entries[b0],
                            ));
                            assert(streams_view(new_outbox@)[last].id == old_view[i0].id);
                        }
                    }
                }
            } else {
                proof {
                    assert forall|i0: int, j0: int|
                        #![trigger old_view[i0].entries[j0]]
                        0 <= i0 < i + 1 && 0 <= j0 < old_view[i0].entries.len() && keep_entry(
                            old_view[i0].entries[j0],
                        ) implies entry_retained(
                        old_view,
                        streams_view(new_outbox@),
                        i0,
                        j0,
                    ) by {
                        if i0 == i {
                            assert(stream@ == old_view[i as int]);
                            assert(jmap.contains(j0));
                            assert(jmap.len() == gkept.len());
                            assert(false);
                        }
                    }
                }
            }
            i += 1;
        }
        let ghost new_outbox_snapshot = new_outbox@;
        let ghost final_new = Seq::new(new_outbox@.len(), |a: int| new_outbox@[a]@);
        self.outbox = new_outbox;
        proof {
            assert(self.outbox_view() =~= final_new);
            assert forall|x: int, y: int|
                0 <= x < y < self.outbox_view().len() implies (
            #[trigger] self.outbox_view()[x]).id != (#[trigger] self.outbox_view()[y]).id by {
                assert(self.outbox_view()[x].id == old_view[imap[x]].id);
                assert(self.outbox_view()[y].id == old_view[imap[y]].id);
                assert(imap[x] < imap[y]);
            }
            assert forall|ii: int, jj: int|
                #![trigger self.outbox_view()[ii].entries[jj]]
                0 <= ii < self.outbox_view().len() && 0 <= jj
                    < self.outbox_view()[ii].entries.len() implies exists|i0: int, j0: int|
                {
                    &&& 0 <= i0 < old_view.len()
                    &&& 0 <= j0 < old_view[i0].entries.len()
                    &&& old_view[i0].id == self.outbox_view()[ii].id
                    &&& entry_kept(
                        #[trigger] old_view[i0].entries[j0],
                        self.outbox_view()[ii].entries[jj],
                    )
                } by {
                assert(entry_kept(
                    old_view[imap[ii]].entries[jmaps[ii][jj]],
                    self.outbox_view()[ii].entries[jj],
                ));
                assert(0 <= imap[ii] < old_view.len());
                assert(old_view[imap[ii]].id == self.outbox_view()[ii].id);
            }
            assert forall|a: int, b: int, x: int, y: int|
                #![trigger self.outbox_view()[a].entries[b].sent[x], self.outbox_view()[a].entries[b].sent[y]]
                0 <= a < self.outbox_view().len() && 0 <= b < self.outbox_view()[a].entries.len()
                    && 0 <= x < y
                    < self.outbox_view()[a].entries[b].sent.len() implies self.outbox_view()[a].entries[b].sent[x]
                != self.outbox_view()[a].entries[b].sent[y] by {
                assert(entry_kept(
                    old_view[imap[a]].entries[jmaps[a][b]],
                    self.outbox_view()[a].entries[b],
                ));
                assert(self.outbox_view()[a].entries[b].sent
                    == old_view[imap[a]].entries[jmaps[a][b]].sent);
            }
            assert forall|a: int, b: int, x: int, y: int|
                #![trigger self.outbox_view()[a].entries[b].acked[x], self.outbox_view()[a].entries[b].acked[y]]
                0 <= a < self.outbox_view().len() && 0 <= b < self.outbox_view()[a].entries.len()
                    && 0 <= x < y
                    < self.outbox_view()[a].entries[b].acked.len() implies self.outbox_view()[a].entries[b].acked[x]
                != self.outbox_view()[a].entries[b].acked[y] by {
                assert(entry_kept(
                    old_view[imap[a]].entries[jmaps[a][b]],
                    self.outbox_view()[a].entries[b],
                ));
                assert(self.outbox_view()[a].entries[b].acked
                    == old_view[imap[a]].entries[jmaps[a][b]].acked);
            }
            assert forall|a: int, x: int, y: int|
                #![trigger self.outbox_view()[a].entries[x], self.outbox_view()[a].entries[y]]
                0 <= a < self.outbox_view().len() && 0 <= x < y
                    < self.outbox_view()[a].entries.len() implies self.outbox_view()[a].entries[x].n
                != self.outbox_view()[a].entries[y].n by {
                assert(entry_kept(
                    old_view[imap[a]].entries[jmaps[a][x]],
                    self.outbox_view()[a].entries[x],
                ));
                assert(entry_kept(
                    old_view[imap[a]].entries[jmaps[a][y]],
                    self.outbox_view()[a].entries[y],
                ));
                assert(jmaps[a][x] < jmaps[a][y]);
                assert(old_view[imap[a]].entries[jmaps[a][x]].n
                    != old_view[imap[a]].entries[jmaps[a][y]].n);
            }
        }
        let ghost kept_view = self.outbox_view();
        proof {
            assert(kept_view =~= streams_view(new_outbox_snapshot));
            assert forall|a: int, b: int|
                #![trigger kept_view[a].entries[b]]
                0 <= a < kept_view.len() && 0 <= b < kept_view[a].entries.len() implies entry_kept(
                old_view[imap[a]].entries[jmaps[a][b]],
                kept_view[a].entries[b],
            ) by {
                assert(kept_view[a].entries[b] == self.outbox_view()[a].entries[b]);
            }
            assert forall|i0: int, j0: int|
                #![trigger old_view[i0].entries[j0]]
                0 <= i0 < old_view.len() && 0 <= j0 < old_view[i0].entries.len() && keep_entry(
                    old_view[i0].entries[j0],
                ) implies entry_retained(old_view, kept_view, i0, j0) by {
                assert(entry_retained(old_view, streams_view(new_outbox_snapshot), i0, j0));
            }
            assert forall|a: int| 0 <= a < kept_view.len() implies (
            #[trigger] kept_view[a]).entries.len() > 0 by {
                assert(kept_view[a] == streams_view(new_outbox_snapshot)[a]);
            }
        }
        let mut out: Vec<(NetAddr, Packet)> = Vec::new();
        proof {
            reveal_with_fuel(outbox_resends, 1);
            assert(kept_view.take(0).len() == 0);
            assert(sends_views(out@) =~= outbox_resends(kept_view.take(0)));
        }
        let mut i2: usize = 0;
        while i2 < self.outbox.len()
            invariant
                kept_view == self.outbox_view(),
                i2 <= self.outbox@.len(),
                sends_views(out@) == outbox_resends(kept_view.take(i2 as int)),
                forall|k: int| 0 <= k < out@.len() ==> #[trigger] send_listed(kept_view, out@, k),
                forall|i: int, j: int, t: int|
                    #![trigger kept_view[i].entries[j].sent[t]]
                    0 <= i < i2 && 0 <= j < kept_view[i].entries.len() && 0 <= t
                        < kept_view[i].entries[j].sent.len()
                        && !kept_view[i].entries[j].acked.contains(
                        kept_view[i].entries[j].sent[t],
                    ) ==> recipient_served(kept_view, out@, i, j, t),
                imap.len() == kept_view.len(),
                jmaps.len() == kept_view.len(),
                forall|a: int| 0 <= a < imap.len() ==> 0 <= #[trigger] imap[a] < old_view.len(),
                forall|a: int|
                    0 <= a < kept_view.len() ==> (#[trigger] kept_view[a]).id
                        == old_view[imap[a]].id,
                forall|a: int|
                    0 <= a < kept_view.len() ==> (#[trigger] jmaps[a]).len()
                        == kept_view[a].entries.len(),
                forall|a: int, b: int|
                    #![trigger jmaps[a][b]]
                    0 <= a < kept_view.len() && 0 <= b < jmaps[a].len() ==> 0 <= jmaps[a][b]
                        < old_view[imap[a]].entries.len(),
                forall|a: int, b: int|
                    #![trigger kept_view[a].entries[b]]
                    0 <= a < kept_view.len() && 0 <= b < kept_view[a].entries.len()
                        ==> entry_kept(
                        old_view[imap[a]].entries[jmaps[a][b]],
                        kept_view[a].entries[b],
                    ),
            decreases self.outbox@.len() - i2,
        {
            let elen = self.outbox[i2].entries.len();
            proof {
                reveal_with_fuel(entries_resends, 1);
                assert(kept_view[i2 as int].entries.take(0).len() == 0);
                assert(entries_resends(kept_view[i2 as int].entries.take(0))
                    =~= Seq::<(NetAddr, PacketV)>::empty());
                assert(sends_views(out@) + Seq::<(NetAddr, PacketV)>::empty() =~= sends_views(
                    out@,
                ));
            }
            let mut j2: usize = 0;
            while j2 < elen
                invariant
                    kept_view == self.outbox_view(),
                    i2 < self.outbox@.len(),
                    elen == self.outbox@[i2 as int].entries@.len(),
                    j2 <= elen,
                    sends_views(out@) == outbox_resends(kept_view.take(i2 as int))
                        + entries_resends(kept_view[i2 as int].entries.take(j2 as int)),
                    forall|k: int|
                        0 <= k < out@.len() ==> #[trigger] send_listed(kept_view, out@, k),
                    forall|i: int, j: int, t: int|
                        #![trigger kept_view[i].entries[j].sent[t]]
                        (0 <= i < i2 || (i == i2 && 0 <= j < j2)) && 0 <= i < kept_view.len() && 0
                            <= j < kept_view[i].entries.len() && 0 <= t
                            < kept_view[i].entries[j].sent.len()
                            && !kept_view[i].entries[j].acked.contains(
                            kept_view[i].entries[j].sent[t],
                        ) ==> recipient_served(kept_view, out@, i, j, t),
                decreases elen - j2,
            {
                let e = &self.outbox[i2].entries[j2];
                let ghost before = out@;
                emit_resends(&mut out, e);
                proof {
                    assert(e@ == kept_view[i2 as int].entries[j2 as int]);
                    reveal_with_fuel(entries_resends, 1);
                    let ents = kept_view[i2 as int].entries;
                    assert(ents.take(j2 + 1).drop_last() =~= ents.take(j2 as int));
                    assert(ents.take(j2 + 1).last() == ents[j2 as int]);
                    assert(entries_resends(ents.take(j2 + 1)) == entries_resends(
                        ents.take(j2 as int),
                    ) + entry_resends(e@));
                    assert(sends_views(out@) =~= sends_views(before) + entry_resends(e@));
                    assert(sends_views(out@) =~= outbox_resends(kept_view.take(i2 as int))
                        + entries_resends(ents.take(j2 + 1)));
                    assert forall|k: int| 0 <= k < out@.len() implies #[trigger] send_listed(
                        kept_view,
                        out@,
                        k,
                    ) by {
                        if k < before.len() {
                            assert(out@[k] == before[k]);
                            assert(send_listed(kept_view, before, k));
                            let (iw, jw) = choose|iw: int, jw: int|
                                {
                                    &&& 0 <= iw < kept_view.len()
                                    &&& 0 <= jw < kept_view[iw].entries.len()
                                    &&& (#[trigger] kept_view[iw].entries[jw]).sent.contains(
                                        before[k].0,
                                    )
                                    &&& !kept_view[iw].entries[jw].acked.contains(before[k].0)
                                    &&& (before[k].1)@ == kept_view[iw].entries[jw].packet
                                };
                            assert(kept_view[iw].entries[jw].sent.contains(out@[k].0));
                        } else {
                            assert(e@.sent.contains(out@[k].0) && !e@.acked.contains(out@[k].0)
                                && (out@[k].1)@ == e@.packet);
                            assert(kept_view[i2 as int].entries[j2 as int].sent.contains(
                                out@[k].0,
                            ));
                        }
                    }
                    assert forall|i: int, j: int, t: int|
                        #![trigger kept_view[i].entries[j].sent[t]]
                        (0 <= i < i2 || (i == i2 && 0 <= j < j2 + 1)) && 0 <= i < kept_view.len()
                            && 0 <= j < kept_view[i].entries.len() && 0 <= t
                            < kept_view[i].entries[j].sent.len()
                            && !kept_view[i].entries[j].acked.contains(
                            kept_view[i].entries[j].sent[t],
                        ) implies recipient_served(kept_view, out@, i, j, t) by {
                        if i == i2 && j == j2 {
                            assert(exists|k: int|
                                {
                                    &&& before.len() <= k < out@.len()
                                    &&& (#[trigger] out@[k]).0 == e@.sent[t]
                                    &&& (out@[k].1)@ == e@.packet
                                });
                        } else {
                            let kw = choose|kw: int|
                                {
                                    &&& 0 <= kw < before.len()
                                    &&& (#[trigger] before[kw]).0 == kept_view[i].entries[j].sent[t]
                                    &&& (before[kw].1)@ == kept_view[i].entries[j].packet
                                };
                            assert(out@[kw] == before[kw]);
                        }
                    }
                }
                j2 += 1;
            }
            proof {
                reveal_with_fuel(outbox_resends, 1);
                let ents = kept_view[i2 as int].entries;
                assert(ents.take(elen as int) =~= ents);
                assert(kept_view.take(i2 + 1).drop_last() =~= kept_view.take(i2 as int));
                assert(kept_view.take(i2 + 1).last() == kept_view[i2 as int]);
                assert(outbox_resends(kept_view.take(i2 + 1)) == outbox_resends(
                    kept_view.take(i2 as int),
                ) + entries_resends(ents));
                assert(sends_views(out@) == outbox_resends(kept_view.take(i2 + 1)));
            }
            i2 += 1;
        }
        proof {
            assert(kept_view.take(kept_view.len() as int) =~= kept_view);
            lemma_retained_entries_kept(old(self).outbox_view(), self.outbox_view(), imap, jmaps);
            assert(old(self).outbox_view() == old_view);
            assert(self.outbox_view() == kept_view);
            assert forall|i0: int, j0: int|
                #![trigger old(self).outbox_view()[i0].entries[j0]]
                0 <= i0 < old(self).outbox_view().len() && 0 <= j0 < old(
                    self,
                ).outbox_view()[i0].entries.len() && keep_entry(
                    old(self).outbox_view()[i0].entries[j0],
                ) implies entry_retained(
                old(self).outbox_view(),
                self.outbox_view(),
                i0,
                j0,
            ) by {
                assert(old(self).outbox_view()[i0].entries[j0] == old_view[i0].entries[j0]);
                assert(entry_retained(old_view, kept_view, i0, j0));
            }
            assert forall|i: int, j: int, t: int|
                #![trigger self.outbox_view()[i].entries[j].sent[t]]
                0 <= i < self.outbox_view().len() && 0 <= j < self.outbox_view()[i].entries.len()
                    && 0 <= t < self.outbox_view()[i].entries[j].sent.len()
                    && !self.outbox_view()[i].entries[j].acked.contains(
                    self.outbox_view()[i].entries[j].sent[t],
                ) implies recipient_served(self.outbox_view(), out@, i, j, t) by {
                assert(self.outbox_view()[i].entries[j].sent[t]
                    == kept_view[i].entries[j].sent[t]);
                assert(recipient_served(kept_view, out@, i, j, t));
            }
        }
        out
    }

    /// Run maintenance and reset the timer once the maintenance interval
    /// has passed since the last run; otherwise do nothing. When it runs,
    /// the outbox is maintained exactly as `maintain` says: keepable entries
    /// are retained, everything else is dropped, and the returned sends
    /// serve every unacknowledged recipient of every retained entry.
    pub fn check_time_elapsed(&mut self, now: u128) -> (r: Vec<(NetAddr, Packet)>)
        requires
            old(self).wf(),
        ensures
            final (self).wf(),
            final (self).addr == old(self).addr,
            (now < old(self).timer || now - old(self).timer < MAINTENANCE_NS) ==> (*final (self)
                == *old(self) && r@.len() == 0),
            (now >= old(self).timer && now - old(self).timer >= MAINTENANCE_NS) ==> {
                &&& final (self).timer == now
                &&& (forall|i: int, j: int|
                    0 <= i < final (self).outbox_view().len() && 0 <= j < final (
                    self).outbox_view()[i].entries.len() ==> #[trigger] entry_stems_from(
                        old(self).outbox_view(),
                        final (self).outbox_view(),
                        i,
                        j,
                    ))
                &&& (forall|i0: int, j0: int|
                    #![trigger old(self).outbox_view()[i0].entries[j0]]
                    0 <= i0 < old(self).outbox_view().len() && 0 <= j0 < old(
                        self,
                    ).outbox_view()[i0].entries.len() && keep_entry(
                        old(self).outbox_view()[i0].entries[j0],
                    ) ==> entry_retained(
                        old(self).outbox_view(),
                        final (self).outbox_view(),
                        i0,
                        j0,
                    ))
                &&& (forall|k: int|
                    0 <= k < r@.len() ==> #[trigger] send_listed(
                        final (self).outbox_view(),
                        r@,
                        k,
                    ))
                &&& (forall|i: int, j: int, t: int|
                    #![trigger final(self).outbox_view()[i].entries[j].sent[t]]
                    0 <= i < final (self).outbox_view().len() && 0 <= j < final (
                    self).outbox_view()[i].entries.len() && 0 <= t < final (
                    self).outbox_view()[i].entries[j].sent.len() && !final (
                    self).outbox_view()[i].entries[j].acked.contains(
                        final (self).outbox_view()[i].entries[j].sent[t],
                    ) ==> recipient_served(final (self).outbox_view(), r@, i, j, t))
                &&& sends_views(r@) == outbox_resends(final (self).outbox_view())
            },
    {
        if now >= self.timer && now - self.timer >= MAINTENANCE_NS {
            let r = self.maintain();
            let ghost mid = *self;
            self.timer = now;
            proof {
                assert(self.outbox_view() =~= mid.outbox_view());
                assert(self.wf());
                assert forall|i: int, j: int|
                    0 <= i < self.outbox_view().len() && 0 <= j
                        < self.outbox_view()[i].entries.len() implies #[trigger] entry_stems_from(
                    old(self).outbox_view(),
                    self.outbox_view(),
                    i,
                    j,
                ) by {
                    assert(entry_stems_from(old(self).outbox_view(), mid.outbox_view(), i, j));
                }
                assert forall|i0: int, j0: int|
                    #![trigger old(self).outbox_view()[i0].entries[j0]]
                    0 <= i0 < old(self).outbox_view().len() && 0 <= j0 < old(
                        self,
                    ).outbox_view()[i0].entries.len() && keep_entry(
                        old(self).outbox_view()[i0].entries[j0],
                    ) implies entry_retained(
                    old(self).outbox_view(),
                    self.outbox_view(),
                    i0,
                    j0,
                ) by {
                    assert(entry_retained(old(self).outbox_view(), mid.outbox_view(), i0, j0));
                }
                assert forall|k: int| 0 <= k < r@.len() implies #[trigger] send_listed(
                    self.outbox_view(),
                    r@,
                    k,
                ) by {
                    assert(send_listed(mid.outbox_view(), r@, k));
                }
                assert forall|i: int, j: int, t: int|
                    #![trigger self.outbox_view()[i].entries[j].sent[t]]
                    0 <= i < self.outbox_view().len() && 0 <= j
                        < self.outbox_view()[i].entries.len() && 0 <= t
                        < self.outbox_view()[i].entries[j].sent.len()
                        && !self.outbox_view()[i].entries[j].acked.contains(
                        self.outbox_view()[i].entries[j].sent[t],
                    ) implies recipient_served(self.outbox_view(), r@, i, j, t) by {
                    assert(recipient_served(mid.outbox_view(), r@, i, j, t));
                }
                assert(sends_views(r@) == outbox_resends(self.outbox_view()));
            }
            r
        } else {
            Vec::new()
        }
    }

    /// The index of the stream keyed by this id, if any.
    fn find_stream(&self, id: &[u8; 32]) -> (r: Option<usize>)
        ensures
            match r {
                Some(i) => i < self.outbox_view().len() && self.outbox_view()[i as int].id == id@,
                None => !has_stream(self.outbox_view(), id@),
            },
    {
        let mut i: usize = 0;
        while i < self.outbox.len()
            invariant
                i <= self.outbox@.len(),
                forall|j: int| 0 <= j < i ==> (#[trigger] self.outbox_view()[j]).id != id@,
            decreases self.outbox@.len() - i,
        {
            if key_eq(&self.outbox[i].id, id) {
                return Some(i);
            }
            i += 1;
        }
        None
    }
}

/// How maintenance carries an entry over: attempts were below the cap, the
/// acknowledgements a proper subset of the recipients, everything but the
/// attempt count is unchanged, and the count grows by one per resend — one
/// per unacknowledged recipient — saturating at the machine limit.
pub open spec fn entry_kept(old_e: OutboxEntryV, new_e: OutboxEntryV) -> bool {
    &&& keep_entry(old_e)
    &&& new_e.n == old_e.n
    &&& new_e.sent == old_e.sent
    &&& new_e.acked == old_e.acked
    &&& new_e.packet == old_e.packet
    &&& new_e.attempts == vstd::math::min(
        old_e.attempts + unacked_of(old_e).len(),
        usize::MAX as int,
    )
}

/// Whether every address of `a` occurs in `b`.
fn addrs_subset_check(a: &Vec<NetAddr>, b: &Vec<NetAddr>) -> (r: bool)
    ensures
        r == addrs_subset(a@, b@),
{
    let mut i: usize = 0;
    while i < a.len()
        invariant
            i <= a@.len(),
            forall|j: int| 0 <= j < i ==> b@.contains(#[trigger] a@[j]),
        decreases a@.len() - i,
    {
        if !contains_addr(b, a[i]) {
            return false;
        }
        i += 1;
    }
    true
}

/// Whether the list holds the address.
fn contains_addr(v: &Vec<NetAddr>, a: NetAddr) -> (r: bool)
    ensures
        r == v@.contains(a),
{
    let mut i: usize = 0;
    while i < v.len()
        invariant
            i <= v@.len(),
            forall|j: int| 0 <= j < i ==> v@[j] != a,
        decreases v@.len() - i,
    {
        if v[i] == a {
            return true;
        }
        i += 1;
    }
    false
}

/// The recipients that have not acknowledged: `sent` minus `acked`.
fn addr_diff(sent: &Vec<NetAddr>, acked: &Vec<NetAddr>) -> (r: Vec<NetAddr>)
    ensures
        forall|k: int|
            0 <= k < r@.len() ==> sent@.contains(#[trigger] r@[k]) && !acked@.contains(r@[k]),
        forall|x: int|
            0 <= x < sent@.len() && !acked@.contains(#[trigger] sent@[x]) ==> r@.contains(
                sent@[x],
            ),
        r@ == addr_seq_diff(sent@, acked@),
{
    let mut out: Vec<NetAddr> = Vec::new();
    let mut i: usize = 0;
    proof {
        reveal_with_fuel(Seq::<_>::filter, 1);
        assert(sent@.take(0).len() == 0);
        assert(out@ =~= addr_seq_diff(sent@.take(0), acked@));
    }
    while i < sent.len()
        invariant
            i <= sent@.len(),
            forall|k: int|
                0 <= k < out@.len() ==> sent@.contains(#[trigger] out@[k]) && !acked@.contains(
                    out@[k],
                ),
            forall|x: int|
                0 <= x < i && !acked@.contains(#[trigger] sent@[x]) ==> out@.contains(sent@[x]),
            out@ == addr_seq_diff(sent@.take(i as int), acked@),
        decreases sent@.len() - i,
    {
        proof {
            reveal_with_fuel(Seq::<_>::filter, 1);
            assert(sent@.take(i + 1).drop_last() =~= sent@.take(i as int));
            assert(sent@.take(i + 1).last() == sent@[i as int]);
        }
        if !contains_addr(acked, sent[i]) {
            let ghost old_out = out@;
            out.push(sent[i]);
            proof {
                reveal_with_fuel(Seq::<_>::filter, 1);
                assert(sent@.contains(sent@[i as int]));
                assert(out@[out@.len() - 1] == sent@[i as int]);
                assert forall|x: int|
                    0 <= x < i + 1 && !acked@.contains(#[trigger] sent@[x]) implies out@.contains(
                    sent@[x],
                ) by {
                    if x < i {
                        let k = choose|k: int| 0 <= k < old_out.len() && old_out[k] == sent@[x];
                        assert(out@[k] == sent@[x]);
                    } else {
                        assert(out@[out@.len() - 1] == sent@[x]);
                    }
                }
                assert(addr_seq_diff(sent@.take(i + 1), acked@) == old_out.push(
                    sent@[i as int],
                ));
                assert(out@ =~= addr_seq_diff(sent@.take(i + 1), acked@));
            }
        } else {
            proof {
                reveal_with_fuel(Seq::<_>::filter, 1);
                assert(acked@.contains(sent@[i as int]));
                assert(out@ == addr_seq_diff(sent@.take(i + 1), acked@));
            }
        }
        i += 1;
    }
    proof {
        assert(sent@.take(sent@.len() as int) =~= sent@);
    }
    out
}

/// Copy an address list.
fn copy_addrs(v: &Vec<NetAddr>) -> (r: Vec<NetAddr>)
    ensures
        r@ == v@,
{
    let mut out: Vec<NetAddr> = Vec::new();
    let mut i: usize = 0;
    while i < v.len()
        invariant
            i <= v@.len(),
            out@ == v@.take(i as int),
        decreases v@.len() - i,
    {
        out.push(v[i]);
        proof {
            assert(out@ =~= v@.take(i + 1));
        }
        i += 1;
    }
    proof {
        assert(v@.take(v@.len() as int) =~= v@);
    }
    out
}

/// Every entry of the maintained outbox stems from a keepable entry of the
/// old outbox in the stream with the same id.
proof fn lemma_retained_entries_kept(
    ov: Seq<OutboxStreamV>,
    nv: Seq<OutboxStreamV>,
    imap: Seq<int>,
    jmaps: Seq<Seq<int>>,
)
    requires
        imap.len() == nv.len(),
        jmaps.len() == nv.len(),
        forall|a: int| 0 <= a < imap.len() ==> 0 <= #[trigger] imap[a] < ov.len(),
        forall|a: int| 0 <= a < nv.len() ==> (#[trigger] nv[a]).id == ov[imap[a]].id,
        forall|a: int|
            0 <= a < nv.len() ==> (#[trigger] jmaps[a]).len() == nv[a].entries.len(),
        forall|a: int, b: int|
            #![trigger jmaps[a][b]]
            0 <= a < nv.len() && 0 <= b < jmaps[a].len() ==> 0 <= jmaps[a][b]
                < ov[imap[a]].entries.len(),
        forall|a: int, b: int|
            #![trigger nv[a].entries[b]]
            0 <= a < nv.len() && 0 <= b < nv[a].entries.len() ==> entry_kept(
                ov[imap[a]].entries[jmaps[a][b]],
                nv[a].entries[b],
            ),
    ensures
        forall|i: int, j: int|
            0 <= i < nv.len() && 0 <= j < nv[i].entries.len() ==> #[trigger] entry_stems_from(
                ov,
                nv,
                i,
                j,
            ),
{
    assert forall|i: int, j: int|
        0 <= i < nv.len() && 0 <= j < nv[i].entries.len() implies #[trigger] entry_stems_from(
        ov,
        nv,
        i,
        j,
    ) by {
        assert(entry_kept(ov[imap[i]].entries[jmaps[i][j]], nv[i].entries[j]));
        assert(0 <= imap[i] < ov.len());
        assert(ov[imap[i]].id == nv[i].id);
    }
}

/// Keep the entries of one stream that have attempts below the cap and
/// acknowledgements a proper subset of the recipients. Returns the kept
/// copies together with the positions they came from.
fn prune_stream(stream: &OutboxStream) -> (r: (Vec<OutboxEntry>, Ghost<Seq<int>>))
    ensures
        r.1@.len() == r.0@.len(),
        forall|a: int, b: int| 0 <= a < b < r.1@.len() ==> r.1@[a] < r.1@[b],
        forall|a: int| 0 <= a < r.1@.len() ==> 0 <= #[trigger] r.1@[a] < stream@.entries.len(),
        forall|b: int|
            0 <= b < r.0@.len() ==> entry_kept(
                stream@.entries[r.1@[b]],
                (#[trigger] r.0@[b])@,
            ),
        forall|j0: int|
            0 <= j0 < stream@.entries.len() && keep_entry(#[trigger] stream@.entries[j0])
                ==> r.1@.contains(j0),
{
    proof {
        reveal(keep_entry);
    }
    let mut kept: Vec<OutboxEntry> = Vec::new();
    let ghost mut jmap: Seq<int> = Seq::empty();
    let mut j: usize = 0;
    while j < stream.entries.len()
        invariant
            j <= stream.entries@.len(),
            jmap.len() == kept@.len(),
            forall|a: int, b: int| 0 <= a < b < jmap.len() ==> jmap[a] < jmap[b],
            forall|a: int| 0 <= a < jmap.len() ==> 0 <= #[trigger] jmap[a] < j,
            forall|b: int|
                0 <= b < kept@.len() ==> entry_kept(
                    stream@.entries[jmap[b]],
                    (#[trigger] kept@[b])@,
                ),
            forall|j0: int|
                0 <= j0 < j && keep_entry(#[trigger] stream@.entries[j0]) ==> jmap.contains(j0),
        decreases stream.entries@.len() - j,
    {
        let e = &stream.entries[j];
        proof {
            assert(e@ == stream@.entries[j as int]);
        }
        if e.attempts < MAX_SEND_ATTEMPTS && addrs_subset_check(&e.acked, &e.sent)
            && !addrs_subset_check(&e.sent, &e.acked) {
            proof {
                reveal(keep_entry);
                assert(keep_entry(e@));
            }
            let ke = kept_copy(e);
            kept.push(ke);
            proof {
                let ghost old_jmap = jmap;
                jmap = jmap.push(j as int);
                assert(jmap[jmap.len() - 1] == j as int);
                assert forall|j0: int|
                    0 <= j0 < j + 1 && keep_entry(
                        #[trigger] stream@.entries[j0],
                    ) implies jmap.contains(j0) by {
                    if j0 < j {
                        let b0 = choose|b0: int|
                            0 <= b0 < old_jmap.len() && #[trigger] old_jmap[b0] == j0;
                        assert(jmap[b0] == j0);
                    } else {
                        assert(jmap[jmap.len() - 1] == j0);
                    }
                }
            }
        } else {
            proof {
                reveal(keep_entry);
                assert(!keep_entry(stream@.entries[j as int]));
            }
        }
        j += 1;
    }
    (kept, Ghost(jmap))
}

/// Record one resend to each recipient of the entry that has not
/// acknowledged it, appending the sends to `out`.
fn emit_resends(out: &mut Vec<(NetAddr, Packet)>, e: &OutboxEntry)
    ensures
        final (out)@.len() == old(out)@.len() + unacked_of(e@).len(),
        forall|k: int| 0 <= k < old(out)@.len() ==> final (out)@[k] == old(out)@[k],
        forall|k: int|
            old(out)@.len() <= k < final (out)@.len() ==> (#[trigger] final (out)@[k]).0
                == unacked_of(e@)[k - old(out)@.len()] && (final (out)@[k].1)@ == e@.packet,
        forall|k: int|
            old(out)@.len() <= k < final (out)@.len() ==> e@.sent.contains(
                (#[trigger] final (out)@[k]).0,
            ) && !e@.acked.contains(final (out)@[k].0) && final (out)@[k].1@ == e@.packet,
        forall|t: int|
            0 <= t < e@.sent.len() && !e@.acked.contains(#[trigger] e@.sent[t]) ==> exists|k: int|
                {
                    &&& old(out)@.len() <= k < final (out)@.len()
                    &&& (#[trigger] final (out)@[k]).0 == e@.sent[t]
                    &&& final (out)@[k].1@ == e@.packet
                },
{
    let targets = addr_diff(&e.sent, &e.acked);
    let ghost base = out@.len();
    let mut t: usize = 0;
    while t < targets.len()
        invariant
            t <= targets@.len(),
            base == old(out)@.len(),
            out@.len() == base + t,
            forall|k: int| 0 <= k < base ==> out@[k] == old(out)@[k],
            forall|x: int|
                0 <= x < targets@.len() ==> e@.sent.contains(#[trigger] targets@[x])
                    && !e@.acked.contains(targets@[x]),
            forall|x: int|
                0 <= x < e@.sent.len() && !e@.acked.contains(#[trigger] e@.sent[x])
                    ==> targets@.contains(e@.sent[x]),
            forall|k: int|
                base <= k < out@.len() ==> (#[trigger] out@[k]).0 == targets@[k - base]
                    && out@[k].1@ == e@.packet,
        decreases targets@.len() - t,
    {
        out.push((targets[t], e.packet.clone()));
        t += 1;
    }
    proof {
        assert forall|tt: int|
            0 <= tt < e@.sent.len() && !e@.acked.contains(#[trigger] e@.sent[tt]) implies exists|
            k: int,
        |
            {
                &&& base <= k < out@.len()
                &&& (#[trigger] out@[k]).0 == e@.sent[tt]
                &&& out@[k].1@ == e@.packet
            } by {
            let x = choose|x: int| 0 <= x < targets@.len() && targets@[x] == e@.sent[tt];
            assert(out@[base + x].0 == e@.sent[tt]);
        }
    }
}

/// Copy an entry for retention, counting one more attempt per recipient
/// that has not acknowledged.
fn kept_copy(e: &OutboxEntry) -> (r: OutboxEntry)
    requires
        keep_entry(e@),
    ensures
        entry_kept(e@, r@),
{
    proof {
        reveal(keep_entry);
    }
    let targets = addr_diff(&e.sent, &e.acked);
    let extra = targets.len();
    let new_attempts = if e.attempts <= usize::MAX - extra {
        e.attempts + extra
    } else {
        usize::MAX
    };
    OutboxEntry {
        n: e.n,
        sent: copy_addrs(&e.sent),
        acked: copy_addrs(&e.acked),
        packet: e.packet.clone(),
        attempts: new_attempts,
    }
}

/// A single-element recipient list.
fn one_addr(a: NetAddr) -> (r: Vec<NetAddr>)
    ensures
        r@ == seq![a],
{
    let mut v: Vec<NetAddr> = Vec::new();
    v.push(a);
    proof {
        assert(v@ =~= seq![a]);
    }
    v
}

/// Whether two 32-byte ids are equal.
pub(crate) fn key_eq(a: &[u8; 32], b: &[u8; 32]) -> (r: bool)
    ensures
        r == (a@ == b@),
{
    let mut i: usize = 0;
    while i < 32
        invariant
            i <= 32,
            forall|j: int| 0 <= j < i ==> a@[j] == b@[j],
        decreases 32 - i,
    {
        if a[i] != b[i] {
            return false;
        }
        i += 1;
    }
    proof {
        assert(a@ =~= b@);
    }
    true
}

/// The index of the entry for this packet number, if any.
fn find_entry(entries: &Vec<OutboxEntry>, n: usize) -> (r: Option<usize>)
    ensures
        match r {
            Some(j) => j < entries@.len() && entries@[j as int]@.n == n as int,
            None => forall|j: int| 0 <= j < entries@.len() ==> (#[trigger] entries@[j])@.n != n as int,
        },
{
    let mut j: usize = 0;
    while j < entries.len()
        invariant
            j <= entries@.len(),
            forall|k: int| 0 <= k < j ==> (#[trigger] entries@[k])@.n != n as int,
        decreases entries@.len() - j,
    {
        if entries[j].n == n {
            return Some(j);
        }
        j += 1;
    }
    None
}

/// Append the address unless the list already holds it.
fn addr_push_new(v: &mut Vec<NetAddr>, a: NetAddr)
    ensures
        final (v)@ == addr_insert(old(v)@, a),
{
    let mut i: usize = 0;
    while i < v.len()
        invariant
            i <= v@.len(),
            v@ == old(v)@,
            forall|j: int| 0 <= j < i ==> v@[j] != a,
        decreases v@.len() - i,
    {
        if v[i] == a {
            proof {
                assert(old(v)@.contains(a));
            }
            return ;
        }
        i += 1;
    }
    proof {
        assert(!old(v)@.contains(a));
    }
    v.push(a);
}

/// The name of the transmission log file.
fn new_log_name() -> (r: String) {
    let mut s = String::new();
    s.append("log.log");
    s
}

/// After replacing one stream by a stream with the same id whose entries
/// are the old entries with one updated in place or one appended (keeping
/// numbers and address-list distinctness), the outbox stays well formed.
proof fn lemma_wf_after_stream_update(g0: GDUdp, g1: GDUdp, i: int)
    requires
        g0.wf(),
        0 <= i < g0.outbox_view().len(),
        g1.outbox_view().len() == g0.outbox_view().len(),
        forall|j: int|
            0 <= j < g0.outbox_view().len() && j != i ==> g1.outbox_view()[j]
                == g0.outbox_view()[j],
        g1.outbox_view()[i].id == g0.outbox_view()[i].id,
        (g1.outbox_view()[i].entries.len() == g0.outbox_view()[i].entries.len() || g1.outbox_view()[i].entries.len()
            == g0.outbox_view()[i].entries.len() + 1),
        forall|a: int|
            0 <= a < g1.outbox_view()[i].entries.len() ==> {
                if a < g0.outbox_view()[i].entries.len() {
                    {
                        &&& (#[trigger] g1.outbox_view()[i].entries[a]).n
                            == g0.outbox_view()[i].entries[a].n
                        &&& (g1.outbox_view()[i].entries[a].sent == g0.outbox_view()[i].entries[a].sent
                            || g1.outbox_view()[i].entries[a].sent == addr_insert(
                            g0.outbox_view()[i].entries[a].sent,
                            g1.outbox_view()[i].entries[a].sent.last(),
                        ))
                        &&& (g1.outbox_view()[i].entries[a].acked
                            == g0.outbox_view()[i].entries[a].acked
                            || g1.outbox_view()[i].entries[a].acked == addr_insert(
                            g0.outbox_view()[i].entries[a].acked,
                            g1.outbox_view()[i].entries[a].acked.last(),
                        ))
                    }
                } else {
                    {
                        &&& (forall|b: int|
                            0 <= b < g0.outbox_view()[i].entries.len() ==> (
                            #[trigger] g0.outbox_view()[i].entries[b]).n != g1.outbox_view()[i].entries[a].n)
                        &&& g1.outbox_view()[i].entries[a].sent.len() <= 1
                        &&& g1.outbox_view()[i].entries[a].acked.len() == 0
                    }
                }
            },
    ensures
        g1.wf(),
{
    let v0 = g0.outbox_view();
    let v1 = g1.outbox_view();
    assert forall|x: int, y: int| 0 <= x < y < v1.len() implies (#[trigger] v1[x]).id != (
    #[trigger] v1[y]).id by {
        if x != i {
            assert(v1[x] == v0[x]);
        }
        if y != i {
            assert(v1[y] == v0[y]);
        }
        assert(v0[x].id != v0[y].id);
    }
    assert forall|s: int, a: int, b: int|
        #![trigger v1[s].entries[a], v1[s].entries[b]]
        0 <= s < v1.len() && 0 <= a < b < v1[s].entries.len() implies v1[s].entries[a].n
        != v1[s].entries[b].n by {
        if s != i {
            assert(v1[s] == v0[s]);
        } else {
            if b < v0[i].entries.len() {
                assert(v1[i].entries[a].n == v0[i].entries[a].n);
                assert(v1[i].entries[b].n == v0[i].entries[b].n);
            } else {
                assert(v1[i].entries[a].n == v0[i].entries[a].n);
                assert(v0[i].entries[a].n != v1[i].entries[b].n);
            }
        }
    }
    assert forall|s: int, a: int, x: int, y: int|
        #![trigger v1[s].entries[a].sent[x], v1[s].entries[a].sent[y]]
        0 <= s < v1.len() && 0 <= a < v1[s].entries.len() && 0 <= x < y < v1[s].entries[a].sent.len()
        implies v1[s].entries[a].sent[x] != v1[s].entries[a].sent[y] by {
        if s != i {
            assert(v1[s] == v0[s]);
        } else if a < v0[i].entries.len() {
            let s0 = v0[i].entries[a].sent;
            let s1 = v1[s].entries[a].sent;
            if s1 != s0 {
                assert(s1 == addr_insert(s0, s1.last()));
                if !s0.contains(s1.last()) {
                    assert(s1 == s0.push(s1.last()));
                    if y < s0.len() {
                        assert(s1[x] == s0[x] && s1[y] == s0[y]);
                    } else {
                        assert(s1[x] == s0[x]);
                        assert(s0.contains(s0[x]));
                        assert(s1[y] == s1.last());
                    }
                }
            }
        }
    }
    assert forall|s: int, a: int, x: int, y: int|
        #![trigger v1[s].entries[a].acked[x], v1[s].entries[a].acked[y]]
        0 <= s < v1.len() && 0 <= a < v1[s].entries.len() && 0 <= x < y
            < v1[s].entries[a].acked.len() implies v1[s].entries[a].acked[x]
        != v1[s].entries[a].acked[y] by {
        if s != i {
            assert(v1[s] == v0[s]);
        } else if a < v0[i].entries.len() {
            let s0 = v0[i].entries[a].acked;
            let s1 = v1[s].entries[a].acked;
            if s1 != s0 {
                assert(s1 == addr_insert(s0, s1.last()));
                if !s0.contains(s1.last()) {
                    assert(s1 == s0.push(s1.last()));
                    if y < s0.len() {
                        assert(s1[x] == s0[x] && s1[y] == s0[y]);
                    } else {
                        assert(s1[x] == s0[x]);
                        assert(s0.contains(s0[x]));
                        assert(s1[y] == s1.last());
                    }
                }
            }
        }
    }
}

} // verus!
