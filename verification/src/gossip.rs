use vstd::prelude::*;
use crate::addr::NetAddr;
use crate::kad::Kademlia;
use crate::peer::PeerInfo;
use crate::protocol::{Message, MessageKey, MessageV};
use crate::rnd::rand_below;
use crate::wire::{enc_addr, dec_addr, push_addr, push_bytes, read_addr, sub_vec};
use crate::kadproto::read_key32;

verus! {

/// One gossiped application message: its identifier, its payload, and the
/// address of its original sender.
#[derive(Debug)]
pub struct GossipMessage {
    pub id: [u8; 32],
    pub data: Vec<u8>,
    pub sender: NetAddr,
}

/// The mathematical content of a `GossipMessage`.
pub ghost struct GossipMessageV {
    pub id: Seq<u8>,
    pub data: Seq<u8>,
    pub sender: NetAddr,
}

impl View for GossipMessage {
    type V = GossipMessageV;

    open spec fn view(&self) -> GossipMessageV {
        GossipMessageV { id: self.id@, data: self.data@, sender: self.sender }
    }
}

impl Clone for GossipMessage {
    fn clone(&self) -> (r: Self)
        ensures
            r@ == self@,
    {
        GossipMessage { id: self.id, data: self.data.clone(), sender: self.sender }
    }
}

/// The wire bytes of a gossip message: id, sender address, then the payload.
pub open spec fn enc_gossip(g: GossipMessageV) -> Seq<u8> {
    g.id + enc_addr(g.sender) + g.data
}

/// What wire bytes say as a gossip message.
pub open spec fn dec_gossip(b: Seq<u8>) -> Option<GossipMessageV> {
    if b.len() < 38 {
        None
    } else {
        Some(
            GossipMessageV {
                id: b.take(32),
                data: b.skip(38),
                sender: dec_addr(b.subrange(32, 38)).unwrap(),
            },
        )
    }
}

/// A gossip message survives the round trip through its wire bytes.
pub proof fn lemma_gossip_roundtrip(g: GossipMessageV)
    requires
        g.id.len() == 32,
    ensures
        dec_gossip(enc_gossip(g)) == Some(g),
{
    vstd::bytes::lemma_auto_spec_u32_to_from_le_bytes();
    vstd::bytes::lemma_auto_spec_u16_to_from_le_bytes();
    let e = enc_gossip(g);
    assert(e.take(32) =~= g.id);
    assert(e.subrange(32, 38) =~= enc_addr(g.sender));
    crate::wire::lemma_addr_roundtrip(g.sender);
    assert(e.skip(38) =~= g.data);
    assert(dec_gossip(e) matches Some(q) && q == g);
}

impl GossipMessage {
    /// The gossip message's wire bytes.
    pub fn as_bytes(&self) -> (r: Vec<u8>)
        ensures
            r@ == enc_gossip(self@),
    {
        let mut out: Vec<u8> = Vec::new();
        push_bytes(&mut out, self.id.as_slice());
        push_addr(&mut out, &self.sender);
        push_bytes(&mut out, self.data.as_slice());
        proof {
            assert(out@ =~= enc_gossip(self@));
        }
        out
    }

    /// Read a gossip message from wire bytes; `None` on anything malformed.
    pub fn from_bytes(v: &[u8]) -> (r: Option<GossipMessage>)
        ensures
            match r {
                Some(g) => dec_gossip(v@) == Some(g@),
                None => dec_gossip(v@) is None,
            },
    {
        let n_total = v.len();
        if n_total < 38 {
            return None;
        }
        let id = read_key32(v, 0);
        let sender = read_addr(v, 32);
        let data = sub_vec(v, 38, n_total);
        let g = GossipMessage { id, data, sender };
        proof {
            assert(id@ =~= v@.take(32));
            assert(g@.data =~= v@.skip(38));
            assert(v@.subrange(32, 38) =~= v@.subrange(32int, 32int + 6));
            assert(dec_gossip(v@) == Some(g@));
        }
        Some(g)
    }
}

/// The gossip service's tuning: cache and re-broadcast windows in
/// heartbeats, fan-out bounds, the fan-out fraction as a ratio, the
/// heartbeat period, and the ping cadence in heartbeats.
#[derive(Debug)]
pub struct GossipConfig {
    pub id: String,
    pub history_len: usize,
    pub history_gossip: usize,
    pub target: usize,
    pub low: usize,
    pub high: usize,
    pub min_gossip: usize,
    pub factor_num: usize,
    pub factor_den: usize,
    pub interval: u128,
    pub check: usize,
}

impl GossipConfig {
    /// The fraction is a genuine fraction and the windows fit the clock.
    pub open spec fn wf(&self) -> bool {
        &&& self.factor_den > 0
        &&& self.factor_num <= self.factor_den
        &&& self.factor_num <= 65535
        &&& self.interval * self.history_gossip as u128 <= u128::MAX
        &&& self.interval * self.history_len as u128 <= u128::MAX
    }

    pub fn new(
        id: String,
        history_len: usize,
        history_gossip: usize,
        target: usize,
        low: usize,
        high: usize,
        min_gossip: usize,
        factor_num: usize,
        factor_den: usize,
        interval: u128,
        check: usize,
    ) -> (r: GossipConfig)
        ensures
            r.history_len == history_len,
            r.history_gossip == history_gossip,
            r.target == target,
            r.low == low,
            r.high == high,
            r.min_gossip == min_gossip,
            r.factor_num == factor_num,
            r.factor_den == factor_den,
            r.interval == interval,
            r.check == check,
            r.id == id,
    {
        GossipConfig {
            id,
            history_len,
            history_gossip,
            target,
            low,
            high,
            min_gossip,
            factor_num,
            factor_den,
            interval,
            check,
        }
    }

    /// The smallest fan-out the service aims for.
    pub fn min(&self) -> (r: usize)
        ensures
            r == self.min_gossip,
    {
        self.min_gossip
    }

    /// The largest peer count the service aims for.
    pub fn max(&self) -> (r: usize)
        ensures
            r == self.high,
    {
        self.high
    }
}

/// How many peers the fan-out draws from: every peer of the table, up to
/// thirty.
pub open spec fn close_count(t: crate::routing::RoutingTable) -> int {
    if t.all_peers_spec().len() < 30 {
        t.all_peers_spec().len() as int
    } else {
        30
    }
}

/// Whether one of these peers has this address.
pub open spec fn addr_of_one(cs: Seq<PeerInfo>, a: NetAddr) -> bool {
    exists|w: int| 0 <= w < cs.len() && (#[trigger] cs[w])@.address == a
}

/// Whether some peer of the table has this address.
pub open spec fn table_has_address(t: crate::routing::RoutingTable, a: NetAddr) -> bool {
    addr_of_one(t.all_peers_spec(), a)
}

/// Whether the fan-out draws on more than seven peers.
pub open spec fn fanout_wide(t: crate::routing::RoutingTable) -> bool {
    close_count(t) > 7
}

/// Whether some send of `out` is addressed to `a`.
pub open spec fn sent_to(out: Seq<(NetAddr, Message)>, a: NetAddr) -> bool {
    exists|k: int| 0 <= k < out.len() && (#[trigger] out[k]).0 == a
}

/// One fan-out's outcome over a closest-peer set `cs` and its eligible
/// addresses `es`: every send carries the message to a distinct member of
/// `es`; `es` holds exactly the distinct addresses of `cs` other than
/// `local` (and other than `src` when the fan-out is wide); a wide fan-out
/// issues exactly `min(floor(close_count * factor), |es|)` sends, a narrow
/// one exactly one send per member of `es`.
pub open spec fn publish_outcome_with(
    t: crate::routing::RoutingTable,
    cfg: GossipConfig,
    local: NetAddr,
    src: NetAddr,
    message: MessageV,
    out: Seq<(NetAddr, Message)>,
    cs: Seq<PeerInfo>,
    es: Seq<NetAddr>,
) -> bool {
    &&& cs.len() == close_count(t)
    &&& (forall|w: int| 0 <= w < cs.len() ==> t.all_peers_spec().contains(#[trigger] cs[w]))
    &&& crate::routing::distinct_ids(cs)
    &&& (t.all_peers_spec().len() >= 30 ==> crate::routing::sorted_by_dist(
        cs,
        t.local_info@.key,
    ))
    &&& (forall|e: int| 0 <= e < es.len() ==> addr_of_one(cs, #[trigger] es[e]))
    &&& (forall|e: int| 0 <= e < es.len() ==> (#[trigger] es[e]) != local)
    &&& (fanout_wide(t) ==> forall|e: int| 0 <= e < es.len() ==> (#[trigger] es[e]) != src)
    &&& (forall|e: int, f: int|
        0 <= e < f < es.len() ==> (#[trigger] es[e]) != (#[trigger] es[f]))
    &&& (forall|w: int|
        0 <= w < cs.len() && (#[trigger] cs[w])@.address != local && (fanout_wide(t)
            ==> cs[w]@.address != src) ==> es.contains(cs[w]@.address))
    &&& (forall|k: int|
        0 <= k < out.len() ==> ((#[trigger] out[k]).1)@ == message && es.contains(out[k].0))
    &&& (forall|k: int, l: int|
        0 <= k < l < out.len() ==> (#[trigger] out[k]).0 != (#[trigger] out[l]).0)
    &&& (fanout_wide(t) ==> out.len() == vstd::math::min(
        close_count(t) * cfg.factor_num as int / cfg.factor_den as int,
        es.len() as int,
    ))
    &&& (!fanout_wide(t) ==> (out.len() == es.len() && (forall|e: int|
        0 <= e < es.len() ==> sent_to(out, #[trigger] es[e]))))
}

/// One fan-out's outcome, for every draw of the randomness: there are a
/// closest-peer set and its eligible addresses for which
/// `publish_outcome_with` holds.
pub open spec fn publish_outcome(
    t: crate::routing::RoutingTable,
    cfg: GossipConfig,
    local: NetAddr,
    src: NetAddr,
    message: MessageV,
    out: Seq<(NetAddr, Message)>,
) -> bool {
    exists|cs: Seq<PeerInfo>, es: Seq<NetAddr>|
        publish_outcome_with(t, cfg, local, src, message, out, cs, es)
}

/// The views of a list of sends.
pub open spec fn gsend_views(v: Seq<(NetAddr, Message)>) -> Seq<(NetAddr, MessageV)> {
    Seq::new(v.len(), |k: int| (v[k].0, (v[k].1)@))
}

/// The views of a list of send blocks, joined in order.
pub open spec fn gsends_concat(parts: Seq<Seq<(NetAddr, Message)>>) -> Seq<(NetAddr, MessageV)>
    decreases parts.len(),
{
    if parts.len() == 0 {
        Seq::empty()
    } else {
        gsends_concat(parts.drop_last()) + gsend_views(parts.last())
    }
}

/// Whether block `i` is the right answer for cache entry `i`: a full
/// fan-out outcome for an entry inside the re-broadcast window whose
/// message parses, addressed from that message's recorded sender, and
/// nothing for any other entry.
pub open spec fn gossip_part_ok(
    oldc: Seq<CacheEntry>,
    parts: Seq<Seq<(NetAddr, Message)>>,
    i: int,
    now: u128,
    gossip_window: int,
    t: crate::routing::RoutingTable,
    cfg: GossipConfig,
    local: NetAddr,
) -> bool {
    if now >= oldc[i].inserted && now - oldc[i].inserted < gossip_window && dec_gossip(
        oldc[i].message@.msg,
    ) is Some {
        publish_outcome(
            t,
            cfg,
            local,
            dec_gossip(oldc[i].message@.msg).unwrap().sender,
            oldc[i].message@,
            parts[i],
        )
    } else {
        parts[i] == Seq::<(NetAddr, Message)>::empty()
    }
}

/// Whether the cache entry is within the retention window at `now`.
pub open spec fn cache_entry_fresh(inserted: u128, now: u128, keep_window: int) -> bool {
    !(now > inserted && now - inserted > keep_window)
}

/// Whether two cache entries carry the same key, message and insertion time.
pub open spec fn cache_entry_matches(a: CacheEntry, b: CacheEntry) -> bool {
    a.key@ == b.key@ && a.message@ == b.message@ && a.inserted == b.inserted
}

/// Whether entry `i` of the old cache survives into the new cache.
pub open spec fn cache_entry_carried(oldc: Seq<CacheEntry>, newc: Seq<CacheEntry>, i: int) -> bool {
    exists|k: int| 0 <= k < newc.len() && cache_entry_matches(#[trigger] newc[k], oldc[i])
}

/// Whether entry `k` of the new cache came from a fresh entry of the old.
pub open spec fn cache_entry_from(
    oldc: Seq<CacheEntry>,
    newc: Seq<CacheEntry>,
    k: int,
    now: u128,
    keep_window: int,
) -> bool {
    exists|i: int|
        {
            &&& 0 <= i < oldc.len()
            &&& cache_entry_matches(newc[k], #[trigger] oldc[i])
            &&& cache_entry_fresh(oldc[i].inserted, now, keep_window)
        }
}

/// Whether send `k` carries a message cached within the re-broadcast window
/// and is not addressed to `local`, nor — when the fan-out draws on more
/// than seven peers — back to that message's original sender.
pub open spec fn gossip_send_ok(
    oldc: Seq<CacheEntry>,
    out: Seq<(NetAddr, Message)>,
    k: int,
    now: u128,
    gossip_window: int,
    local: NetAddr,
    no_back: bool,
) -> bool {
    exists|i: int|
        {
            &&& 0 <= i < oldc.len()
            &&& now >= (#[trigger] oldc[i]).inserted
            &&& now - oldc[i].inserted < gossip_window
            &&& (out[k].1)@ == oldc[i].message@
            &&& out[k].0 != local
            &&& (no_back ==> (dec_gossip(oldc[i].message@.msg) matches Some(g) && out[k].0
                != g.sender))
        }
}

/// One cached gossip message: its identifier, the wire message it arrived
/// in, and when it was inserted.
pub struct CacheEntry {
    pub key: MessageKey,
    pub message: Message,
    pub inserted: u128,
}

/// The gossip dissemination service: the lookup service it feeds, the
/// de-duplication cache, the tuning, and the heartbeat clock.
pub struct GossipService {
    pub address: NetAddr,
    pub kad: Kademlia,
    pub cache: Vec<CacheEntry>,
    pub config: GossipConfig,
    pub heartbeat: u128,
    pub ping_pong: u128,
}

impl GossipService {
    /// Whether the cache holds a message with this identifier.
    pub open spec fn cached(&self, id: Seq<u8>) -> bool {
        exists|i: int| 0 <= i < self.cache@.len() && (#[trigger] self.cache@[i]).key@ == id
    }

    pub open spec fn wf(&self) -> bool {
        &&& self.kad.wf()
        &&& self.config.wf()
    }

    pub fn new(
        address: NetAddr,
        kad: Kademlia,
        config: GossipConfig,
        heartbeat: u128,
        ping_pong: u128,
    ) -> (r: GossipService)
        ensures
            r.address == address,
            r.kad == kad,
            r.config == config,
            r.heartbeat == heartbeat,
            r.ping_pong == ping_pong,
            r.cache@.len() == 0,
    {
        GossipService { address, kad, cache: Vec::new(), config, heartbeat, ping_pong }
    }

    /// Advance the heartbeat clock: true, with the clock reset, exactly
    /// when more than one interval has passed since the last beat.
    pub fn heartbeat(&mut self, now: u128) -> (r: bool)
        ensures
            r == (now > old(self).heartbeat && now - old(self).heartbeat > old(
                self,
            ).config.interval),
            r ==> *final (self) == (GossipService { heartbeat: now, ..*old(self) }),
            !r ==> *final (self) == *old(self),
    {
        if now > self.heartbeat && now - self.heartbeat > self.config.interval {
            self.heartbeat = now;
            true
        } else {
            false
        }
    }

    /// On a heartbeat, walk the cache: re-publish every message younger
    /// than the re-broadcast window, using the original sender recorded in
    /// the gossip payload, and evict every message older than the retention
    /// window. Every entry kept is at most `history_len` intervals old.
    pub fn gossip(&mut self, now: u128) -> (r: Vec<(NetAddr, Message)>)
        requires
            old(self).wf(),
            old(self).kad.routing_table.all_peers_spec().len() <= usize::MAX,
        ensures
            final (self).wf(),
            final (self).address == old(self).address,
            final (self).kad == old(self).kad,
            (now > old(self).heartbeat && now - old(self).heartbeat > old(self).config.interval)
                ==> {
                let keep_window = old(self).config.interval * old(
                    self,
                ).config.history_len as u128;
                let gossip_window = old(self).config.interval * old(
                    self,
                ).config.history_gossip as u128;
                &&& (forall|i: int|
                    0 <= i < final (self).cache@.len() ==> now <= (#[trigger] final (
                    self).cache@[i]).inserted + keep_window)
                &&& (forall|k: int|
                    0 <= k < final (self).cache@.len() ==> #[trigger] cache_entry_from(
                        old(self).cache@,
                        final (self).cache@,
                        k,
                        now,
                        keep_window,
                    ))
                &&& (forall|i: int|
                    0 <= i < old(self).cache@.len() && cache_entry_fresh(
                        (#[trigger] old(self).cache@[i]).inserted,
                        now,
                        keep_window,
                    ) ==> cache_entry_carried(old(self).cache@, final (self).cache@, i))
                &&& (forall|k: int|
                    0 <= k < r@.len() ==> #[trigger] gossip_send_ok(
                        old(self).cache@,
                        r@,
                        k,
                        now,
                        gossip_window,
                        old(self).address,
                        fanout_wide(old(self).kad.routing_table),
                    ))
                &&& (forall|k: int|
                    0 <= k < r@.len() ==> table_has_address(
                        old(self).kad.routing_table,
                        (#[trigger] r@[k]).0,
                    ))
                &&& (exists|parts: Seq<Seq<(NetAddr, Message)>>|
                    {
                        &&& parts.len() == old(self).cache@.len()
                        &&& gsend_views(r@) == #[trigger] gsends_concat(parts)
                        &&& (forall|x: int|
                            0 <= x < old(self).cache@.len() ==> gossip_part_ok(
                                old(self).cache@,
                                parts,
                                x,
                                now,
                                gossip_window,
                                old(self).kad.routing_table,
                                old(self).config,
                                old(self).address,
                            ))
                    })
            },
            !(now > old(self).heartbeat && now - old(self).heartbeat > old(self).config.interval)
                ==> (*final (self) == *old(self) && r@.len() == 0),
    {
        let fired = self.heartbeat(now);
        if !fired {
            return Vec::new();
        }
        let mut out: Vec<(NetAddr, Message)> = Vec::new();
        let mut kept: Vec<CacheEntry> = Vec::new();
        let gossip_window = self.config.interval * (self.config.history_gossip as u128);
        let keep_window = self.config.interval * (self.config.history_len as u128);
        let ghost old_cache = self.cache@;
        let ghost mut parts: Seq<Seq<(NetAddr, Message)>> = Seq::empty();
        proof {
            reveal_with_fuel(gsends_concat, 1);
            assert(gsend_views(out@) =~= gsends_concat(parts));
        }
        let mut i: usize = 0;
        while i < self.cache.len()
            invariant
                old(self).wf(),
                old(self).kad.routing_table.all_peers_spec().len() <= usize::MAX,
                self.wf(),
                self.address == old(self).address,
                self.kad == old(self).kad,
                self.cache@ == old_cache,
                old_cache == old(self).cache@,
                i <= self.cache@.len(),
                keep_window == old(self).config.interval * old(
                    self,
                ).config.history_len as u128,
                gossip_window == old(self).config.interval * old(
                    self,
                ).config.history_gossip as u128,
                forall|k: int|
                    0 <= k < kept@.len() ==> now <= (#[trigger] kept@[k]).inserted + keep_window,
                forall|k: int|
                    0 <= k < kept@.len() ==> #[trigger] cache_entry_from(
                        old_cache,
                        kept@,
                        k,
                        now,
                        keep_window as int,
                    ),
                forall|x: int|
                    0 <= x < i && cache_entry_fresh(
                        (#[trigger] old_cache[x]).inserted,
                        now,
                        keep_window as int,
                    ) ==> cache_entry_carried(old_cache, kept@, x),
                forall|k: int|
                    0 <= k < out@.len() ==> #[trigger] gossip_send_ok(
                        old_cache,
                        out@,
                        k,
                        now,
                        gossip_window as int,
                        old(self).address,
                        fanout_wide(old(self).kad.routing_table),
                    ),
                forall|k: int|
                    0 <= k < out@.len() ==> table_has_address(
                        old(self).kad.routing_table,
                        (#[trigger] out@[k]).0,
                    ),
                self.config == old(self).config,
                parts.len() == i,
                gsend_views(out@) == gsends_concat(parts),
                forall|x: int|
                    0 <= x < i ==> #[trigger] gossip_part_ok(
                        old_cache,
                        parts,
                        x,
                        now,
                        gossip_window as int,
                        old(self).kad.routing_table,
                        old(self).config,
                        old(self).address,
                    ),
            decreases self.cache@.len() - i,
        {
            let entry_inserted = self.cache[i].inserted;
            let age_ok_gossip = now >= entry_inserted && now - entry_inserted < gossip_window;
            let age_ok_keep = !(now > entry_inserted && now - entry_inserted > keep_window);
            if age_ok_gossip {
                let parsed = GossipMessage::from_bytes(self.cache[i].message.msg.as_slice());
                match parsed {
                    Some(gm) => {
                        let src = gm.sender;
                        let message = self.cache[i].message.clone();
                        proof {
                            assert(self.kad == old(self).kad);
                            assert(self.kad.routing_table == old(self).kad.routing_table);
                            assert(self.kad.routing_table.all_peers_spec() == old(
                                self,
                            ).kad.routing_table.all_peers_spec());
                            assert(self.kad.routing_table.all_peers_spec().len() <= usize::MAX);
                            assert(self.wf());
                            assert(message@ == old_cache[i as int].message@);
                        }
                        let ghost old_out = out@;
                        let mut sends = self.publish(&src, message);
                        let ghost sblock = sends@;
                        append_sends(&mut out, &mut sends);
                        proof {
                            let ghost no_back = fanout_wide(old(self).kad.routing_table);
                            assert forall|k: int|
                                0 <= k < out@.len() implies #[trigger] gossip_send_ok(
                                old_cache,
                                out@,
                                k,
                                now,
                                gossip_window as int,
                                old(self).address,
                                no_back,
                            ) by {
                                if k < old_out.len() {
                                    assert(out@[k] == old_out[k]);
                                    assert(gossip_send_ok(
                                        old_cache,
                                        old_out,
                                        k,
                                        now,
                                        gossip_window as int,
                                        old(self).address,
                                        no_back,
                                    ));
                                    let iw = choose|iw: int|
                                        {
                                            &&& 0 <= iw < old_cache.len()
                                            &&& now >= (#[trigger] old_cache[iw]).inserted
                                            &&& now - old_cache[iw].inserted < gossip_window
                                            &&& (old_out[k].1)@ == old_cache[iw].message@
                                            &&& old_out[k].0 != old(self).address
                                            &&& (no_back ==> (dec_gossip(
                                                old_cache[iw].message@.msg,
                                            ) matches Some(g) && old_out[k].0 != g.sender))
                                        };
                                    assert(now >= old_cache[iw].inserted);
                                } else {
                                    assert((out@[k].1)@ == message@);
                                    assert(out@[k].0 != old(self).address);
                                    assert(now >= old_cache[i as int].inserted && now
                                        - old_cache[i as int].inserted < gossip_window);
                                    assert(dec_gossip(old_cache[i as int].message@.msg)
                                        == Some(gm@));
                                    if no_back {
                                        assert(out@[k].0 != src);
                                        assert(gm@.sender == src);
                                    }
                                }
                            }
                            let prev = parts;
                            parts = parts.push(sblock);
                            reveal_with_fuel(gsends_concat, 1);
                            assert(parts.drop_last() =~= prev);
                            assert(parts.last() == sblock);
                            assert(gsends_concat(parts) =~= gsends_concat(prev) + gsend_views(
                                sblock,
                            ));
                            assert(gsend_views(out@) =~= gsend_views(old_out) + gsend_views(
                                sblock,
                            ));
                            assert(dec_gossip(old_cache[i as int].message@.msg) == Some(gm@));
                            assert(gm@.sender == src);
                            assert(publish_outcome(
                                old(self).kad.routing_table,
                                old(self).config,
                                old(self).address,
                                src,
                                old_cache[i as int].message@,
                                sblock,
                            ));
                            assert(gossip_part_ok(
                                old_cache,
                                parts,
                                i as int,
                                now,
                                gossip_window as int,
                                old(self).kad.routing_table,
                                old(self).config,
                                old(self).address,
                            ));
                            assert forall|x: int|
                                0 <= x < i + 1 implies #[trigger] gossip_part_ok(
                                old_cache,
                                parts,
                                x,
                                now,
                                gossip_window as int,
                                old(self).kad.routing_table,
                                old(self).config,
                                old(self).address,
                            ) by {
                                if x < i {
                                    assert(parts[x] == prev[x]);
                                    assert(gossip_part_ok(
                                        old_cache,
                                        prev,
                                        x,
                                        now,
                                        gossip_window as int,
                                        old(self).kad.routing_table,
                                        old(self).config,
                                        old(self).address,
                                    ));
                                }
                            }
                        }
                    },
                    None => {
                        proof {
                            let prev = parts;
                            parts = parts.push(Seq::empty());
                            reveal_with_fuel(gsends_concat, 1);
                            assert(parts.drop_last() =~= prev);
                            assert(gsend_views(parts.last()) =~= Seq::<(
                                NetAddr,
                                MessageV,
                            )>::empty());
                            assert(gsends_concat(parts) =~= gsends_concat(prev));
                            assert(dec_gossip(old_cache[i as int].message@.msg) is None);
                            assert(parts[i as int] == Seq::<(NetAddr, Message)>::empty());
                            assert forall|x: int|
                                0 <= x < i + 1 implies #[trigger] gossip_part_ok(
                                old_cache,
                                parts,
                                x,
                                now,
                                gossip_window as int,
                                old(self).kad.routing_table,
                                old(self).config,
                                old(self).address,
                            ) by {
                                if x < i {
                                    assert(parts[x] == prev[x]);
                                    assert(gossip_part_ok(
                                        old_cache,
                                        prev,
                                        x,
                                        now,
                                        gossip_window as int,
                                        old(self).kad.routing_table,
                                        old(self).config,
                                        old(self).address,
                                    ));
                                }
                            }
                        }
                    },
                }
            } else {
                proof {
                    let prev = parts;
                    parts = parts.push(Seq::empty());
                    reveal_with_fuel(gsends_concat, 1);
                    assert(parts.drop_last() =~= prev);
                    assert(gsend_views(parts.last()) =~= Seq::<(NetAddr, MessageV)>::empty());
                    assert(gsends_concat(parts) =~= gsends_concat(prev));
                    assert(!(now >= old_cache[i as int].inserted && now - old_cache[
                        i as int
                    ].inserted < gossip_window));
                    assert(parts[i as int] == Seq::<(NetAddr, Message)>::empty());
                    assert forall|x: int|
                        0 <= x < i + 1 implies #[trigger] gossip_part_ok(
                        old_cache,
                        parts,
                        x,
                        now,
                        gossip_window as int,
                        old(self).kad.routing_table,
                        old(self).config,
                        old(self).address,
                    ) by {
                        if x < i {
                            assert(parts[x] == prev[x]);
                            assert(gossip_part_ok(
                                old_cache,
                                prev,
                                x,
                                now,
                                gossip_window as int,
                                old(self).kad.routing_table,
                                old(self).config,
                                old(self).address,
                            ));
                        }
                    }
                }
            }
            if age_ok_keep {
                let e = CacheEntry {
                    key: self.cache[i].key,
                    message: self.cache[i].message.clone(),
                    inserted: self.cache[i].inserted,
                };
                let ghost old_kept = kept@;
                kept.push(e);
                proof {
                    assert(cache_entry_matches(kept@[kept@.len() - 1], old_cache[i as int]));
                    assert(cache_entry_fresh(old_cache[i as int].inserted, now, keep_window as int));
                    assert forall|x: int|
                        0 <= x < i + 1 && cache_entry_fresh(
                            (#[trigger] old_cache[x]).inserted,
                            now,
                            keep_window as int,
                        ) implies cache_entry_carried(old_cache, kept@, x) by {
                        if x < i {
                            let kw = choose|kw: int|
                                0 <= kw < old_kept.len() && cache_entry_matches(
                                    #[trigger] old_kept[kw],
                                    old_cache[x],
                                );
                            assert(cache_entry_matches(kept@[kw], old_cache[x]));
                        } else {
                            assert(cache_entry_matches(kept@[kept@.len() - 1], old_cache[x]));
                        }
                    }
                    assert forall|k: int|
                        0 <= k < kept@.len() implies #[trigger] cache_entry_from(
                        old_cache,
                        kept@,
                        k,
                        now,
                        keep_window as int,
                    ) by {
                        if k < old_kept.len() {
                            assert(kept@[k] == old_kept[k]);
                            assert(cache_entry_from(
                                old_cache,
                                old_kept,
                                k,
                                now,
                                keep_window as int,
                            ));
                            let iw = choose|iw: int|
                                {
                                    &&& 0 <= iw < old_cache.len()
                                    &&& cache_entry_matches(old_kept[k], #[trigger] old_cache[iw])
                                    &&& cache_entry_fresh(
                                        old_cache[iw].inserted,
                                        now,
                                        keep_window as int,
                                    )
                                };
                            assert(cache_entry_matches(kept@[k], old_cache[iw]));
                        } else {
                            assert(cache_entry_matches(kept@[k], old_cache[i as int]));
                        }
                    }
                }
            } else {
                proof {
                    assert(!cache_entry_fresh(old_cache[i as int].inserted, now, keep_window as int));
                }
            }
            i += 1;
        }
        self.cache = kept;
        out
    }

    /// Choose the recipients for one message and address it to them: of up
    /// to thirty peers closest to the local peer, when more than seven are
    /// known, a random selection of `floor(count * factor)` distinct
    /// addresses, never the original sender's and never the local one; when
    /// seven or fewer are known, all of them but the local address.
    pub fn publish(&mut self, src: &NetAddr, message: Message) -> (r: Vec<(NetAddr, Message)>)
        requires
            old(self).wf(),
            old(self).kad.routing_table.all_peers_spec().len() <= usize::MAX,
        ensures
            final (self).wf(),
            *final (self) == *old(self),
            forall|k: int|
                0 <= k < r@.len() ==> ((#[trigger] r@[k]).1)@ == message@ && r@[k].0
                    != old(self).address,
            forall|k: int, l: int| 0 <= k < l < r@.len() ==> (#[trigger] r@[k]).0 != (#[trigger] r@[l]).0,
            r@.len() <= close_count(old(self).kad.routing_table),
            close_count(old(self).kad.routing_table) > 7 ==> r@.len() * old(
                self,
            ).config.factor_den as int <= close_count(old(self).kad.routing_table) * old(
                self,
            ).config.factor_num as int,
            forall|k: int|
                0 <= k < r@.len() ==> table_has_address(
                    old(self).kad.routing_table,
                    (#[trigger] r@[k]).0,
                ),
            close_count(old(self).kad.routing_table) > 7 ==> forall|k: int|
                0 <= k < r@.len() ==> (#[trigger] r@[k]).0 != *src,
            publish_outcome(
                old(self).kad.routing_table,
                old(self).config,
                old(self).address,
                *src,
                message@,
                r@,
            ),
    {
        let local = self.kad.routing_table.local_info.clone();
        let peers = self.kad.routing_table.get_closest_peers(local, 30);
        proof {
            assert(peers@.len() <= 30);
        }
        proof {
            assert(peers@.len() == close_count(old(self).kad.routing_table));
        }
        let over_threshold = peers.len() > 7;
        let mut eligible: Vec<NetAddr> = Vec::new();
        let mut i: usize = 0;
        while i < peers.len()
            invariant
                old(self).wf(),
                i <= peers@.len(),
                peers@.len() <= 30,
                eligible@.len() <= i,
                *self == *old(self),
                forall|k: int|
                    0 <= k < eligible@.len() ==> (#[trigger] eligible@[k]) != old(self).address
                        && (over_threshold ==> eligible@[k] != *src),
                forall|k: int, l: int|
                    0 <= k < l < eligible@.len() ==> (#[trigger] eligible@[k]) != (
                    #[trigger] eligible@[l]),
                forall|k: int|
                    0 <= k < eligible@.len() ==> table_has_address(
                        old(self).kad.routing_table,
                        #[trigger] eligible@[k],
                    ),
                forall|k: int|
                    0 <= k < eligible@.len() ==> addr_of_one(peers@, #[trigger] eligible@[k]),
                forall|w: int|
                    0 <= w < i && (#[trigger] peers@[w])@.address != old(self).address && (
                    over_threshold ==> peers@[w]@.address != *src) ==> eligible@.contains(
                        peers@[w]@.address,
                    ),
                forall|x: int|
                    0 <= x < peers@.len() ==> old(self).kad.routing_table.all_peers_spec().contains(
                        #[trigger] peers@[x],
                    ),
                self.address == old(self).address,
            decreases peers@.len() - i,
        {
            let address = peers[i].get_address();
            let excluded = if over_threshold {
                address == *src || address == self.address
            } else {
                address == self.address
            };
            if !excluded && !addr_in(&eligible, address) {
                proof {
                    let t = old(self).kad.routing_table;
                    assert(t.all_peers_spec().contains(peers@[i as int]));
                    let w = choose|w: int|
                        0 <= w < t.all_peers_spec().len() && t.all_peers_spec()[w] == peers@[
                            i as int
                        ];
                    assert((t.all_peers_spec()[w])@.address == address);
                    assert(table_has_address(t, address));
                    assert(peers@[i as int]@.address == address);
                    assert(addr_of_one(peers@, address));
                }
                let ghost old_elig = eligible@;
                eligible.push(address);
                proof {
                    assert forall|w: int|
                        0 <= w < i + 1 && (#[trigger] peers@[w])@.address != old(self).address && (
                        over_threshold ==> peers@[w]@.address != *src) implies eligible@.contains(
                        peers@[w]@.address,
                    ) by {
                        if w == i {
                            assert(eligible@[eligible@.len() - 1] == address);
                        } else {
                            let a = peers@[w]@.address;
                            assert(old_elig.contains(a));
                            let ki = choose|ki: int|
                                0 <= ki < old_elig.len() && old_elig[ki] == a;
                            assert(eligible@[ki] == a);
                        }
                    }
                }
            }
            i += 1;
        }
        let chosen_len = if over_threshold {
            let pl = peers.len();
            let fnum = self.config.factor_num;
            proof {
                assert(fnum <= 65535);
                assert(pl * fnum <= 30 * 65535) by (nonlinear_arith)
                    requires
                        pl <= 30,
                        fnum <= 65535,
                ;
            }
            let n_peers = pl * fnum / self.config.factor_den;
            if n_peers <= eligible.len() {
                n_peers
            } else {
                eligible.len()
            }
        } else {
            eligible.len()
        };
        proof {
            if over_threshold {
                let pl_i = peers@.len() as int;
                let fn_i = self.config.factor_num as int;
                let fd_i = self.config.factor_den as int;
                let np = pl_i * fn_i / fd_i;
                vstd::arithmetic::div_mod::lemma_fundamental_div_mod(pl_i * fn_i, fd_i);
                vstd::arithmetic::div_mod::lemma_mod_division_less_than_divisor(
                    pl_i * fn_i,
                    fd_i,
                );
                assert(fd_i * np <= pl_i * fn_i);
                assert(fd_i * np == np * fd_i) by (nonlinear_arith);
                assert(chosen_len as int <= np);
                vstd::arithmetic::mul::lemma_mul_inequality(chosen_len as int, np, fd_i);
                assert(chosen_len as int * fd_i <= pl_i * fn_i);
                assert(chosen_len as int == vstd::math::min(np, eligible@.len() as int));
            } else {
                assert(chosen_len == eligible@.len());
            }
        }
        let ghost elig_len = eligible@.len();
        let mut k: usize = 0;
        while k < chosen_len
            invariant
                old(self).wf(),
                *self == *old(self),
                chosen_len <= eligible@.len(),
                k <= chosen_len,
                forall|x: int|
                    0 <= x < eligible@.len() ==> (#[trigger] eligible@[x]) != old(self).address,
                forall|x: int, y: int|
                    0 <= x < y < eligible@.len() ==> (#[trigger] eligible@[x]) != (
                    #[trigger] eligible@[y]),
                over_threshold ==> forall|x: int|
                    0 <= x < eligible@.len() ==> (#[trigger] eligible@[x]) != *src,
                over_threshold == (peers@.len() > 7),
                peers@.len() == close_count(old(self).kad.routing_table),
                eligible@.len() == elig_len,
                forall|x: int|
                    0 <= x < eligible@.len() ==> table_has_address(
                        old(self).kad.routing_table,
                        #[trigger] eligible@[x],
                    ),
                forall|x: int|
                    0 <= x < eligible@.len() ==> addr_of_one(peers@, #[trigger] eligible@[x]),
                forall|w: int|
                    0 <= w < peers@.len() && (#[trigger] peers@[w])@.address != old(self).address
                        && (over_threshold ==> peers@[w]@.address != *src)
                        ==> eligible@.contains(peers@[w]@.address),
            decreases chosen_len - k,
        {
            let j = k + rand_below(eligible.len() - k);
            let va = eligible[k];
            let vb = eligible[j];
            let ghost old_elig = eligible@;
            eligible[k] = vb;
            eligible[j] = va;
            proof {
                assert forall|x: int, y: int|
                    0 <= x < y < eligible@.len() implies (#[trigger] eligible@[x]) != (
                #[trigger] eligible@[y]) by {}
                assert forall|w: int|
                    0 <= w < peers@.len() && (#[trigger] peers@[w])@.address != old(self).address
                        && (over_threshold ==> peers@[w]@.address != *src)
                        implies eligible@.contains(peers@[w]@.address) by {
                    let a = peers@[w]@.address;
                    assert(old_elig.contains(a));
                    let ki = choose|ki: int| 0 <= ki < old_elig.len() && old_elig[ki] == a;
                    if ki == k as int {
                        assert(eligible@[j as int] == a);
                    } else if ki == j as int {
                        assert(eligible@[k as int] == a);
                    } else {
                        assert(eligible@[ki] == a);
                    }
                }
            }
            k += 1;
        }
        let mut out: Vec<(NetAddr, Message)> = Vec::new();
        let mut t: usize = 0;
        while t < chosen_len
            invariant
                old(self).wf(),
                *self == *old(self),
                chosen_len <= eligible@.len(),
                t <= chosen_len,
                out@.len() == t,
                forall|x: int|
                    0 <= x < eligible@.len() ==> (#[trigger] eligible@[x]) != old(self).address,
                forall|x: int, y: int|
                    0 <= x < y < eligible@.len() ==> (#[trigger] eligible@[x]) != (
                    #[trigger] eligible@[y]),
                forall|x: int|
                    0 <= x < eligible@.len() ==> table_has_address(
                        old(self).kad.routing_table,
                        #[trigger] eligible@[x],
                    ),
                forall|x: int|
                    0 <= x < eligible@.len() ==> addr_of_one(peers@, #[trigger] eligible@[x]),
                over_threshold ==> forall|x: int|
                    0 <= x < eligible@.len() ==> (#[trigger] eligible@[x]) != *src,
                over_threshold == (peers@.len() > 7),
                peers@.len() == close_count(old(self).kad.routing_table),
                forall|x: int|
                    0 <= x < t ==> (#[trigger] out@[x]).0 == eligible@[x] && (out@[x].1)@
                        == message@,
            decreases chosen_len - t,
        {
            out.push((eligible[t], message.clone()));
            t += 1;
        }
        proof {
            assert forall|x: int, y: int| 0 <= x < y < out@.len() implies (#[trigger] out@[x]).0
                != (#[trigger] out@[y]).0 by {
                assert(out@[x].0 == eligible@[x] && out@[y].0 == eligible@[y]);
            }
            assert forall|k: int| 0 <= k < out@.len() implies addr_of_one(
                peers@,
                (#[trigger] out@[k]).0,
            ) by {
                assert(out@[k].0 == eligible@[k]);
            }
            if close_count(old(self).kad.routing_table) > 7 {
                assert(over_threshold);
                assert forall|k: int| 0 <= k < out@.len() implies (#[trigger] out@[k]).0
                    != *src by {
                    assert(out@[k].0 == eligible@[k]);
                }
            }
            assert(peers@.len() == close_count(old(self).kad.routing_table));
            if old(self).kad.routing_table.all_peers_spec().len() >= 30 {
                assert(crate::routing::sorted_by_dist(
                    peers@,
                    old(self).kad.routing_table.local_info@.key,
                ));
            }
            let t0 = old(self).kad.routing_table;
            let cfg0 = old(self).config;
            let es = eligible@;
            assert forall|k: int| 0 <= k < out@.len() implies es.contains(
                (#[trigger] out@[k]).0,
            ) by {
                assert(out@[k].0 == eligible@[k]);
            }
            if !fanout_wide(t0) {
                assert(!over_threshold);
                assert(out@.len() == es.len());
                assert forall|e: int| 0 <= e < es.len() implies sent_to(
                    out@,
                    #[trigger] es[e],
                ) by {
                    assert(out@[e].0 == eligible@[e]);
                }
            } else {
                assert(over_threshold);
                assert(out@.len() == vstd::math::min(
                    close_count(t0) * cfg0.factor_num as int / cfg0.factor_den as int,
                    es.len() as int,
                ));
            }
            assert(publish_outcome_with(
                t0,
                cfg0,
                old(self).address,
                *src,
                message@,
                out@,
                peers@,
                es,
            ));
            assert(publish_outcome(t0, cfg0, old(self).address, *src, message@, out@));
        }
        out
    }

    /// Take one gossip message in: a message whose identifier is already
    /// cached changes nothing and is neither delivered nor forwarded; a new
    /// one is delivered to the application unless it came from the local
    /// address, forwarded to the fan-out set, and cached at the given time.
    pub fn handle_message(&mut self, src: &NetAddr, msg: &Message, now: u128) -> (r: (
        Option<GossipMessage>,
        Vec<(NetAddr, Message)>,
    ))
        requires
            old(self).wf(),
            old(self).kad.routing_table.all_peers_spec().len() <= usize::MAX,
        ensures
            final (self).wf(),
            final (self).address == old(self).address,
            dec_gossip(msg@.msg) is None ==> (*final (self) == *old(self) && r.0 is None
                && r.1@.len() == 0),
            dec_gossip(msg@.msg) matches Some(gm) ==> (if old(self).cached(gm.id) {
                *final (self) == *old(self) && r.0 is None && r.1@.len() == 0
            } else {
                &&& final (self).cached(gm.id)
                &&& (r.0 is Some <==> *src != old(self).address)
                &&& (r.0 matches Some(d) ==> d@ == gm)
                &&& (forall|k: int|
                    0 <= k < r.1@.len() ==> ((#[trigger] r.1@[k]).1)@ == msg@ && r.1@[k].0 != old(
                        self,
                    ).address)
                &&& (fanout_wide(old(self).kad.routing_table) ==> forall|k: int|
                    0 <= k < r.1@.len() ==> (#[trigger] r.1@[k]).0 != *src)
                &&& publish_outcome(
                    old(self).kad.routing_table,
                    old(self).config,
                    old(self).address,
                    *src,
                    msg@,
                    r.1@,
                )
                &&& final (self).cache@.len() == old(self).cache@.len() + 1
                &&& (forall|i: int|
                    0 <= i < old(self).cache@.len() ==> final (self).cache@[i] == old(
                        self,
                    ).cache@[i])
                &&& final (self).cache@.last().key@ == gm.id
                &&& (final (self).cache@.last().message)@ == msg@
                &&& final (self).cache@.last().inserted == now
            }),
    {
        let parsed = GossipMessage::from_bytes(msg.msg.as_slice());
        match parsed {
            None => (None, Vec::new()),
            Some(gm) => {
                let key = MessageKey::from_inner(gm.id);
                if self.contains_key(&key) {
                    (None, Vec::new())
                } else {
                    let deliver = if !(*src == self.address) {
                        Some(gm.clone())
                    } else {
                        None
                    };
                    let sends = self.publish(src, msg.clone());
                    let ghost pre_cache = self.cache@;
                    self.cache.push(
                        CacheEntry { key, message: msg.clone(), inserted: now },
                    );
                    proof {
                        assert(self.cache@[self.cache@.len() - 1].key@ == gm.id@);
                    }
                    (deliver, sends)
                }
            },
        }
    }

    /// Whether the cache holds this key.
    fn contains_key(&self, key: &MessageKey) -> (r: bool)
        ensures
            r == self.cached(key@),
    {
        let mut i: usize = 0;
        while i < self.cache.len()
            invariant
                i <= self.cache@.len(),
                forall|j: int| 0 <= j < i ==> (#[trigger] self.cache@[j]).key@ != key@,
            decreases self.cache@.len() - i,
        {
            if self.cache[i].key.eq(key) {
                proof {
                    assert(self.cache@[i as int].key@ == key@);
                }
                return true;
            }
            i += 1;
        }
        false
    }
}

/// Whether the list holds the address.
fn addr_in(v: &Vec<NetAddr>, a: NetAddr) -> (r: bool)
    ensures
        r == v@.contains(a),
{
    let mut i: usize = 0;
    while i < v.len()
        invariant
            i <= v@.len(),
            forall|j: int| 0 <= j < i ==> v@[j] != a,
        decreases v@.len() - i,
    {
        if v[i] == a {
            return true;
        }
        i += 1;
    }
    false
}

/// Append the sends of `src` to `dst`, draining `src`.
fn append_sends(dst: &mut Vec<(NetAddr, Message)>, src: &mut Vec<(NetAddr, Message)>)
    ensures
        final (dst)@.len() == old(dst)@.len() + old(src)@.len(),
        forall|k: int| 0 <= k < old(dst)@.len() ==> final (dst)@[k] == old(dst)@[k],
        forall|k: int|
            old(dst)@.len() <= k < final (dst)@.len() ==> (#[trigger] final (dst)@[k]).0 == old(
                src,
            )@[k - old(dst)@.len()].0 && (final (dst)@[k].1)@ == (old(src)@[k - old(
                dst,
            )@.len()].1)@,
{
    let n = src.len();
    let mut i: usize = 0;
    while i < n
        invariant
            i <= n,
            n == src@.len(),
            src@ == old(src)@,
            dst@.len() == old(dst)@.len() + i,
            forall|k: int| 0 <= k < old(dst)@.len() ==> dst@[k] == old(dst)@[k],
            forall|k: int|
                old(dst)@.len() <= k < dst@.len() ==> (#[trigger] dst@[k]).0 == old(src)@[k - old(
                    dst,
                )@.len()].0 && (dst@[k].1)@ == (old(src)@[k - old(dst)@.len()].1)@,
        decreases n - i,
    {
        let pair = (src[i].0, src[i].1.clone());
        proof {
            assert((pair.1)@ == (src@[i as int].1)@);
        }
        dst.push(pair);
        i += 1;
    }
}

} // verus!
