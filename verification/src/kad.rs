use vstd::prelude::*;
use crate::addr::NetAddr;
use crate::kadproto::{RPC, RPCV, Req, ReqV, Resp, RespV, enc_req, enc_resp, enc_rpc, dec_req, dec_resp, dec_rpc, blobs_view};
use crate::peer::{PeerInfo, PeerInfoV, enc_peer_info, dec_peer_info, wf_peer_info, lemma_peer_info_roundtrip};
use crate::protocol::{Header, KadMessage, KadMessageV, Message, MessageV, MessageKey, enc_kad};
use crate::routing::RoutingTable;
use vstd::utf8::is_ascii_chars;

verus! {

/// How many peers a node lookup answers with.
pub const DEFAULT_N_PEERS: usize = 8;

/// How long a request may stay pending, in nanoseconds.
pub const REQ_TIMEOUT: u128 = 60_000_000_000;

/// The most node lookups in flight at once.
pub const MAX_ACTIVE_RPCS: usize = 3;

/// The longest lookup-protocol message.
pub const KAD_MESSAGE_LEN: usize = 55000;

/// The wire message carrying a request envelope.
pub open spec fn request_msg(rv: ReqV) -> MessageV {
    MessageV { head: Header::Request, msg: enc_kad(KadMessageV::Request(enc_req(rv))) }
}

/// The wire message carrying a response envelope.
pub open spec fn response_msg(rv: RespV) -> MessageV {
    MessageV { head: Header::Response, msg: enc_kad(KadMessageV::Response(enc_resp(rv))) }
}

/// A FIND_NODE request for `target`, sent by `local` under message id `id`.
pub open spec fn find_node_msg(local: PeerInfoV, id: Seq<u8>, target: PeerInfoV) -> MessageV {
    request_msg(
        ReqV {
            id: id,
            sender: enc_peer_info(local),
            payload: enc_rpc(RPCV::FindNode(enc_peer_info(target))),
        },
    )
}

/// A NEW_PEER announcement of `peer`, sent by `local` under message id `id`.
pub open spec fn new_peer_msg(local: PeerInfoV, id: Seq<u8>, peer: PeerInfoV) -> MessageV {
    request_msg(
        ReqV {
            id: id,
            sender: enc_peer_info(local),
            payload: enc_rpc(RPCV::NewPeer(enc_peer_info(peer))),
        },
    )
}

/// A PING request sent by `local` under message id `id`.
pub open spec fn ping_msg(local: PeerInfoV, id: Seq<u8>) -> MessageV {
    request_msg(ReqV { id: id, sender: enc_peer_info(local), payload: enc_rpc(RPCV::Ping) })
}

/// The PONG response to `req`, addressed to `peer`, carrying `local`.
pub open spec fn pong_msg(local: PeerInfoV, peer: PeerInfoV, req: ReqV) -> MessageV {
    response_msg(
        RespV {
            request: enc_req(req),
            receiver: enc_peer_info(peer),
            payload: enc_rpc(RPCV::Pong(enc_peer_info(local))),
        },
    )
}

/// The NODES response to `req`, answered by `local`, listing `nodes`.
pub open spec fn nodes_msg(local: PeerInfoV, req: ReqV, nodes: Seq<Seq<u8>>) -> MessageV {
    response_msg(
        RespV {
            request: enc_req(req),
            receiver: enc_peer_info(local),
            payload: enc_rpc(RPCV::Nodes(nodes)),
        },
    )
}

/// The wire renderings of the peers, in order.
pub open spec fn peers_encoded(peers: Seq<PeerInfo>) -> Seq<Seq<u8>> {
    Seq::new(peers.len(), |i: int| enc_peer_info(peers[i]@))
}

/// Every identity the first table holds, the second holds too.
pub open spec fn ids_kept(t0: RoutingTable, t1: RoutingTable) -> bool {
    forall|id: Seq<char>| #[trigger] t0.has_id(id) ==> t1.has_id(id)
}

/// Whether send `k` is a FIND_NODE for the local peer, addressed to one of
/// the listed peers.
pub open spec fn nodes_send_ok(
    ns: Seq<Seq<u8>>,
    out: Seq<(NetAddr, Message)>,
    k: int,
    local: PeerInfoV,
) -> bool {
    exists|j: int, id: Seq<u8>|
        #![trigger ns[j], find_node_msg(local, id, local)]
        {
            &&& 0 <= j < ns.len()
            &&& dec_peer_info(ns[j]) is Some
            &&& out[k].0 == dec_peer_info(ns[j]).unwrap().address
            &&& (out[k].1)@ == find_node_msg(local, id, local)
        }
}

/// Whether some send is a FIND_NODE for the local peer, addressed to a
/// listed peer carrying identity `pid`.
pub open spec fn nodes_send_for(
    ns: Seq<Seq<u8>>,
    out: Seq<(NetAddr, Message)>,
    pid: Seq<char>,
    local: PeerInfoV,
) -> bool {
    exists|k: int, j: int, id: Seq<u8>|
        #![trigger out[k], ns[j], find_node_msg(local, id, local)]
        {
            &&& 0 <= k < out.len()
            &&& 0 <= j < ns.len()
            &&& dec_peer_info(ns[j]) is Some
            &&& dec_peer_info(ns[j]).unwrap().id == pid
            &&& out[k].0 == dec_peer_info(ns[j]).unwrap().address
            &&& (out[k].1)@ == find_node_msg(local, id, local)
        }
}

/// The peers whose identities the wire can carry, in order.
pub open spec fn wf_filter(cs: Seq<PeerInfo>) -> Seq<PeerInfo> {
    cs.filter(|p: PeerInfo| wf_peer_info(p@))
}

/// A FIND_NODE answer drawn from a closest-peer set `cs`: the first send is
/// the NODES response to the requester listing the wire-carriable members
/// of `cs`, and each of those members is sent one NEW_PEER announcement of
/// the requester, all under one announcement id.
pub open spec fn closest_listing(
    t: RoutingTable,
    node: PeerInfoV,
    req: ReqV,
    out: Seq<(NetAddr, Message)>,
    cs: Seq<PeerInfo>,
) -> bool {
    let fs = wf_filter(cs);
    &&& cs.len() == (if t.all_peers_spec().len() < DEFAULT_N_PEERS {
        t.all_peers_spec().len() as int
    } else {
        DEFAULT_N_PEERS as int
    })
    &&& (forall|w: int| 0 <= w < cs.len() ==> t.all_peers_spec().contains(#[trigger] cs[w]))
    &&& crate::routing::distinct_ids(cs)
    &&& (t.all_peers_spec().len() >= DEFAULT_N_PEERS ==> crate::routing::sorted_by_dist(
        cs,
        node.key,
    ))
    &&& out.len() == 1 + fs.len()
    &&& out[0].0 == node.address
    &&& (out[0].1)@ == nodes_msg(t.local_info@, req, peers_encoded(fs))
    &&& (forall|k: int|
        1 <= k < out.len() ==> (exists|nid: Seq<u8>|
            ((#[trigger] out[k]).1)@ == new_peer_msg(t.local_info@, nid, node)) && out[k].0
            == fs[k - 1]@.address)
    &&& (forall|k: int, l: int|
        1 <= k < out.len() && 1 <= l < out.len() ==> ((#[trigger] out[k]).1)@ == ((
        #[trigger] out[l]).1)@)
}

/// The lookup service: the routing table, the keys of requests awaiting an
/// answer, and the ping cadence.
#[derive(Debug)]
pub struct Kademlia {
    pub routing_table: RoutingTable,
    pub pending: Vec<MessageKey>,
    pub interval: u128,
    pub ping_pong: u128,
}

impl Kademlia {
    /// The local peer and every peer it can place have identities the wire
    /// can carry.
    pub open spec fn wf(&self) -> bool {
        &&& self.routing_table.wf()
        &&& wf_peer_info(self.routing_table.local_info@)
    }

    pub fn new(
        routing_table: RoutingTable,
        pending: Vec<MessageKey>,
        interval: u128,
        ping_pong: u128,
    ) -> (r: Kademlia)
        ensures
            r.routing_table == routing_table,
            r.pending == pending,
            r.interval == interval,
            r.ping_pong == ping_pong,
    {
        Kademlia { routing_table, pending, interval, ping_pong }
    }

    /// Build a FIND_NODE request for `peer`: an echo of `req` when given,
    /// else a fresh request from the local peer under a random id. Returns
    /// the message key and the message.
    pub fn prepare_find_node_message(&self, peer: &PeerInfo, req: Option<Req>) -> (r: (
        MessageKey,
        Message,
    ))
        requires
            self.wf(),
            is_ascii_chars(peer@.id),
        ensures
            match req {
                Some(q) => r.0@ == q@.id && r.1@ == request_msg(q@),
                None => r.1@ == find_node_msg(self.routing_table.local_info@, r.0@, peer@),
            },
    {
        match req {
            Some(opt_req) => {
                let key = MessageKey::from_inner(opt_req.id);
                let msg = Message {
                    head: Header::Request,
                    msg: KadMessage::Request(opt_req.as_bytes()).as_bytes(),
                };
                (key, msg)
            },
            None => {
                let rpc = RPC::FindNode(peer.as_bytes());
                let key = MessageKey::rand();
                let req = Req {
                    id: key.inner(),
                    sender: self.routing_table.local_info.as_bytes(),
                    payload: rpc.as_bytes(),
                };
                let msg = Message {
                    head: Header::Request,
                    msg: KadMessage::Request(req.as_bytes()).as_bytes(),
                };
                (key, msg)
            },
        }
    }

    /// Build a NEW_PEER announcement of `peer` from the local peer under a
    /// fresh random id.
    pub fn prepare_new_peer_message(&self, peer: &PeerInfo) -> (r: (MessageKey, Message))
        requires
            self.wf(),
            is_ascii_chars(peer@.id),
        ensures
            r.1@ == new_peer_msg(self.routing_table.local_info@, r.0@, peer@),
    {
        let rpc = RPC::NewPeer(peer.as_bytes());
        let key = MessageKey::rand();
        let req = Req {
            id: key.inner(),
            sender: self.routing_table.local_info.as_bytes(),
            payload: rpc.as_bytes(),
        };
        let msg = Message {
            head: Header::Request,
            msg: KadMessage::Request(req.as_bytes()).as_bytes(),
        };
        (key, msg)
    }

    /// Build a PING request from the local peer under a fresh random id.
    pub fn prepare_ping_message(&self, peer: &PeerInfo) -> (r: (MessageKey, Message))
        requires
            self.wf(),
        ensures
            r.1@ == ping_msg(self.routing_table.local_info@, r.0@),
    {
        let _ = peer;
        let rpc = RPC::Ping;
        let key = MessageKey::rand();
        let req = Req {
            id: key.inner(),
            sender: self.routing_table.local_info.as_bytes(),
            payload: rpc.as_bytes(),
        };
        let msg = Message {
            head: Header::Request,
            msg: KadMessage::Request(req.as_bytes()).as_bytes(),
        };
        (key, msg)
    }

    /// Build the PONG response to `req`, addressed to `peer`.
    pub fn prepare_pong_response(&self, peer: &PeerInfo, req: Req) -> (r: Message)
        requires
            self.wf(),
            is_ascii_chars(peer@.id),
        ensures
            r@ == pong_msg(self.routing_table.local_info@, peer@, req@),
    {
        let rpc = RPC::Pong(self.routing_table.local_info.as_bytes());
        let resp = Resp { request: req.as_bytes(), receiver: peer.as_bytes(), payload: rpc.as_bytes() };
        Message { head: Header::Response, msg: KadMessage::Response(resp.as_bytes()).as_bytes() }
    }

    /// Build the NODES response to `req`, listing the wire renderings of
    /// `nodes`.
    pub fn prepare_nodes_response_message(&self, req: Req, node: PeerInfo, nodes: &Vec<
        PeerInfo,
    >) -> (r: Message)
        requires
            self.wf(),
            forall|i: int| 0 <= i < nodes@.len() ==> wf_peer_info((#[trigger] nodes@[i])@),
        ensures
            r@ == nodes_msg(self.routing_table.local_info@, req@, peers_encoded(nodes@)),
    {
        let _ = node;
        let mut nodes_vec: Vec<Vec<u8>> = Vec::new();
        let mut i: usize = 0;
        while i < nodes.len()
            invariant
                i <= nodes@.len(),
                nodes_vec@.len() == i,
                forall|j: int| 0 <= j < nodes@.len() ==> wf_peer_info((#[trigger] nodes@[j])@),
                forall|j: int| 0 <= j < i ==> (#[trigger] nodes_vec@[j])@ == enc_peer_info(
                    nodes@[j]@,
                ),
            decreases nodes@.len() - i,
        {
            nodes_vec.push(nodes[i].as_bytes());
            i += 1;
        }
        proof {
            assert(blobs_view(nodes_vec@) =~= peers_encoded(nodes@));
        }
        let rpc = RPC::Nodes(nodes_vec);
        proof {
            assert(crate::kadproto::wf_rpc(rpc@)) by {
                assert forall|j: int|
                    0 <= j < peers_encoded(nodes@).len() implies (#[trigger] peers_encoded(
                    nodes@,
                )[j]).len() <= u64::MAX by {
                    crate::peer::lemma_enc_peer_info_len(nodes@[j]@);
                }
            }
        }
        let resp = Resp {
            request: req.as_bytes(),
            receiver: self.routing_table.local_info.as_bytes(),
            payload: rpc.as_bytes(),
        };
        Message { head: Header::Response, msg: KadMessage::Response(resp.as_bytes()).as_bytes() }
    }

    /// Place the decoded peer in the routing table. Bytes that do not decode
    /// as a peer are dropped.
    pub fn add_peer(&mut self, peer: Vec<u8>)
        requires
            old(self).wf(),
        ensures
            final (self).wf(),
            final (self).routing_table.local_info == old(self).routing_table.local_info,
            final (self).pending == old(self).pending,
            final (self).interval == old(self).interval,
            final (self).ping_pong == old(self).ping_pong,
            (dec_peer_info(peer@) is Some && old(self).routing_table.n_buckets() < 256) ==> final (
            self).routing_table.has_id(dec_peer_info(peer@).unwrap().id),
            final (self).routing_table.all_peers_spec().len() <= old(
                self,
            ).routing_table.all_peers_spec().len() + 1,
            dec_peer_info(peer@) is None ==> *final (self) == *old(self),
            dec_peer_info(peer@) matches Some(pv) ==> forall|id: Seq<char>|
                id != pv.id ==> (final (self).routing_table.has_id(id) <==> old(
                    self,
                ).routing_table.has_id(id)),
            final (self).routing_table.n_buckets() <= old(self).routing_table.n_buckets() + 1,
            ids_kept(old(self).routing_table, final (self).routing_table),
    {
        let parsed = PeerInfo::from_bytes(peer.as_slice());
        match parsed {
            Some(p) => {
                let ghost pre = self.routing_table;
                let placed = self.routing_table.update_peer(&p, 0);
                proof {
                    if old(self).routing_table.n_buckets() < 256 {
                        assert(placed);
                        assert(self.routing_table.has_id(p@.id));
                    }
                    assert forall|id: Seq<char>| #[trigger] pre.has_id(id) implies self
                        .routing_table.has_id(id) by {
                        if id == p@.id {
                            assert(placed);
                        }
                    }
                }
            },
            None => {},
        }
    }

    /// Send the first lookup: a FIND_NODE for the local peer addressed to
    /// the seed, and the local peer placed in its own table.
    pub fn bootstrap(&mut self, seed: &NetAddr) -> (r: Vec<(NetAddr, Message)>)
        requires
            old(self).wf(),
            old(self).routing_table.n_buckets() < 256,
        ensures
            final (self).wf(),
            final (self).routing_table.local_info == old(self).routing_table.local_info,
            r@.len() == 1,
            r@[0].0 == *seed,
            exists|id: Seq<u8>|
                (#[trigger] r@[0].1)@ == find_node_msg(
                    old(self).routing_table.local_info@,
                    id,
                    old(self).routing_table.local_info@,
                ),
            final (self).routing_table.has_id(old(self).routing_table.local_info@.id),
            forall|id: Seq<char>|
                id != old(self).routing_table.local_info@.id ==> (final (
                self).routing_table.has_id(id) <==> old(self).routing_table.has_id(id)),
            ids_kept(old(self).routing_table, final (self).routing_table),
            final (self).routing_table.n_buckets() <= old(self).routing_table.n_buckets() + 1,
            final (self).pending == old(self).pending,
            final (self).interval == old(self).interval,
            final (self).ping_pong == old(self).ping_pong,
    {
        let local_info = self.routing_table.local_info.clone();
        let km = self.prepare_find_node_message(&local_info, None);
        let message = km.1;
        let mut out: Vec<(NetAddr, Message)> = Vec::new();
        let ghost gid = km.0@;
        out.push((*seed, message));
        proof {
            lemma_peer_info_roundtrip(local_info@);
        }
        self.add_peer(local_info.as_bytes());
        proof {
            assert((out@[0].1)@ == find_node_msg(
                old(self).routing_table.local_info@,
                gid,
                old(self).routing_table.local_info@,
            ));
        }
        out
    }

    /// Answer a FIND_NODE for `node` from `req`: a NODES response carrying
    /// the closest peers, sent to the requester, and a NEW_PEER
    /// announcement of the requester to each of those peers.
    pub fn lookup_node(&mut self, node: PeerInfo, req: Req) -> (r: Vec<(NetAddr, Message)>)
        requires
            old(self).wf(),
            wf_peer_info(node@),
            old(self).routing_table.all_peers_spec().len() <= usize::MAX,
        ensures
            final (self).wf(),
            final (self).routing_table.local_info == old(self).routing_table.local_info,
            r@.len() >= 1,
            r@[0].0 == node@.address,
            exists|cs: Seq<PeerInfo>|
                #[trigger] closest_listing(old(self).routing_table, node@, req@, r@, cs),
            old(self).routing_table.n_buckets() < 256 ==> final (self).routing_table.has_id(
                node@.id,
            ),
            ids_kept(old(self).routing_table, final (self).routing_table),
            final (self).routing_table.n_buckets() <= old(self).routing_table.n_buckets() + 1,
    {
        let found = self.routing_table.get_closest_peers(node.clone(), DEFAULT_N_PEERS);
        let mut closest_peers: Vec<PeerInfo> = Vec::new();
        let mut f: usize = 0;
        while f < found.len()
            invariant
                f <= found@.len(),
                forall|i: int| 0 <= i < closest_peers@.len() ==> wf_peer_info(
                    (#[trigger] closest_peers@[i])@,
                ),
                closest_peers@ == wf_filter(found@.take(f as int)),
            decreases found@.len() - f,
        {
            let ghost pre_filtered = closest_peers@;
            let id_string = found[f].id.get_id();
            let l: usize = id_string.as_str().unicode_len();
            let ascii_ok = id_string.as_str().is_ascii();
            let len_ok = (l as u64) <= u64::MAX - 46;
            if ascii_ok && len_ok {
                let picked = found[f].clone();
                let key_bytes = picked.get_key().get_key();
                proof {
                    broadcast use vstd::array::group_array_axioms;

                    assert(picked@.id == id_string@);
                    assert(key_bytes@.len() == 32);
                    assert(picked@.key.len() == 32);
                    assert(wf_peer_info(picked@));
                }
                closest_peers.push(picked);
                proof {
                    reveal_with_fuel(Seq::<_>::filter, 1);
                    assert(closest_peers@[closest_peers@.len() - 1]@ == found[f as int]@);
                    assert(found@.take(f + 1).drop_last() =~= found@.take(f as int));
                    assert(found@.take(f + 1).last() == found@[f as int]);
                    assert(wf_peer_info(found@[f as int]@));
                    assert(wf_filter(found@.take(f + 1)) == pre_filtered.push(
                        found@[f as int],
                    ));
                    assert(closest_peers@ =~= wf_filter(found@.take(f + 1)));
                }
            } else {
                proof {
                    reveal_with_fuel(Seq::<_>::filter, 1);
                    broadcast use vstd::array::group_array_axioms;

                    assert(found@[f as int]@.id == id_string@);
                    if !ascii_ok {
                        assert(!is_ascii_chars(found@[f as int]@.id));
                    } else {
                        assert(!len_ok);
                        assert(l == found@[f as int]@.id.len());
                        assert(found@[f as int]@.id.len() + 46 > u64::MAX);
                    }
                    assert(!wf_peer_info(found@[f as int]@));
                    assert(found@.take(f + 1).drop_last() =~= found@.take(f as int));
                    assert(found@.take(f + 1).last() == found@[f as int]);
                    assert(wf_filter(found@.take(f + 1)) == pre_filtered);
                }
            }
            f += 1;
        }
        proof {
            assert(found@.take(found@.len() as int) =~= found@);
            assert(closest_peers@ == wf_filter(found@));
        }
        let km = self.prepare_new_peer_message(&node);
        let ghost gid = km.0@;
        let msg = km.1;
        let resp_msg = self.prepare_nodes_response_message(req, node.clone(), &closest_peers);
        proof {
            lemma_peer_info_roundtrip(node@);
        }
        self.add_peer(node.as_bytes());
        let mut out: Vec<(NetAddr, Message)> = Vec::new();
        let ghost gnodes = peers_encoded(closest_peers@);
        let ghost glocal = old(self).routing_table.local_info@;
        out.push((node.get_address(), resp_msg));
        let mut i: usize = 0;
        while i < closest_peers.len()
            invariant
                i <= closest_peers@.len(),
                out@.len() == i + 1,
                (out@[0].1)@ == nodes_msg(glocal, req@, gnodes),
                out@[0].0 == node@.address,
                msg@ == new_peer_msg(glocal, gid, node@),
                forall|k: int|
                    1 <= k < out@.len() ==> ((#[trigger] out@[k]).1)@ == new_peer_msg(
                        glocal,
                        gid,
                        node@,
                    ) && out@[k].0 == closest_peers@[k - 1]@.address,
            decreases closest_peers@.len() - i,
        {
            out.push((closest_peers[i].get_address(), msg.clone()));
            i += 1;
        }
        proof {
            assert(closest_peers@ == wf_filter(found@));
            assert(closest_listing(old(self).routing_table, node@, req@, out@, found@));
        }
        out
    }

    /// Dispatch one lookup-protocol message: requests to the request
    /// handler, responses to the response handler, and the shutdown order
    /// to neither.
    pub fn handle_message(&mut self, message: &KadMessage) -> (r: Vec<(NetAddr, Message)>)
        requires
            old(self).wf(),
            old(self).routing_table.all_peers_spec().len() + 301 <= usize::MAX,
        ensures
            final (self).wf(),
            message@ is Kill ==> (*final (self) == *old(self) && r@.len() == 0),
            final (self).routing_table.local_info == old(self).routing_table.local_info,
            ids_kept(old(self).routing_table, final (self).routing_table),
            message@ matches KadMessageV::Request(rb) ==> {
                &&& (dec_req(rb) is None ==> (*final (self) == *old(self) && r@.len() == 0))
                &&& (dec_req(rb) matches Some(rv) ==> (dec_peer_info(rv.sender) matches Some(sv)
                    ==> {
                    &&& (dec_rpc(rv.payload) == Some(RPCV::Ping) ==> r@.len() == 1 && r@[0].0
                        == sv.address && (r@[0].1)@ == pong_msg(
                        old(self).routing_table.local_info@,
                        sv,
                        rv,
                    ))
                    &&& (dec_rpc(rv.payload) matches Some(pv) ==> (pv matches RPCV::NewPeer(_)
                        ==> r@.len() == 0))
                    &&& (dec_rpc(rv.payload) is Some && old(self).routing_table.n_buckets() < 256
                        ==> final (self).routing_table.has_id(sv.id))
                    &&& (dec_rpc(rv.payload) matches Some(pv) ==> (pv matches RPCV::FindNode(nb)
                        ==> (dec_peer_info(nb) matches Some(tv) ==> {
                        &&& (exists|t1: RoutingTable, cs: Seq<PeerInfo>|
                            (#[trigger] closest_listing(t1, tv, rv, r@, cs) && ids_kept(
                                old(self).routing_table,
                                t1,
                            ) && t1.local_info == old(self).routing_table.local_info))
                        &&& (old(self).routing_table.n_buckets() + 1 < 256 ==> final (
                        self).routing_table.has_id(tv.id))
                    })))
                }))
            },
            message@ matches KadMessageV::Response(rb) ==> {
                &&& (dec_resp(rb) is None ==> (*final (self) == *old(self) && r@.len() == 0))
                &&& (dec_resp(rb) matches Some(resv) ==> (dec_rpc(resv.payload) matches Some(pv)
                    ==> (pv matches RPCV::Pong(pb) ==> (r@.len() == 0 && (dec_peer_info(pb)
                    is Some && old(self).routing_table.n_buckets() < 256 ==> final (
                    self).routing_table.has_id(dec_peer_info(pb).unwrap().id))))))
                &&& (dec_resp(rb) matches Some(resv) ==> (dec_rpc(resv.payload) matches Some(pv)
                    ==> (pv matches RPCV::Nodes(ns) ==> {
                    &&& (forall|k: int|
                        0 <= k < r@.len() ==> #[trigger] nodes_send_ok(
                            ns,
                            r@,
                            k,
                            old(self).routing_table.local_info@,
                        ))
                    &&& (old(self).routing_table.n_buckets() + 2 * ns.len() <= 256 ==> forall|
                        j: int,
                    |
                        0 <= j < ns.len() ==> (dec_peer_info(#[trigger] ns[j]) matches Some(qv)
                            ==> final (self).routing_table.has_id(qv.id)))
                    &&& (old(self).routing_table.n_buckets() + 2 * ns.len() <= 256 ==> forall|
                        j: int,
                    |
                        0 <= j < ns.len() ==> (dec_peer_info(#[trigger] ns[j]) matches Some(qv)
                            ==> ((!old(self).routing_table.has_id(qv.id) && qv.id != old(
                            self,
                        ).routing_table.local_info@.id) ==> nodes_send_for(
                            ns,
                            r@,
                            qv.id,
                            old(self).routing_table.local_info@,
                        ))))
                })))
            },
    {
        match message {
            KadMessage::Request(req) => self.handle_request(req, true),
            KadMessage::Response(resp) => self.handle_response(resp, true),
            KadMessage::Kill => Vec::new(),
        }
    }

    /// Handle a request: place the sender, then serve FIND_NODE, NEW_PEER
    /// and PING; an RPC of response kind falls through to the response
    /// handler once. Bytes that do not decode are dropped.
    #[verifier::rlimit(60)]
    fn handle_request(&mut self, req: &Vec<u8>, fallthrough: bool) -> (r: Vec<(NetAddr, Message)>)
        requires
            old(self).wf(),
            old(self).routing_table.all_peers_spec().len() + 300 + (if fallthrough {
                1int
            } else {
                0int
            }) <= usize::MAX,
        ensures
            final (self).wf(),
            final (self).routing_table.local_info == old(self).routing_table.local_info,
            dec_req(req@) is None ==> (*final (self) == *old(self) && r@.len() == 0),
            dec_req(req@) matches Some(rv) ==> (dec_peer_info(rv.sender) matches Some(sv) ==> (
            dec_rpc(rv.payload) == Some(RPCV::Ping) ==> {
                &&& r@.len() == 1
                &&& r@[0].0 == sv.address
                &&& (r@[0].1)@ == pong_msg(old(self).routing_table.local_info@, sv, rv)
            })),
            dec_req(req@) matches Some(rv) ==> (dec_peer_info(rv.sender) matches Some(sv) ==> (
            dec_rpc(rv.payload) matches Some(pv) ==> (pv matches RPCV::NewPeer(_) ==> r@.len()
                == 0))),
            dec_req(req@) matches Some(rv) ==> (dec_peer_info(rv.sender) matches Some(sv) ==> (
            dec_rpc(rv.payload) is Some && old(self).routing_table.n_buckets() < 256 ==> final (
            self).routing_table.has_id(sv.id))),
            dec_req(req@) matches Some(rv) ==> (dec_peer_info(rv.sender) matches Some(sv) ==> (
            dec_rpc(rv.payload) matches Some(pv) ==> (pv matches RPCV::FindNode(nb) ==> (
            dec_peer_info(nb) matches Some(tv) ==> exists|t1: RoutingTable, cs: Seq<PeerInfo>|
                (#[trigger] closest_listing(t1, tv, rv, r@, cs) && ids_kept(
                    old(self).routing_table,
                    t1,
                ) && t1.local_info == old(self).routing_table.local_info))))),
            dec_req(req@) matches Some(rv) ==> (dec_peer_info(rv.sender) matches Some(sv) ==> (
            dec_rpc(rv.payload) matches Some(pv) ==> (pv matches RPCV::FindNode(nb) ==> (
            dec_peer_info(nb) matches Some(tv) ==> (old(self).routing_table.n_buckets() + 1 < 256
                ==> final (self).routing_table.has_id(tv.id)))))),
            ids_kept(old(self).routing_table, final (self).routing_table),
        decreases (if fallthrough {
            1int
        } else {
            0int
        }),
    {
        let parsed = Req::from_bytes(req.as_slice());
        match parsed {
            None => Vec::new(),
            Some(req_msg) => {
                let sender = PeerInfo::from_bytes(req_msg.sender.as_slice());
                let rpc = RPC::from_bytes(req_msg.payload.as_slice());
                match (sender, rpc) {
                    (Some(sender), Some(rpc)) => {
                        let ghost grpc = rpc@;
                        self.add_peer(req_msg.sender.clone());
                        match rpc {
                            RPC::FindNode(node) => {
                                let peer = PeerInfo::from_bytes(node.as_slice());
                                match peer {
                                    Some(peer) => {
                                        let ghost mid = *self;
                                        let ghost tv = peer@;
                                        let ghost rv = req_msg@;
                                        let ghost gnb = node@;
                                        proof {
                                            assert(dec_req(req@) == Some(rv));
                                            assert(grpc == RPCV::FindNode(gnb));
                                            assert(dec_rpc(rv.payload) == Some(grpc));
                                            assert(dec_peer_info(gnb) == Some(tv));
                                        }
                                        let out = self.lookup_node(peer, req_msg);
                                        proof {
                                            let cs = choose|cs: Seq<PeerInfo>|
                                                #[trigger] closest_listing(
                                                    mid.routing_table,
                                                    tv,
                                                    rv,
                                                    out@,
                                                    cs,
                                                );
                                            assert(ids_kept(
                                                old(self).routing_table,
                                                mid.routing_table,
                                            ));
                                            assert(closest_listing(
                                                mid.routing_table,
                                                tv,
                                                rv,
                                                out@,
                                                cs,
                                            ));
                                            assert(mid.routing_table.local_info == old(
                                                self,
                                            ).routing_table.local_info);
                                            if old(self).routing_table.n_buckets() + 1 < 256 {
                                                assert(mid.routing_table.n_buckets() < 256);
                                                assert(self.routing_table.has_id(tv.id));
                                            }
                                            let rv2 = dec_req(req@).unwrap();
                                            assert(rv2 == rv);
                                            let pv2 = dec_rpc(rv2.payload).unwrap();
                                            assert(pv2 == grpc);
                                            let tv2 = dec_peer_info(gnb).unwrap();
                                            assert(tv2 == tv);
                                            assert(exists|
                                                t1: RoutingTable,
                                                cs2: Seq<PeerInfo>,
                                            |
                                                (#[trigger] closest_listing(
                                                    t1,
                                                    tv2,
                                                    rv2,
                                                    out@,
                                                    cs2,
                                                ) && ids_kept(old(self).routing_table, t1)
                                                    && t1.local_info == old(
                                                    self,
                                                ).routing_table.local_info));

                                        }
                                        out
                                    },
                                    None => Vec::new(),
                                }
                            },
                            RPC::NewPeer(peer) => {
                                self.add_peer(peer);
                                Vec::new()
                            },
                            RPC::Ping => {
                                let resp_msg = self.prepare_pong_response(&sender, req_msg);
                                let mut out: Vec<(NetAddr, Message)> = Vec::new();
                                out.push((sender.get_address(), resp_msg));
                                out
                            },
                            RPC::FindValue(_) => Vec::new(),
                            RPC::Store(_, _) => Vec::new(),
                            _ => {
                                if fallthrough {
                                    self.handle_response(req, false)
                                } else {
                                    Vec::new()
                                }
                            },
                        }
                    },
                    _ => Vec::new(),
                }
            },
        }
    }

    /// Handle a response: place every peer a NODES response lists and
    /// bootstrap against the ones not known before; place the peer a PONG
    /// carries; an RPC of request kind falls through to the request handler
    /// once. Bytes that do not decode are dropped.
    fn handle_response(&mut self, resp: &Vec<u8>, fallthrough: bool) -> (r: Vec<(NetAddr, Message)>)
        requires
            old(self).wf(),
            old(self).routing_table.all_peers_spec().len() + 300 + (if fallthrough {
                1int
            } else {
                0int
            }) <= usize::MAX,
        ensures
            final (self).wf(),
            final (self).routing_table.local_info == old(self).routing_table.local_info,
            dec_resp(resp@) is None ==> (*final (self) == *old(self) && r@.len() == 0),
            ids_kept(old(self).routing_table, final (self).routing_table),
            dec_resp(resp@) matches Some(resv) ==> (dec_rpc(resv.payload) matches Some(pv) ==> (
            pv matches RPCV::Pong(pb) ==> (r@.len() == 0 && (dec_peer_info(pb) is Some && old(
                self,
            ).routing_table.n_buckets() < 256 ==> final (self).routing_table.has_id(
                dec_peer_info(pb).unwrap().id,
            ))))),
            dec_resp(resp@) matches Some(resv) ==> (dec_rpc(resv.payload) matches Some(pv) ==> (
            pv matches RPCV::Nodes(ns) ==> {
                &&& (forall|k: int|
                    0 <= k < r@.len() ==> #[trigger] nodes_send_ok(
                        ns,
                        r@,
                        k,
                        old(self).routing_table.local_info@,
                    ))
                &&& (old(self).routing_table.n_buckets() + 2 * ns.len() <= 256 ==> {
                    &&& (forall|j: int|
                        0 <= j < ns.len() ==> (dec_peer_info(#[trigger] ns[j]) matches Some(qv)
                            ==> final (self).routing_table.has_id(qv.id)))
                    &&& (forall|j: int|
                        0 <= j < ns.len() ==> (dec_peer_info(#[trigger] ns[j]) matches Some(qv)
                            ==> ((!old(self).routing_table.has_id(qv.id) && qv.id != old(
                            self,
                        ).routing_table.local_info@.id) ==> nodes_send_for(
                            ns,
                            r@,
                            qv.id,
                            old(self).routing_table.local_info@,
                        ))))
                })
            })),
        decreases (if fallthrough {
            1int
        } else {
            0int
        }),
    {
        let parsed = Resp::from_bytes(resp.as_slice());
        match parsed {
            None => Vec::new(),
            Some(resp_msg) => {
                let rpc = RPC::from_bytes(resp_msg.payload.as_slice());
                match rpc {
                    None => Vec::new(),
                    Some(rpc) => {
                        match rpc {
                            RPC::Nodes(nodes) => {
                                let ghost ns = blobs_view(nodes@);
                                let ghost local = old(self).routing_table.local_info@;
                                let ghost budget = old(self).routing_table.n_buckets() + 2
                                    * ns.len() <= 256;
                                let mut out: Vec<(NetAddr, Message)> = Vec::new();
                                let mut i: usize = 0;
                                while i < nodes.len()
                                    invariant
                                        self.wf(),
                                        self.routing_table.local_info == old(
                                            self,
                                        ).routing_table.local_info,
                                        self.pending == old(self).pending,
                                        self.interval == old(self).interval,
                                        self.ping_pong == old(self).ping_pong,
                                        i <= nodes@.len(),
                                        ns == blobs_view(nodes@),
                                        local == old(self).routing_table.local_info@,
                                        budget == (old(self).routing_table.n_buckets() + 2
                                            * ns.len() <= 256),
                                        ids_kept(old(self).routing_table, self.routing_table),
                                        self.routing_table.n_buckets() <= old(
                                            self,
                                        ).routing_table.n_buckets() + 2 * i,
                                        forall|k: int|
                                            0 <= k < out@.len() ==> #[trigger] nodes_send_ok(
                                                ns,
                                                out@,
                                                k,
                                                local,
                                            ),
                                        budget ==> forall|j: int|
                                            0 <= j < i ==> (dec_peer_info(
                                                #[trigger] ns[j],
                                            ) matches Some(qv) ==> self.routing_table.has_id(
                                                qv.id,
                                            )),
                                        budget ==> forall|pid: Seq<char>|
                                            (#[trigger] self.routing_table.has_id(pid) && !old(
                                                self,
                                            ).routing_table.has_id(pid) && pid != local.id)
                                                ==> nodes_send_for(ns, out@, pid, local),
                                    decreases nodes@.len() - i,
                                {
                                    proof {
                                        assert(ns[i as int] == nodes@[i as int]@);
                                    }
                                    let peer_info = PeerInfo::from_bytes(nodes[i].as_slice());
                                    match peer_info {
                                        Some(peer_info) => {
                                            let new = self.routing_table.is_new(&peer_info);
                                            let ghost mid0 = *self;
                                            self.add_peer(nodes[i].clone());
                                            let ghost mid1 = *self;
                                            if new && self.routing_table.size() < 256 {
                                                let mut msgs = self.bootstrap(
                                                    &peer_info.get_address(),
                                                );
                                                let ghost msgs0 = msgs@;
                                                let ghost out0 = out@;
                                                push_all_msgs(&mut out, &mut msgs);
                                                proof {
                                                    let kq = out0.len() as int;
                                                    assert(out@[kq].0 == msgs0[0].0);
                                                    assert((out@[kq].1)@ == (msgs0[0].1)@);
                                                    let wid = choose|wid: Seq<u8>|
                                                        (#[trigger] msgs0[0].1)@ == find_node_msg(
                                                            mid1.routing_table.local_info@,
                                                            wid,
                                                            mid1.routing_table.local_info@,
                                                        );
                                                    assert((out@[kq].1)@ == find_node_msg(
                                                        local,
                                                        wid,
                                                        local,
                                                    ));
                                                    assert(dec_peer_info(ns[i as int])
                                                        == Some(peer_info@));
                                                    assert(out@[kq].0 == peer_info@.address);
                                                    assert(nodes_send_ok(ns, out@, kq, local));
                                                    assert forall|k: int|
                                                        0 <= k < out@.len() implies
                                                        #[trigger] nodes_send_ok(
                                                        ns,
                                                        out@,
                                                        k,
                                                        local,
                                                    ) by {
                                                        if k < out0.len() {
                                                            assert(out@[k] == out0[k]);
                                                            assert(nodes_send_ok(
                                                                ns,
                                                                out0,
                                                                k,
                                                                local,
                                                            ));
                                                            let (wj, wd) = choose|
                                                                wj: int,
                                                                wd: Seq<u8>,
                                                            |
                                                                #![trigger ns[wj], find_node_msg(local, wd, local)]
                                                                {
                                                                    &&& 0 <= wj < ns.len()
                                                                    &&& dec_peer_info(
                                                                        ns[wj],
                                                                    ) is Some
                                                                    &&& out0[k].0
                                                                        == dec_peer_info(
                                                                        ns[wj],
                                                                    ).unwrap().address
                                                                    &&& (out0[k].1)@
                                                                        == find_node_msg(
                                                                        local,
                                                                        wd,
                                                                        local,
                                                                    )
                                                                };
                                                            assert(dec_peer_info(
                                                                ns[wj],
                                                            ) is Some);
                                                            assert((out@[k].1)@
                                                                == find_node_msg(
                                                                local,
                                                                wd,
                                                                local,
                                                            ));
                                                        }
                                                    }
                                                    if budget {
                                                        assert forall|pid: Seq<char>|
                                                            (#[trigger] self.routing_table.has_id(
                                                                pid,
                                                            ) && !old(
                                                                self,
                                                            ).routing_table.has_id(pid) && pid
                                                                != local.id) implies
                                                            nodes_send_for(
                                                            ns,
                                                            out@,
                                                            pid,
                                                            local,
                                                        ) by {
                                                            if pid == peer_info@.id {
                                                                assert(out@[kq].0
                                                                    == dec_peer_info(
                                                                    ns[i as int],
                                                                ).unwrap().address);
                                                                assert((out@[kq].1)@
                                                                    == find_node_msg(
                                                                    local,
                                                                    wid,
                                                                    local,
                                                                ));
                                                                assert(nodes_send_for(
                                                                    ns,
                                                                    out@,
                                                                    pid,
                                                                    local,
                                                                ));
                                                            } else {
                                                                assert(mid1.routing_table.has_id(
                                                                    pid,
                                                                ));
                                                                assert(mid0.routing_table.has_id(
                                                                    pid,
                                                                ));
                                                                assert(nodes_send_for(
                                                                    ns,
                                                                    out0,
                                                                    pid,
                                                                    local,
                                                                ));
                                                                let (wk, wj, wd) = choose|
                                                                    wk: int,
                                                                    wj: int,
                                                                    wd: Seq<u8>,
                                                                |
                                                                    #![trigger out0[wk], ns[wj], find_node_msg(local, wd, local)]
                                                                    {
                                                                        &&& 0 <= wk < out0.len()
                                                                        &&& 0 <= wj < ns.len()
                                                                        &&& dec_peer_info(
                                                                            ns[wj],
                                                                        ) is Some
                                                                        &&& dec_peer_info(
                                                                            ns[wj],
                                                                        ).unwrap().id == pid
                                                                        &&& out0[wk].0
                                                                            == dec_peer_info(
                                                                            ns[wj],
                                                                        ).unwrap().address
                                                                        &&& (out0[wk].1)@
                                                                            == find_node_msg(
                                                                            local,
                                                                            wd,
                                                                            local,
                                                                        )
                                                                    };
                                                                assert(out@[wk] == out0[wk]);
                                                                assert((out@[wk].1)@
                                                                    == find_node_msg(
                                                                    local,
                                                                    wd,
                                                                    local,
                                                                ));
                                                            }
                                                        }
                                                    }
                                                }
                                            } else {
                                                proof {
                                                    if budget {
                                                        assert(mid0.routing_table.n_buckets()
                                                            < 256);
                                                        assert(self.routing_table.has_id(
                                                            peer_info@.id,
                                                        ));
                                                        assert(!new);
                                                        assert(mid0.routing_table.has_id(
                                                            peer_info@.id,
                                                        ));
                                                        assert forall|pid: Seq<char>|
                                                            (#[trigger] self.routing_table.has_id(
                                                                pid,
                                                            ) && !old(
                                                                self,
                                                            ).routing_table.has_id(pid) && pid
                                                                != local.id) implies
                                                            nodes_send_for(
                                                            ns,
                                                            out@,
                                                            pid,
                                                            local,
                                                        ) by {
                                                            assert(mid0.routing_table.has_id(
                                                                pid,
                                                            ));
                                                        }
                                                    }
                                                }
                                            }
                                            proof {
                                                if budget {
                                                    assert(self.routing_table.has_id(
                                                        peer_info@.id,
                                                    ));
                                                    assert forall|j: int|
                                                        0 <= j < i + 1 implies (dec_peer_info(
                                                        #[trigger] ns[j],
                                                    ) matches Some(qv)
                                                        ==> self.routing_table.has_id(
                                                        qv.id,
                                                    )) by {
                                                        if j < i && dec_peer_info(ns[j]) is Some {
                                                            let qv = dec_peer_info(
                                                                ns[j],
                                                            ).unwrap();
                                                            assert(mid0.routing_table.has_id(
                                                                qv.id,
                                                            ));
                                                        }
                                                    }
                                                }
                                            }
                                        },
                                        None => {},
                                    }
                                    i += 1;
                                }
                                out
                            },
                            RPC::Pong(peer) => {
                                self.add_peer(peer);
                                Vec::new()
                            },
                            RPC::Value(_) => Vec::new(),
                            RPC::Saved(_) => Vec::new(),
                            _ => {
                                if fallthrough {
                                    self.handle_request(resp, false)
                                } else {
                                    Vec::new()
                                }
                            },
                        }
                    },
                }
            },
        }
    }

    pub fn prepare_store_message(&self, peer: &PeerInfo, value: Vec<u8>) {
        let _ = peer;
        let _ = value;
    }

    pub fn prepare_saved_response(&self, peer: &PeerInfo, req: Req) {
        let _ = peer;
        let _ = req;
    }

    pub fn prepare_find_value_message(&self, value: Vec<u8>) {
        let _ = value;
    }

    pub fn prepare_value_response(&self, peer: &PeerInfo, value: Vec<u8>, req: Req) {
        let _ = peer;
        let _ = value;
        let _ = req;
    }

    pub fn ping_node(&mut self, node: PeerInfo) {
        let _ = node;
    }

    pub fn pong_response(&mut self, node: PeerInfo, req: Req) {
        let _ = node;
        let _ = req;
    }

    pub fn lookup_value(&mut self, value: Vec<u8>) {
        let _ = value;
    }

    pub fn store_value(&mut self, value: Vec<u8>) {
        let _ = value;
    }
}

/// Append the messages of `src` to `dst`, draining `src`.
fn push_all_msgs(dst: &mut Vec<(NetAddr, Message)>, src: &mut Vec<(NetAddr, Message)>)
    ensures
        final (dst)@.len() == old(dst)@.len() + old(src)@.len(),
        forall|k: int| 0 <= k < old(dst)@.len() ==> final (dst)@[k] == old(dst)@[k],
        forall|k: int|
            old(dst)@.len() <= k < final (dst)@.len() ==> (#[trigger] final (dst)@[k]).0 == old(
                src,
            )@[k - old(dst)@.len()].0 && (final (dst)@[k].1)@ == (old(src)@[k - old(
                dst,
            )@.len()].1)@,
{
    let n = src.len();
    let mut i: usize = 0;
    while i < n
        invariant
            i <= n,
            n == src@.len(),
            src@ == old(src)@,
            dst@.len() == old(dst)@.len() + i,
            forall|k: int| 0 <= k < old(dst)@.len() ==> dst@[k] == old(dst)@[k],
            forall|k: int|
                old(dst)@.len() <= k < dst@.len() ==> (#[trigger] dst@[k]).0 == old(src)@[k - old(
                    dst,
                )@.len()].0 && (dst@[k].1)@ == (old(src)@[k - old(dst)@.len()].1)@,
        decreases n - i,
    {
        let pair = (src[i].0, src[i].1.clone());
        proof {
            assert(pair.1@ == src@[i as int].1@);
        }
        dst.push((pair.0, pair.1));
        i += 1;
    }
}

} // verus!
