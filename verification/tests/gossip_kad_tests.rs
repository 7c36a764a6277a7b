use udp2p::{
    Dispatch, GossipConfig, GossipMessage, GossipService, Header, Kademlia, Key, Message,
    MessageHandler, NetAddr, PeerId, PeerInfo, RoutingTable, packetize,
};

fn peer_at(port: u16) -> PeerInfo {
    let key = Key::rand();
    let id = PeerId::from_key(&key);
    PeerInfo::new(id, key, NetAddr::new(0x7F000001, port))
}

fn config() -> GossipConfig {
    GossipConfig::new(
        String::from("udp2p"),
        5,
        3,
        8,
        4,
        16,
        4,
        2,
        5,
        1_000_000,
        10,
    )
}

fn service_at(port: u16, peers: usize) -> GossipService {
    let local = peer_at(port);
    let mut table = RoutingTable::new(local.clone());
    for p in 0..peers {
        table.update_peer(&peer_at(20000 + p as u16), 0);
    }
    let kad = Kademlia::new(table, Vec::new(), 1_000_000, 0);
    GossipService::new(NetAddr::new(0x7F000001, port), kad, config(), 0, 0)
}

fn gossip_wire(id: [u8; 32], data: Vec<u8>, sender: NetAddr) -> Message {
    let gm = GossipMessage { id, data, sender };
    Message { head: Header::Gossip, msg: gm.as_bytes() }
}

#[test]
fn gossip_dedup_by_id() {
    let mut svc = service_at(6000, 10);
    let sender = NetAddr::new(0x7F000001, 6001);
    let msg = gossip_wire([1u8; 32], vec![1, 2, 3], sender);
    let (first_delivery, _first_sends) = svc.handle_message(&sender, &msg, 10);
    assert!(first_delivery.is_some());
    let (second_delivery, second_sends) = svc.handle_message(&sender, &msg, 20);
    assert!(second_delivery.is_none());
    assert_eq!(second_sends.len(), 0);
    assert_eq!(svc.cache.len(), 1);
}

#[test]
fn gossip_from_self_not_delivered() {
    let mut svc = service_at(6002, 10);
    let own = svc.address;
    let msg = gossip_wire([2u8; 32], vec![9], own);
    let (delivery, _) = svc.handle_message(&own, &msg, 10);
    assert!(delivery.is_none());
    assert_eq!(svc.cache.len(), 1);
}

#[test]
fn gossip_cache_expires_after_history_window() {
    let mut svc = service_at(6003, 10);
    let sender = NetAddr::new(0x7F000001, 6004);
    let msg = gossip_wire([3u8; 32], vec![4], sender);
    let inserted_at = 1_000u128;
    svc.handle_message(&sender, &msg, inserted_at);
    assert_eq!(svc.cache.len(), 1);
    // history_len * interval after insertion, the next heartbeat evicts it.
    let interval = 1_000_000u128;
    let after = inserted_at + 5 * interval + interval + 1;
    let _ = svc.gossip(after);
    assert_eq!(svc.cache.len(), 0);
}

#[test]
fn gossip_fanout_bound() {
    // Twenty known peers beside the local one; factor 2/5 of the close-peer
    // count (21 incl. the local peer) is eight recipients, never the sender
    // and never the local address.
    let mut svc = service_at(6005, 20);
    let sender = NetAddr::new(0x7F000001, 6006);
    let msg = gossip_wire([4u8; 32], vec![5], sender);
    let sends = svc.publish(&sender, msg);
    assert_eq!(sends.len(), 8);
    for (dest, _) in &sends {
        assert!(*dest != sender);
        assert!(*dest != svc.address);
    }
    let mut seen = sends.iter().map(|(d, _)| *d).collect::<Vec<_>>();
    seen.sort_by_key(|a| (a.ip, a.port));
    seen.dedup();
    assert_eq!(seen.len(), 8);
}

fn pump(node: &mut Kademlia, handler: &mut MessageHandler, dest_of: NetAddr, sends: Vec<(NetAddr, Message)>) -> Vec<(NetAddr, Message)> {
    // Deliver each message addressed to `dest_of` into `node` through the
    // packet layer, collecting what the node sends back.
    let mut replies = Vec::new();
    for (dest, msg) in sends {
        if dest != dest_of {
            continue;
        }
        let packets = packetize(msg.as_bytes(), rand_id(), 0);
        for p in packets {
            if let Some(Dispatch::Kad(src, km)) = handler.insert_packet(p, dest) {
                let _ = src;
                let mut out = node.handle_message(&km);
                replies.append(&mut out);
            }
        }
    }
    replies
}

fn rand_id() -> [u8; 32] {
    Key::rand().get_key()
}

#[test]
fn two_node_bootstrap() {
    let a_info = peer_at(10001);
    let b_info = peer_at(10002);
    let a_addr = a_info.get_address();
    let b_addr = b_info.get_address();
    let mut a = Kademlia::new(RoutingTable::new(a_info.clone()), Vec::new(), 1_000_000, 0);
    let mut b = Kademlia::new(RoutingTable::new(b_info.clone()), Vec::new(), 1_000_000, 0);
    let mut ha = MessageHandler::new(Vec::new());
    let mut hb = MessageHandler::new(Vec::new());

    let from_b = b.bootstrap(&a_addr);
    let from_a = pump(&mut a, &mut ha, a_addr, from_b);
    assert!(!a.routing_table.is_new(&b_info));
    let _ = pump(&mut b, &mut hb, b_addr, from_a);
    assert!(!b.routing_table.is_new(&a_info));
}

#[test]
fn three_node_mesh() {
    let a_info = peer_at(10011);
    let b_info = peer_at(10012);
    let c_info = peer_at(10013);
    let a_addr = a_info.get_address();
    let b_addr = b_info.get_address();
    let c_addr = c_info.get_address();
    let mut a = Kademlia::new(RoutingTable::new(a_info.clone()), Vec::new(), 1_000_000, 0);
    let mut b = Kademlia::new(RoutingTable::new(b_info.clone()), Vec::new(), 1_000_000, 0);
    let mut c = Kademlia::new(RoutingTable::new(c_info.clone()), Vec::new(), 1_000_000, 0);
    let mut ha = MessageHandler::new(Vec::new());
    let mut hb = MessageHandler::new(Vec::new());
    let mut hc = MessageHandler::new(Vec::new());

    let from_b = b.bootstrap(&a_addr);
    let to_b = pump(&mut a, &mut ha, a_addr, from_b);
    let _ = pump(&mut b, &mut hb, b_addr, to_b);

    let from_c = c.bootstrap(&a_addr);
    let mut queue = pump(&mut a, &mut ha, a_addr, from_c);
    // Let the replies circulate a bounded number of rounds.
    for _ in 0..6 {
        let mut next = Vec::new();
        next.extend(pump(&mut a, &mut ha, a_addr, queue.clone()));
        next.extend(pump(&mut b, &mut hb, b_addr, queue.clone()));
        next.extend(pump(&mut c, &mut hc, c_addr, queue));
        queue = next;
    }
    assert!(!c.routing_table.is_new(&b_info) || !b.routing_table.is_new(&c_info));
}

#[test]
fn kademlia_answers_ping_with_pong() {
    let a_info = peer_at(10021);
    let b_info = peer_at(10022);
    let mut a = Kademlia::new(RoutingTable::new(a_info.clone()), Vec::new(), 1_000_000, 0);
    let b = Kademlia::new(RoutingTable::new(b_info.clone()), Vec::new(), 1_000_000, 0);
    let (_, ping) = b.prepare_ping_message(&a_info);
    let km = udp2p::KadMessage::from_bytes(ping.msg.as_slice()).expect("kad message decodes");
    let replies = a.handle_message(&km);
    assert_eq!(replies.len(), 1);
    assert!(replies[0].0 == b_info.get_address());
    assert!(matches!(replies[0].1.head, Header::Response));
}

#[test]
fn peer_info_wire_round_trip() {
    let p = peer_at(10031);
    let wire = p.as_bytes();
    let back = PeerInfo::from_bytes(wire.as_slice()).expect("round trip");
    assert!(back == p);
    assert!(back.get_address() == p.get_address());
    assert_eq!(back.get_id().get_id(), p.get_id().get_id());
}

#[test]
fn gossip_message_wire_round_trip() {
    let gm = GossipMessage { id: [5u8; 32], data: vec![1, 2, 3], sender: NetAddr::new(9, 9) };
    let wire = gm.as_bytes();
    let back = GossipMessage::from_bytes(wire.as_slice()).expect("round trip");
    assert_eq!(back.id, gm.id);
    assert_eq!(back.data, gm.data);
    assert!(back.sender == gm.sender);
}

#[test]
fn rpc_nodes_wire_round_trip() {
    let peers: Vec<Vec<u8>> = vec![peer_at(1).as_bytes(), peer_at(2).as_bytes()];
    let rpc = udp2p::RPC::Nodes(peers.clone());
    let wire = rpc.as_bytes();
    match udp2p::RPC::from_bytes(wire.as_slice()) {
        Some(udp2p::RPC::Nodes(back)) => assert_eq!(back, peers),
        _ => panic!("expected a nodes list"),
    }
}

#[test]
fn req_and_resp_wire_round_trip() {
    let req = udp2p::Req { id: [1u8; 32], sender: vec![1, 2], payload: vec![3, 4, 5] };
    let wire = req.as_bytes();
    let back = udp2p::Req::from_bytes(wire.as_slice()).expect("round trip");
    assert_eq!(back.id, req.id);
    assert_eq!(back.sender, req.sender);
    assert_eq!(back.payload, req.payload);

    let resp = udp2p::Resp { request: wire, receiver: vec![9], payload: vec![8, 7] };
    let wire2 = resp.as_bytes();
    let back2 = udp2p::Resp::from_bytes(wire2.as_slice()).expect("round trip");
    assert_eq!(back2.request, resp.request);
    assert_eq!(back2.receiver, resp.receiver);
    assert_eq!(back2.payload, resp.payload);
}

#[test]
fn gossip_fanout_covers_all_when_few() {
    // Five known peers beside the local one: at or below the threshold the
    // fan-out reaches every known address other than the local one, the
    // sender's included.
    let mut svc = service_at(6008, 5);
    let sender = NetAddr::new(0x7F000001, 6009);
    let msg = gossip_wire([6u8; 32], vec![7], sender);
    let sends = svc.publish(&sender, msg);
    assert_eq!(sends.len(), 5);
    let mut seen = sends.iter().map(|(d, _)| d.port).collect::<Vec<_>>();
    seen.sort();
    assert_eq!(seen, vec![20000, 20001, 20002, 20003, 20004]);
}
