use udp2p::{
    packetize, AckMessage, Dispatch, GDUdp, Header, Message, MessageHandler, NetAddr, Packet,
    MAX_SEND_ATTEMPTS,
};

#[test]
fn packetize_single_packet() {
    let bytes = vec![0xABu8, 0x01, 0xFF];
    let id = [7u8; 32];
    let packets = packetize(bytes, id, 1);
    assert_eq!(packets.len(), 1);
    assert_eq!(packets[0].n, 1);
    assert_eq!(packets[0].total_n, 1);
    assert_eq!(packets[0].ret, 1);
    assert_eq!(packets[0].id, id);
    assert_eq!(packets[0].bytes, "ab01ff");
}

#[test]
fn packetize_empty_message() {
    let packets = packetize(Vec::new(), [0u8; 32], 0);
    assert_eq!(packets.len(), 1);
    assert_eq!(packets[0].bytes, "");
    assert_eq!(packets[0].ret, 0);
}

#[test]
fn packetize_round_trip_four_packets() {
    // A 100000-byte payload cuts into ceil(100000 / 32500) = 4 packets.
    let mut payload = Vec::new();
    for i in 0..100000usize {
        payload.push((i % 251) as u8);
    }
    let inner = Message { head: Header::Gossip, msg: payload.clone() };
    let wire = inner.as_bytes();
    let packets = packetize(wire, [9u8; 32], 1);
    assert_eq!(packets.len(), 4);
    for (i, p) in packets.iter().enumerate() {
        assert_eq!(p.n, i + 1);
        assert_eq!(p.total_n, 4);
        assert_eq!(p.ret, 1);
    }
    let mut handler = MessageHandler::new(Vec::new());
    let src = NetAddr::new(1, 2);
    let mut delivered = 0;
    let mut got = None;
    for p in packets {
        match handler.insert_packet(p, src) {
            Some(d) => {
                delivered += 1;
                got = Some(d);
            },
            None => {},
        }
    }
    assert_eq!(delivered, 1);
    match got {
        Some(Dispatch::Gossip(a, m)) => {
            assert!(a == src);
            assert_eq!(m.msg, payload);
        },
        _ => panic!("expected a gossip dispatch"),
    }
}

#[test]
fn return_receipt_builds_ack() {
    let handler = MessageHandler::new(Vec::new());
    let local = NetAddr::new(0x7F000001, 4000);
    let src = NetAddr::new(0x7F000001, 4001);
    let packets = packetize(vec![1, 2, 3], [3u8; 32], 1);
    let wire = packets[0].as_bytes();
    let got = handler.process_packet(local, wire.as_slice(), src);
    let (packet, ack) = got.expect("packet should decode");
    assert_eq!(packet.n, 1);
    let (ack_dest, ack_msg) = ack.expect("return receipt should yield an ack");
    assert!(ack_dest == src);
    assert!(matches!(ack_msg.head, Header::Ack));
    let decoded = AckMessage::from_bytes(ack_msg.msg.as_slice()).expect("ack should decode");
    assert_eq!(decoded.packet_id, [3u8; 32]);
    assert_eq!(decoded.packet_number, 1);
    assert_eq!(NetAddr::from_bytes(decoded.src.as_slice()), Some(local));
}

#[test]
fn ack_recording_is_idempotent() {
    let local = NetAddr::new(0x7F000001, 5000);
    let peer = NetAddr::new(0x7F000001, 5001);
    let mut gd = GDUdp::new(local);
    let packets = packetize(vec![5, 6], [1u8; 32], 1);
    gd.send_reliable(&peer, &packets[0]);
    let src_bytes = peer.to_bytes();
    gd.process_ack([1u8; 32], 1, src_bytes.clone());
    let first = gd.outbox[0].entries[0].acked.len();
    gd.process_ack([1u8; 32], 1, src_bytes);
    let second = gd.outbox[0].entries[0].acked.len();
    assert_eq!(first, 1);
    assert_eq!(second, 1);
}

#[test]
fn maintain_purges_acknowledged_and_exhausted() {
    let local = NetAddr::new(0x7F000001, 5002);
    let peer = NetAddr::new(0x7F000001, 5003);
    let mut gd = GDUdp::new(local);
    let packets = packetize(vec![9], [2u8; 32], 1);
    gd.send_reliable(&peer, &packets[0]);
    gd.process_ack([2u8; 32], 1, peer.to_bytes());
    let sends = gd.maintain();
    assert_eq!(sends.len(), 0);
    assert_eq!(gd.outbox.len(), 0);
}

#[test]
fn reliable_delivery_after_lost_first_send() {
    // The first transmission of every packet is lost; the retransmission is
    // acknowledged, and the outbox then drains with attempts within the cap.
    let local = NetAddr::new(0x7F000001, 5004);
    let peer = NetAddr::new(0x7F000001, 5005);
    let mut gd = GDUdp::new(local);
    let mut ids = Vec::new();
    for m in 0..3u8 {
        let id = [m + 10; 32];
        ids.push(id);
        let packets = packetize(vec![m, m, m], id, 1);
        for p in &packets {
            gd.send_reliable(&peer, p);
        }
    }
    // First transmissions dropped: nothing acknowledged yet, so maintenance
    // retransmits every packet once.
    let resends = gd.maintain();
    assert_eq!(resends.len(), 3);
    for (dest, packet) in &resends {
        assert!(*dest == peer);
        gd.process_ack(packet.id, packet.n, peer.to_bytes());
    }
    let after = gd.maintain();
    assert_eq!(after.len(), 0);
    assert_eq!(gd.outbox.len(), 0);
}

#[test]
fn attempt_cap_purges_silent_peer() {
    // A peer that never acknowledges: the entry is retried until five
    // attempts stand, then purged; no further transmission follows.
    let local = NetAddr::new(0x7F000001, 5006);
    let peer = NetAddr::new(0x7F000001, 5007);
    let mut gd = GDUdp::new(local);
    let packets = packetize(vec![42], [77u8; 32], 1);
    gd.send_reliable(&peer, &packets[0]);
    let mut transmissions = 1;
    for _ in 0..10 {
        let resends = gd.maintain();
        transmissions += resends.len();
    }
    assert_eq!(gd.outbox.len(), 0);
    assert!(transmissions <= MAX_SEND_ATTEMPTS);
    // Once purged, further maintenance sends nothing.
    assert_eq!(gd.maintain().len(), 0);
}

#[test]
fn packet_wire_round_trip() {
    let packets = packetize(vec![1, 2, 3, 4], [8u8; 32], 0);
    let wire = packets[0].as_bytes();
    let back = Packet::from_bytes(wire.as_slice()).expect("round trip");
    assert_eq!(back.id, packets[0].id);
    assert_eq!(back.n, packets[0].n);
    assert_eq!(back.total_n, packets[0].total_n);
    assert_eq!(back.bytes, packets[0].bytes);
    assert_eq!(back.ret, packets[0].ret);
}
