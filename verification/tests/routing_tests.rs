use udp2p::{Key, NetAddr, PeerId, PeerInfo, RoutingTable};

fn setup(n_peers: usize) -> (RoutingTable, PeerInfo, Vec<PeerInfo>) {
    let local_key = Key::rand();
    let local_id = PeerId::from_key(&local_key);
    let rn: usize = 9292 + rand::Rng::gen_range(&mut rand::thread_rng(), 0..10000);
    let local_addr = NetAddr::new(0x7F000001, rn as u16);
    let local_info = PeerInfo::new(local_id, local_key, local_addr);
    let routing_table = RoutingTable::new(local_info.clone());
    let mut peers = vec![];
    for _ in 0..n_peers {
        let peer_key = Key::rand();
        let peer_id = PeerId::from_key(&peer_key);
        let rn: usize = 9292 + rand::Rng::gen_range(&mut rand::thread_rng(), 0..10000);
        let peer_addr = NetAddr::new(0x7F000001, rn as u16);
        let peer_info = PeerInfo::new(peer_id, peer_key, peer_addr);
        peers.push(peer_info);
    }
    (routing_table, local_info, peers)
}

fn table_contains(rt: &RoutingTable, peer: &PeerInfo) -> bool {
    rt.tree.iter().any(|(_, v)| v.contains(peer))
}

#[test]
fn kad_add_address_works() {
    let (mut rt, _local, peers) = setup(5);
    let peer = peers[0].clone();
    let test_kad = table_contains(&rt, &peer);
    assert_eq!(test_kad, false);
    rt.update_peer(&peer, 0);
    let test_kad = table_contains(&rt, &peer);
    assert_eq!(test_kad, true);
    assert!(rt.size() <= 2);
}

#[test]
fn kad_split_bucket_works() {
    let (mut rt, _local, peers) = setup(90);
    let rn: usize = rand::Rng::gen_range(&mut rand::thread_rng(), 0..peers.len() - 1);
    let random_peer = peers[rn].clone();
    let test_kad = table_contains(&rt, &random_peer);
    assert!(!test_kad);

    peers.iter().for_each(|peer| {
        rt.update_peer(peer, 0);
    });

    let test_kad = table_contains(&rt, &random_peer);

    let mut sum = 0;
    rt.tree.iter().for_each(|(_, v)| {
        sum += v.size();
    });

    assert!(sum == 91);
    assert!(rt.size() > 2);
    assert!(test_kad);
}

#[test]
fn kad_get_closest_peers_works() {
    let (mut kad, _local, peers) = setup(90);
    peers.iter().for_each(|peer| {
        kad.update_peer(peer, 0);
    });
    let peer = peers[5].clone();
    let four_closest_peers = kad.get_closest_peers(peer.clone(), 4);
    let eight_closest_peers = kad.get_closest_peers(peer.clone(), 8);
    let twelve_closest_peers = kad.get_closest_peers(peer.clone(), 12);
    let fifty_closest_peers = kad.get_closest_peers(peer.clone(), 50);
    assert_eq!(four_closest_peers.len(), 4);
    assert_eq!(eight_closest_peers.len(), 8);
    assert_eq!(twelve_closest_peers.len(), 12);
    assert_eq!(fifty_closest_peers.len(), 50);
}

#[test]
fn closest_peers_sorted_by_distance() {
    let (mut rt, _local, peers) = setup(40);
    for peer in &peers {
        rt.update_peer(peer, 0);
    }
    let target = peers[3].clone();
    let closest = rt.get_closest_peers(target.clone(), 10);
    assert_eq!(closest.len(), 10);
    for w in closest.windows(2) {
        let da = w[0].get_key().xor(target.get_key()).get_key();
        let db = w[1].get_key().xor(target.get_key()).get_key();
        assert!(da <= db);
    }
}

#[test]
fn bucket_capacity_respected() {
    let (mut rt, _local, peers) = setup(120);
    for peer in &peers {
        rt.update_peer(peer, 0);
    }
    for (_, bucket) in rt.tree.iter() {
        assert!(bucket.size() <= 30);
    }
}

#[test]
fn new_peer_lands_in_one_bucket() {
    let (mut rt, _local, peers) = setup(1);
    let peer = peers[0].clone();
    assert!(rt.is_new(&peer));
    let placed = rt.update_peer(&peer, 0);
    assert!(placed);
    assert!(!rt.is_new(&peer));
    let holding = rt.tree.iter().filter(|(_, v)| v.contains(&peer)).count();
    assert_eq!(holding, 1);
}

#[test]
fn key_prefix_and_leading_zeros() {
    let mut raw = [0u8; 32];
    raw[0] = 0x80;
    let key = Key::new(raw);
    assert_eq!(key.leading_zeros(), 0);
    assert_eq!(key.get_prefix(0), "1");
    assert_eq!(key.get_prefix(3), "1000");
    let zero = Key::new([0u8; 32]);
    assert_eq!(zero.leading_zeros(), 256);
    assert_eq!(zero.get_binary().len(), 256);
    let mut one = [0u8; 32];
    one[0] = 0x01;
    let k1 = Key::new(one);
    assert_eq!(k1.leading_zeros(), 7);
    assert_eq!(k1.get_prefix(7), "00000001");
}

#[test]
fn peer_id_is_digest_of_key() {
    let key = Key::new([0u8; 32]);
    let id = PeerId::from_key(&key);
    assert_eq!(
        id.get_id(),
        "66687aadf862bd776c8fc18b8e9f8e20089714856ee233b3902a591d0d5f2925"
    );
    let other = PeerId::from_key(&Key::new([0u8; 32]));
    assert!(id == other);
}

#[test]
fn duplicate_insert_refreshes_in_place() {
    let (mut rt, _local, peers) = setup(1);
    let peer = peers[0].clone();
    assert!(rt.update_peer(&peer, 0));
    let count_after_first = rt.total_peers();
    let moved = PeerInfo::new(peer.get_id(), peer.get_key(), NetAddr::new(0x7F000001, 4242));
    assert!(rt.update_peer(&moved, 0));
    assert_eq!(rt.total_peers(), count_after_first);
    let holding = rt.tree.iter().filter(|(_, v)| v.contains(&moved)).count();
    assert_eq!(holding, 1);
}
