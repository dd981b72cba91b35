use tracker::peer::{Peer, Peerv4};
use tracker::registry::PeerStore;

fn localhost() -> u32 {
    u32::from_be_bytes([127, 0, 0, 1])
}

fn v4(id: &str, ip: u32, port: u16) -> Peer {
    Peer::V4(Peerv4 {
        peer_id: id.to_string(),
        ip,
        port,
    })
}

fn is_seeder(store: &PeerStore, info_hash: &String, peer: &Peer) -> bool {
    store.swarm(info_hash).unwrap().is_seeder(peer)
}

fn is_leecher(store: &PeerStore, info_hash: &String, peer: &Peer) -> bool {
    store.swarm(info_hash).unwrap().is_leecher(peer)
}

#[test]
fn memory_peer_storage_put_seeder_new_swarm() {
    let mut peer_store = PeerStore::new();
    let info_hash = "A1B2C3D4E5F6G7H8I9J0".to_string();
    let peer = v4("ABCDEFGHIJKLMNOPQRST", localhost(), 6893);

    peer_store.put_seeder(info_hash.clone(), peer.clone());
    assert_eq!(is_seeder(&peer_store, &info_hash, &peer), true);
}

#[test]
fn memory_peer_storage_put_seeder_prior_swarm() {
    let mut peer_store = PeerStore::new();
    let info_hash = "A1B2C3D4E5F6G7H8I9J0".to_string();
    let peer1 = v4("ABCDEFGHIJKLMNOPQRST", localhost(), 6893);
    peer_store.put_seeder(info_hash.clone(), peer1);

    let peer2 = v4("TSRQPONMLKJIHGFEDCBA", localhost(), 6881);
    peer_store.put_seeder(info_hash.clone(), peer2.clone());
    assert_eq!(is_seeder(&peer_store, &info_hash, &peer2), true);
}

#[test]
fn memory_peer_storage_put_leecher_new_swarm() {
    let mut peer_store = PeerStore::new();
    let info_hash = "A1B2C3D4E5F6G7H8I9J0".to_string();
    let peer = v4("ABCDEFGHIJKLMNOPQRST", localhost(), 6893);

    peer_store.put_leecher(info_hash.clone(), peer.clone());
    assert_eq!(is_leecher(&peer_store, &info_hash, &peer), true);
}

#[test]
fn memory_peer_storage_put_leecher_prior_swarm() {
    let mut peer_store = PeerStore::new();
    let info_hash = "A1B2C3D4E5F6G7H8I9J0".to_string();
    let peer1 = v4("ABCDEFGHIJKLMNOPQRST", localhost(), 6893);
    peer_store.put_seeder(info_hash.clone(), peer1);

    let peer2 = v4("TSRQPONMLKJIHGFEDCBA", localhost(), 6881);
    peer_store.put_leecher(info_hash.clone(), peer2.clone());
    assert_eq!(is_leecher(&peer_store, &info_hash, &peer2), true);
}

#[test]
fn memory_peer_storage_remove_seeder() {
    let mut peer_store = PeerStore::new();
    let info_hash = "A1B2C3D4E5F6G7H8I9J0".to_string();
    let peer = v4("ABCDEFGHIJKLMNOPQRST", localhost(), 6893);

    peer_store.put_seeder(info_hash.clone(), peer.clone());
    let _ = peer_store.remove_seeder(info_hash.clone(), peer.clone());
    assert_eq!(is_seeder(&peer_store, &info_hash, &peer), false);
}

#[test]
fn memory_peer_storage_remove_leecher() {
    let mut peer_store = PeerStore::new();
    let info_hash = "A1B2C3D4E5F6G7H8I9J0".to_string();
    let peer = v4("ABCDEFGHIJKLMNOPQRST", localhost(), 6893);

    peer_store.put_leecher(info_hash.clone(), peer.clone());
    let _ = peer_store.remove_leecher(info_hash.clone(), peer.clone());
    assert_eq!(is_leecher(&peer_store, &info_hash, &peer), false);
}

#[test]
fn memory_peer_storage_promote_leecher() {
    let mut peer_store = PeerStore::new();
    let info_hash = "A1B2C3D4E5F6G7H8I9J0".to_string();
    let peer = v4("ABCDEFGHIJKLMNOPQRST", localhost(), 6893);

    peer_store.put_leecher(info_hash.clone(), peer.clone());
    peer_store.promote_leecher(info_hash.clone(), peer.clone());
    assert_eq!(is_seeder(&peer_store, &info_hash, &peer), true);
}

#[test]
fn memory_peer_storage_update_peer() {
    let mut peer_store = PeerStore::new();
    let info_hash = "A1B2C3D4E5F6G7H8I9J0".to_string();
    let peer = v4("ABCDEFGHIJKLMNOPQRST", localhost(), 6893);
    peer_store.put_leecher(info_hash.clone(), peer.clone());

    let peer2 = v4("ABCDEFGHIJKLMNOPQRST", localhost(), 6893);
    peer_store.update_peer(info_hash.clone(), peer2.clone());
    assert_eq!(is_leecher(&peer_store, &info_hash, &peer2), true);
}

#[test]
fn put_seeder_takes_peer_out_of_leechers() {
    let mut store = PeerStore::new();
    let h = "A1B2C3D4E5F6G7H8I9J0".to_string();
    let p = v4("ABCDEFGHIJKLMNOPQRST", localhost(), 6893);
    store.put_leecher(h.clone(), p.clone());
    store.put_seeder(h.clone(), p.clone());
    assert!(is_seeder(&store, &h, &p));
    assert!(!is_leecher(&store, &h, &p));
}

#[test]
fn put_leecher_keeps_a_seeder_seeding() {
    let mut store = PeerStore::new();
    let h = "A1B2C3D4E5F6G7H8I9J0".to_string();
    let p = v4("ABCDEFGHIJKLMNOPQRST", localhost(), 6893);
    store.put_seeder(h.clone(), p.clone());
    store.put_leecher(h.clone(), p.clone());
    assert!(is_seeder(&store, &h, &p));
    assert!(!is_leecher(&store, &h, &p));
}

#[test]
fn promote_absent_peer_and_twice() {
    let mut store = PeerStore::new();
    let h = "A1B2C3D4E5F6G7H8I9J0".to_string();
    let other = v4("TSRQPONMLKJIHGFEDCBA", localhost(), 6881);
    let p = v4("ABCDEFGHIJKLMNOPQRST", localhost(), 6893);
    store.put_seeder(h.clone(), other);
    store.promote_leecher(h.clone(), p.clone());
    assert!(is_seeder(&store, &h, &p));
    store.promote_leecher(h.clone(), p.clone());
    assert!(is_seeder(&store, &h, &p));
    assert!(!is_leecher(&store, &h, &p));
}

#[test]
fn promote_on_unknown_hash_creates_nothing() {
    let mut store = PeerStore::new();
    let h = "A1B2C3D4E5F6G7H8I9J0".to_string();
    let p = v4("ABCDEFGHIJKLMNOPQRST", localhost(), 6893);
    store.promote_leecher(h.clone(), p);
    assert!(store.swarm(&h).is_none());
}

#[test]
fn remove_absent_peer_reports_not_removed() {
    let mut store = PeerStore::new();
    let h = "A1B2C3D4E5F6G7H8I9J0".to_string();
    let p = v4("ABCDEFGHIJKLMNOPQRST", localhost(), 6893);
    let q = v4("TSRQPONMLKJIHGFEDCBA", localhost(), 6881);
    assert!(!store.remove_seeder(h.clone(), p.clone()));
    assert!(!store.remove_leecher(h.clone(), p.clone()));
    store.put_seeder(h.clone(), q.clone());
    assert!(!store.remove_seeder(h.clone(), p.clone()));
    assert!(!store.remove_leecher(h.clone(), q.clone()));
    assert!(is_seeder(&store, &h, &q));
    assert!(store.remove_seeder(h.clone(), q.clone()));
}

#[test]
fn get_peers_bounded_and_complete() {
    let mut store = PeerStore::new();
    let h = "A1B2C3D4E5F6G7H8I9J0".to_string();
    for i in 0..10u16 {
        store.put_seeder(h.clone(), v4("ABCDEFGHIJKLMNOPQRST", localhost(), 7000 + i));
    }
    for i in 0..5u16 {
        store.put_leecher(h.clone(), v4("TSRQPONMLKJIHGFEDCBA", localhost(), 8000 + i));
    }
    let (a, b) = store.get_peers(h.clone(), 4);
    assert_eq!(a.len() + b.len(), 4);
    let mut ports: Vec<u16> = a.iter().map(|p| p.port).collect();
    ports.sort();
    ports.dedup();
    assert_eq!(ports.len(), 4);

    let (a, b) = store.get_peers(h.clone(), 100);
    assert_eq!(a.len(), 15);
    assert!(b.is_empty());

    let (a, b) = store.get_peers("unknown".to_string(), 100);
    assert!(a.is_empty() && b.is_empty());
}

#[test]
fn get_peers_merges_same_address() {
    let mut store = PeerStore::new();
    let h = "A1B2C3D4E5F6G7H8I9J0".to_string();
    store.put_seeder(h.clone(), v4("ABCDEFGHIJKLMNOPQRST", localhost(), 7000));
    store.put_leecher(h.clone(), v4("TSRQPONMLKJIHGFEDCBA", localhost(), 7000));
    let (a, _) = store.get_peers(h, 10);
    assert_eq!(a.len(), 1);
}
