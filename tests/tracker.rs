use tracker::peer::{Peer, Peerv4, Peerv6};
use tracker::registry::PeerStore;
use tracker::stats::{Torrent, TorrentStore};
use tracker::tracker::{parse_announce, RemoteAddr};
use tracker::value::{decode, Value};

fn ipv6(groups: [u16; 8]) -> u128 {
    let mut x: u128 = 0;
    for g in groups {
        x = (x << 16) | g as u128;
    }
    x
}

fn swarm_of_four() -> PeerStore {
    let mut store = PeerStore::new();
    let info_hash = "A1B2C3D4E5F6G7H8I9J0".to_string();
    let peerv4_1 = Peer::V4(Peerv4 {
        peer_id: "ABCDEFGHIJKLMNOPQRST".to_string(),
        ip: u32::from_be_bytes([127, 0, 0, 1]),
        port: 6893,
    });
    let peerv4_2 = Peer::V4(Peerv4 {
        peer_id: "ABCDEFGHIJKLMNOPQRST".to_string(),
        ip: u32::from_be_bytes([255, 255, 255, 255]),
        port: 6894,
    });
    store.put_seeder(info_hash.clone(), peerv4_2);
    store.put_seeder(info_hash.clone(), peerv4_1);
    let peerv6_1 = Peer::V6(Peerv6 {
        peer_id: "ABCDEFGHIJKLMNOPABCD".to_string(),
        ip: ipv6([0x2001, 0x0db8, 0x85a3, 0x0000, 0x0000, 0x8a2e, 0x0370, 0x7334]),
        port: 6681,
    });
    store.put_seeder(info_hash.clone(), peerv6_1);
    let peerv6_2 = Peer::V6(Peerv6 {
        peer_id: "ABCDEFGHIJKLMNOPZZZZ".to_string(),
        ip: ipv6([0xfe80, 0x0000, 0x0000, 0x0000, 0x0202, 0xb3ff, 0xfe1e, 0x8329]),
        port: 6699,
    });
    store.put_seeder(info_hash.clone(), peerv6_2);
    store
}

#[test]
fn announce_get_success() {
    let mut store = swarm_of_four();
    let mut stats = TorrentStore::default();
    stats.insert_torrent(Torrent::new("A1B2C3D4E5F6G7H8I9J0".to_string(), 100, 0, 23, 0));

    let uri = "info_hash=A1B2C3D4E5F6G7H8I9J0\
               &peer_id=ABCDEFGHIJKLMNOPQRST&port=6881&uploaded=0&downloaded=0\
               &left=727955456&event=started&numwant=100&no_peer_id=1&compact=1";
    let proper_resp = "d8:completei100e10:incompletei23e8:intervali60e5:peersli127ei0ei0ei1ei26ei237ei255ei255ei255ei255ei26ei238ee6:peers6li32ei1ei13ei184ei133ei163ei0ei0ei0ei0ei138ei46ei3ei112ei115ei52ei26ei25ei254ei128ei0ei0ei0ei0ei0ei0ei2ei2ei179ei255ei254ei30ei131ei41ei26ei43ee10:tracker_id0:e";
    let resp = parse_announce(
        &mut store,
        &mut stats,
        uri.as_bytes(),
        RemoteAddr::V4(u32::from_be_bytes([127, 0, 0, 1])),
        b"",
    );
    assert_eq!(resp, proper_resp.as_bytes());
}

#[test]
fn announce_get_malformed() {
    let mut store = PeerStore::new();
    let mut stats = TorrentStore::default();
    let resp = parse_announce(
        &mut store,
        &mut stats,
        "bad_stuff=123".as_bytes(),
        RemoteAddr::V4(u32::from_be_bytes([127, 0, 0, 1])),
        b"",
    );
    assert_eq!(resp, "d14:failure_reason17:Malformed requeste".as_bytes());
}

#[test]
fn announce_without_info_hash_fails() {
    let mut store = PeerStore::new();
    let mut stats = TorrentStore::default();
    let q = "peer_id=ABCDEFGHIJKLMNOPQRST&port=6881&uploaded=0&downloaded=0&left=0";
    let resp = parse_announce(&mut store, &mut stats, q.as_bytes(), RemoteAddr::V4(1), b"");
    assert_eq!(resp, "d14:failure_reason17:Malformed requeste".as_bytes());
}

#[test]
fn announce_rejects_bad_fields() {
    let bad = [
        "info_hash=SHORT&peer_id=ABCDEFGHIJKLMNOPQRST&port=1&uploaded=0&downloaded=0&left=0",
        "info_hash=A1B2C3D4E5F6G7H8I9J0&peer_id=ABCDEFGHIJKLMNOPQRST&port=70000&uploaded=0&downloaded=0&left=0",
        "info_hash=A1B2C3D4E5F6G7H8I9J0&peer_id=ABCDEFGHIJKLMNOPQRST&port=1&uploaded=x&downloaded=0&left=0",
        "info_hash=A1B2C3D4E5F6G7H8I9J0&peer_id=ABCDEFGHIJKLMNOPQRST&port=1&uploaded=0&downloaded=0&left=0&event=paused",
        "info_hash=A1B2C3D4E5F6G7H8I9J%&peer_id=ABCDEFGHIJKLMNOPQRST&port=1&uploaded=0&downloaded=0&left=0",
    ];
    for q in bad {
        let mut store = PeerStore::new();
        let mut stats = TorrentStore::default();
        let resp = parse_announce(&mut store, &mut stats, q.as_bytes(), RemoteAddr::V4(1), b"");
        assert_eq!(resp, "d14:failure_reason17:Malformed requeste".as_bytes(), "{}", q);
    }
}

#[test]
fn announce_percent_encoded_hash_and_events() {
    let mut store = PeerStore::new();
    let mut stats = TorrentStore::default();
    stats.insert_torrent(Torrent::new("A1B2C3D4E5F6G7H8I9J0".to_string(), 0, 0, 0, 0));
    let me = RemoteAddr::V4(u32::from_be_bytes([10, 0, 0, 2]));
    let q = "info_hash=%41%31B2C3D4E5F6G7H8I9J0&peer_id=ABCDEFGHIJKLMNOPQRST&port=6881&uploaded=0&downloaded=0&left=5";
    let resp = parse_announce(&mut store, &mut stats, q.as_bytes(), me, b"xy");
    assert_eq!(
        resp,
        "d8:completei0e10:incompletei0e8:intervali60e5:peersle6:peers6le10:tracker_id2:xye".as_bytes()
    );
    let h = "A1B2C3D4E5F6G7H8I9J0".to_string();
    let peer = Peer::V4(Peerv4 {
        peer_id: "ABCDEFGHIJKLMNOPQRST".to_string(),
        ip: u32::from_be_bytes([10, 0, 0, 2]),
        port: 6881,
    });
    assert!(store.swarm(&h).unwrap().is_leecher(&peer));

    let q = "info_hash=A1B2C3D4E5F6G7H8I9J0&peer_id=ABCDEFGHIJKLMNOPQRST&port=6881&uploaded=0&downloaded=0&left=0&event=completed";
    parse_announce(&mut store, &mut stats, q.as_bytes(), me, b"");
    assert!(store.swarm(&h).unwrap().is_seeder(&peer));
    assert!(!store.swarm(&h).unwrap().is_leecher(&peer));
    let scr = stats.get_scrapes(vec![h.clone()]);
    assert_eq!(scr[0].downloaded, 1);

    let q = "info_hash=A1B2C3D4E5F6G7H8I9J0&peer_id=ABCDEFGHIJKLMNOPQRST&port=6881&uploaded=0&downloaded=0&left=0&event=stopped";
    parse_announce(&mut store, &mut stats, q.as_bytes(), me, b"");
    assert!(!store.swarm(&h).unwrap().is_seeder(&peer));
}

#[test]
fn announce_dictionary_form() {
    let mut store = PeerStore::new();
    let h = "A1B2C3D4E5F6G7H8I9J0".to_string();
    store.put_seeder(
        h.clone(),
        Peer::V4(Peerv4 {
            peer_id: "TSRQPONMLKJIHGFEDCBA".to_string(),
            ip: u32::from_be_bytes([192, 168, 1, 20]),
            port: 80,
        }),
    );
    store.put_seeder(
        h.clone(),
        Peer::V6(Peerv6 {
            peer_id: "TSRQPONMLKJIHGFEDCBA".to_string(),
            ip: ipv6([0xfe80, 0, 0, 0, 0, 0, 0, 0x1a]),
            port: 443,
        }),
    );
    let mut stats = TorrentStore::default();
    let q = "info_hash=A1B2C3D4E5F6G7H8I9J0&peer_id=ABCDEFGHIJKLMNOPQRST&port=6881&uploaded=0&downloaded=0&left=0&compact=0";
    let resp = parse_announce(&mut store, &mut stats, q.as_bytes(), RemoteAddr::V4(1), b"");
    assert_eq!(
        String::from_utf8(resp).unwrap(),
        "d8:completei0e10:incompletei0e8:intervali60e5:peersld2:ip12:192.168.1.204:porti80eee6:peers6ld2:ip19:fe80:0:0:0:0:0:0:1a4:porti443eee10:tracker_id0:e"
    );
}

#[test]
fn announce_bodies_decode_as_bencode() {
    let mut store = swarm_of_four();
    let mut stats = TorrentStore::default();
    let q = "info_hash=A1B2C3D4E5F6G7H8I9J0&peer_id=ABCDEFGHIJKLMNOPQRST&port=6881&uploaded=0&downloaded=0&left=1&compact=1";
    let body = parse_announce(&mut store, &mut stats, q.as_bytes(), RemoteAddr::V4(1), b"id");
    match decode(&body) {
        Some(Value::Dict(es)) => {
            let keys: Vec<Vec<u8>> = es.iter().map(|e| e.0.clone()).collect();
            assert_eq!(
                keys,
                vec![
                    b"complete".to_vec(),
                    b"incomplete".to_vec(),
                    b"interval".to_vec(),
                    b"peers".to_vec(),
                    b"peers6".to_vec(),
                    b"tracker_id".to_vec()
                ]
            );
            assert_eq!(es[5].1, Value::Bytes(b"id".to_vec()));
        }
        other => panic!("not a dictionary: {:?}", other),
    }
    let failure = parse_announce(&mut store, &mut stats, b"x=1", RemoteAddr::V4(1), b"");
    assert_eq!(
        decode(&failure),
        Some(Value::Dict(vec![(
            b"failure_reason".to_vec(),
            Value::Bytes(b"Malformed request".to_vec())
        )]))
    );
}

#[test]
fn stopped_on_unknown_hash_creates_no_swarm() {
    let mut store = PeerStore::new();
    let mut stats = TorrentStore::default();
    let q = "info_hash=A1B2C3D4E5F6G7H8I9J0&peer_id=ABCDEFGHIJKLMNOPQRST&port=6881&uploaded=0&downloaded=0&left=0&event=stopped";
    parse_announce(&mut store, &mut stats, q.as_bytes(), RemoteAddr::V4(1), b"");
    assert!(store.swarm(&"A1B2C3D4E5F6G7H8I9J0".to_string()).is_none());
}
