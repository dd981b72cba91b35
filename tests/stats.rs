use tracker::stats::{Torrent, TorrentStore};

fn store() -> TorrentStore {
    TorrentStore::new(vec![Torrent::new("AAAAAAAAAAAAAAAAAAAA".to_string(), 3, 7, 2, 9)])
}

#[test]
fn later_record_replaces_earlier() {
    let s = TorrentStore::new(vec![
        Torrent::new("AAAAAAAAAAAAAAAAAAAA".to_string(), 1, 1, 1, 1),
        Torrent::new("BBBBBBBBBBBBBBBBBBBB".to_string(), 5, 6, 7, 8),
        Torrent::new("AAAAAAAAAAAAAAAAAAAA".to_string(), 2, 2, 2, 2),
    ]);
    assert_eq!(s.get_announce_stats("AAAAAAAAAAAAAAAAAAAA".to_string()), (2, 2));
    assert_eq!(s.get_announce_stats("BBBBBBBBBBBBBBBBBBBB".to_string()), (5, 7));
}

#[test]
fn scrape_omits_unknown_hash() {
    let s = store();
    let rows = s.get_scrapes(vec!["BBBBBBBBBBBBBBBBBBBB".to_string(), "AAAAAAAAAAAAAAAAAAAA".to_string()]);
    assert_eq!(rows.len(), 1);
    assert_eq!(rows[0].info_hash, "AAAAAAAAAAAAAAAAAAAA");
    assert_eq!((rows[0].complete, rows[0].downloaded, rows[0].incomplete), (3, 7, 2));
    assert!(rows[0].name.is_none());
    assert!(s.get_scrapes(vec!["BBBBBBBBBBBBBBBBBBBB".to_string()]).is_empty());
}

#[test]
fn announce_stats_zero_for_unknown() {
    let s = store();
    assert_eq!(s.get_announce_stats("AAAAAAAAAAAAAAAAAAAA".to_string()), (3, 2));
    assert_eq!(s.get_announce_stats("BBBBBBBBBBBBBBBBBBBB".to_string()), (0, 0));
}

#[test]
fn seed_and_leech_counters() {
    let mut s = store();
    let h = "AAAAAAAAAAAAAAAAAAAA".to_string();
    s.new_seed(h.clone());
    assert_eq!(s.get_announce_stats(h.clone()), (4, 1));
    s.new_seed(h.clone());
    s.new_seed(h.clone());
    assert_eq!(s.get_announce_stats(h.clone()), (6, 0));
    s.new_leech(h.clone());
    assert_eq!(s.get_announce_stats(h.clone()), (6, 1));
    s.new_download(h.clone());
    assert_eq!(s.get_scrapes(vec![h.clone()])[0].downloaded, 8);
    s.new_seed("BBBBBBBBBBBBBBBBBBBB".to_string());
    assert_eq!(s.get_announce_stats("BBBBBBBBBBBBBBBBBBBB".to_string()), (0, 0));
}

#[test]
fn counters_saturate() {
    let mut s = TorrentStore::default();
    let h = "CCCCCCCCCCCCCCCCCCCC".to_string();
    s.insert_torrent(Torrent::new(h.clone(), u32::MAX, 0, u32::MAX, 0));
    s.new_leech(h.clone());
    assert_eq!(s.get_announce_stats(h.clone()), (u32::MAX, u32::MAX));
    s.new_seed(h.clone());
    assert_eq!(s.get_announce_stats(h.clone()), (u32::MAX, u32::MAX - 1));
}

#[test]
fn scrape_answers_sorted_distinct_known_hashes() {
    let mut s = store();
    s.insert_torrent(Torrent::new("0AAAAAAAAAAAAAAAAAAA".to_string(), 1, 2, 3, 0));
    let q = "info_hash=BBBBBBBBBBBBBBBBBBBB&info_hash=AAAAAAAAAAAAAAAAAAAA&info_hash=%30AAAAAAAAAAAAAAAAAAA&info_hash=AAAAAAAAAAAAAAAAAAAA";
    let out = tracker::scrape::parse_scrape(&s, q.as_bytes());
    assert_eq!(
        String::from_utf8(out).unwrap(),
        "d20:0AAAAAAAAAAAAAAAAAAAd8:completei1e10:downloadedi2e10:incompletei3ee20:AAAAAAAAAAAAAAAAAAAAd8:completei3e10:downloadedi7e10:incompletei2eee"
    );
}

#[test]
fn scrape_unknown_hash_is_empty_not_failure() {
    let s = store();
    let out = tracker::scrape::parse_scrape(&s, b"info_hash=BBBBBBBBBBBBBBBBBBBB");
    assert_eq!(out, b"de".to_vec());
}

#[test]
fn scrape_without_hash_fails() {
    let s = store();
    assert_eq!(
        tracker::scrape::parse_scrape(&s, b"foo=1"),
        b"d14:failure_reason17:Malformed requeste".to_vec()
    );
    assert_eq!(
        tracker::scrape::parse_scrape(&s, b"info_hash=short"),
        b"d14:failure_reason17:Malformed requeste".to_vec()
    );
}
