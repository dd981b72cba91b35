//! The announce handler: read the request, update the registry and the
//! statistics, answer with a sorted selection of other peers.
use vstd::prelude::*;

use crate::order::{arrange_v4, arrange_v6, v4_sorted, v6_sorted};
use crate::peer::{compact_of, CompactPeer, Peer, PeerModel, Peerv4, Peerv6};
use crate::registry::{compact_set, family_set, PeerStore};
use crate::request::{announce_spec, AnnounceRequest, Event};
use crate::response::{announce_enc, encode_announce_response, encode_failure, failure_enc, AnnounceResponse};
use crate::stats::{sat_inc, Counters, TorrentStore};
use crate::text::latin1;
use crate::value::enc;
use crate::wire::{announce_value, failure_value, lemma_announce_is_bencode, lemma_failure_is_bencode};

verus! {

/// Seconds that a client waits before its next announce.
pub const INTERVAL: u32 = 60;

/// The address a request came from, as seen by the server.
#[derive(Clone, Copy, Debug, PartialEq, Eq, Structural)]
pub enum RemoteAddr {
    V4(u32),
    V6(u128),
}

pub open spec fn malformed() -> Seq<u8> {
    seq![77u8, 97, 108, 102, 111, 114, 109, 101, 100, 32, 114, 101, 113, 117, 101, 115, 116]
}

/// The requesting peer: its identifier, the observed address and the
/// declared port. A client-declared address is not trusted.
pub open spec fn requester(peer_id: Seq<char>, remote: RemoteAddr, port: u16) -> PeerModel {
    match remote {
        RemoteAddr::V4(ip) => PeerModel::V4(peer_id, ip, port),
        RemoteAddr::V6(ip) => PeerModel::V6(peer_id, ip, port),
    }
}

pub fn requesting_peer(req: &AnnounceRequest, remote: RemoteAddr) -> (r: Peer)
    ensures
        r@ == requester(req.peer_id@, remote, req.port),
{
    match remote {
        RemoteAddr::V4(ip) => Peer::V4(Peerv4 { peer_id: req.peer_id.clone(), ip, port: req.port }),
        RemoteAddr::V6(ip) => Peer::V6(Peerv6 { peer_id: req.peer_id.clone(), ip, port: req.port }),
    }
}

/// The seeders of the hash after an announce: a peer with nothing left
/// becomes a seeder, `completed` promotes it where the hash has a swarm,
/// `stopped` removes it.
pub open spec fn seeders_after(
    s: PeerStore,
    h: Seq<char>,
    p: PeerModel,
    ev: Event,
    left: u64,
) -> Set<PeerModel> {
    match ev {
        Event::Stopped => s.seeders_of(h).remove(p),
        Event::Completed => if s.swarms().contains_key(h) {
            s.seeders_of(h).insert(p)
        } else {
            s.seeders_of(h)
        },
        _ => if left == 0 {
            s.seeders_of(h).insert(p)
        } else {
            s.seeders_of(h)
        },
    }
}

/// The leechers of the hash after an announce: a peer with something left
/// becomes a leecher unless it already seeds.
pub open spec fn leechers_after(
    s: PeerStore,
    h: Seq<char>,
    p: PeerModel,
    ev: Event,
    left: u64,
) -> Set<PeerModel> {
    match ev {
        Event::Stopped => s.leechers_of(h).remove(p),
        Event::Completed => if s.swarms().contains_key(h) {
            s.leechers_of(h).remove(p)
        } else {
            s.leechers_of(h)
        },
        _ => if left == 0 {
            s.leechers_of(h).remove(p)
        } else if s.seeders_of(h).contains(p) {
            s.leechers_of(h)
        } else {
            s.leechers_of(h).insert(p)
        },
    }
}

/// The counters of the hash after an announce: a completion is counted
/// where the hash is known; other events leave them as they are.
pub open spec fn counters_after(s: TorrentStore, h: Seq<char>, ev: Event) -> Counters {
    let (c, d, i, b) = s.counters_of(h);
    if ev == Event::Completed && s.records().contains_key(h) {
        (c, sat_inc(d), i, b)
    } else {
        (c, d, i, b)
    }
}

/// Applies the event of an announce to the registry, and counts a
/// completion in the statistics.
pub fn apply_event(
    peers: &mut PeerStore,
    stats: &mut TorrentStore,
    info_hash: &String,
    peer: Peer,
    event: Event,
    left: u64,
)
    requires
        old(peers).wf(),
    ensures
        final(peers).wf(),
        final(peers).seeders_of(info_hash@) == seeders_after(*old(peers), info_hash@, peer@, event, left),
        final(peers).leechers_of(info_hash@) == leechers_after(*old(peers), info_hash@, peer@, event, left),
        final(peers).same_except(old(peers), info_hash@),
        final(peers).swarms().contains_key(info_hash@) == (old(peers).swarms().contains_key(info_hash@)
            || event == Event::Periodic || event == Event::Started),
        final(stats).records().dom() == old(stats).records().dom(),
        final(stats).same_except(old(stats), info_hash@),
        final(stats).counters_of(info_hash@) == counters_after(*old(stats), info_hash@, event),
{
    match event {
        Event::Stopped => {
            peers.remove_seeder(info_hash.clone(), peer.clone());
            peers.remove_leecher(info_hash.clone(), peer);
            proof {
                assert(stats.records().dom() =~= old(stats).records().dom());
            }
        },
        Event::Completed => {
            peers.promote_leecher(info_hash.clone(), peer);
            stats.new_download(info_hash.clone());
        },
        _ => {
            if left == 0 {
                peers.put_seeder(info_hash.clone(), peer);
            } else {
                peers.put_leecher(info_hash.clone(), peer);
            }
            proof {
                assert(stats.records().dom() =~= old(stats).records().dom());
            }
        },
    }
}

/// Everything an announce answer may hold for a given registry state and
/// requesting peer: the statistics' counts, the lists sorted, without
/// repeats and without the requester, drawn from the hash's peers, and all
/// of them where there are no more than `numwant`.
pub open spec fn answer_fits(
    resp: AnnounceResponse,
    tracker_id: Seq<u8>,
    peers: PeerStore,
    stats: TorrentStore,
    h: Seq<char>,
    me: PeerModel,
    numwant: u32,
) -> bool {
    let pool = compact_set(peers.peers_of(h));
    &&& resp.interval == INTERVAL
    &&& resp.complete == stats.counters_of(h).0
    &&& resp.incomplete == stats.counters_of(h).2
    &&& resp.tracker_id@ == tracker_id
    &&& v4_sorted(resp.peers@)
    &&& v6_sorted(resp.peers6@)
    &&& resp.peers@.no_duplicates()
    &&& resp.peers6@.no_duplicates()
    &&& family_set(resp.peers@, resp.peers6@).subset_of(pool.remove(compact_of(me)))
    &&& resp.peers@.len() + resp.peers6@.len() <= numwant
    &&& pool.len() <= numwant ==> family_set(resp.peers@, resp.peers6@) == pool.remove(
        compact_of(me),
    )
}

/// Answers an announce query from `remote`. The body is the bencoding of a
/// valid value, so `decode` reads that value back. A malformed query gets the
/// failure dictionary and changes nothing; a well-formed one updates the
/// registry and the statistics by its event and gets the announce
/// dictionary.
pub fn parse_announce(
    peers: &mut PeerStore,
    stats: &mut TorrentStore,
    query: &[u8],
    remote: RemoteAddr,
    tracker_id: &[u8],
) -> (out: Vec<u8>)
    requires
        old(peers).wf(),
    ensures
        final(peers).wf(),
        announce_spec(query@) is None ==> out@ == failure_enc(malformed()) && out@ == enc(
            failure_value(malformed()),
        ) && final(peers).swarms()
            == old(peers).swarms() && final(stats).records() == old(stats).records(),
        announce_spec(query@) matches Some(m) ==> {
            let h = latin1(m.info_hash);
            let me = requester(latin1(m.peer_id), remote, m.port);
            &&& final(peers).seeders_of(h) == seeders_after(*old(peers), h, me, m.event, m.left)
            &&& final(peers).leechers_of(h) == leechers_after(*old(peers), h, me, m.event, m.left)
            &&& final(peers).same_except(old(peers), h)
            &&& final(peers).swarms().contains_key(h) == (old(peers).swarms().contains_key(h)
                || m.event == Event::Periodic || m.event == Event::Started)
            &&& final(stats).same_except(old(stats), h)
            &&& final(stats).records().dom() == old(stats).records().dom()
            &&& final(stats).counters_of(h) == counters_after(*old(stats), h, m.event)
            &&& exists|resp: AnnounceResponse|
                out@ == announce_enc(resp, m.compact) && out@ == enc(announce_value(resp, m.compact))
                    && answer_fits(
                    resp,
                    tracker_id@,
                    *final(peers),
                    *final(stats),
                    h,
                    me,
                    m.numwant,
                )
        },
{
    match AnnounceRequest::parse(query) {
        None => {
            let reason: [u8; 17] = [77, 97, 108, 102, 111, 114, 109, 101, 100, 32, 114, 101, 113, 117, 101, 115, 116];
            proof {
                assert(reason@ == malformed());
            }
            proof {
                lemma_failure_is_bencode(reason@);
            }
            encode_failure(reason.as_slice())
        },
        Some(req) => {
            let me = requesting_peer(&req, remote);
            let me_compact = me.compact();
            apply_event(peers, stats, &req.info_hash, me, req.event, req.left);
            let (v4, v6) = peers.get_peers(req.info_hash.clone(), req.numwant);
            let (me4, me6) = match me_compact {
                CompactPeer::V4(c) => (Some(c), None),
                CompactPeer::V6(c) => (None, Some(c)),
            };
            let a4 = arrange_v4(&v4, me4);
            let a6 = arrange_v6(&v6, me6);
            let (complete, incomplete) = stats.get_announce_stats(req.info_hash.clone());
            let resp = AnnounceResponse {
                interval: INTERVAL,
                complete,
                incomplete,
                tracker_id: vstd::slice::slice_to_vec(tracker_id),
                peers: a4,
                peers6: a6,
            };
            let out = encode_announce_response(&resp, req.compact);
            proof {
                let h = req.info_hash@;
                let pool = compact_set(peers.peers_of(h));
                let c = compact_of(me@);
                assert(family_set(a4@, a6@) =~= family_set(v4@, v6@).remove(c)) by {
                    assert forall|d: CompactPeer| #[trigger] family_set(a4@, a6@).contains(d) == family_set(v4@, v6@).remove(c).contains(d) by {
                        match d {
                            CompactPeer::V4(z) => {
                                assert(a4@.to_set().contains(z) == a4@.contains(z));
                                assert(v4@.to_set().contains(z) == v4@.contains(z));
                            },
                            CompactPeer::V6(z) => {
                                assert(a6@.to_set().contains(z) == a6@.contains(z));
                                assert(v6@.to_set().contains(z) == v6@.contains(z));
                            },
                        }
                    }
                }
                a4@.unique_seq_to_set();
                a6@.unique_seq_to_set();
                v4@.unique_seq_to_set();
                v6@.unique_seq_to_set();
                assert(a4@.to_set().subset_of(v4@.to_set()));
                assert(a6@.to_set().subset_of(v6@.to_set()));
                vstd::set_lib::lemma_len_subset(a4@.to_set(), v4@.to_set());
                vstd::set_lib::lemma_len_subset(a6@.to_set(), v6@.to_set());
                assert(answer_fits(resp, tracker_id@, *peers, *stats, h, me@, req.numwant));
                lemma_announce_is_bencode(resp, req.compact);
            }
            out
        },
    }
}

} // verus!
