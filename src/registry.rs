//! The swarm registry: info hash to swarm, created lazily.
use vstd::prelude::*;

use crate::peer::{compact_of, CompactPeer, CompactPeerv4, CompactPeerv6, Peer, PeerModel};
use crate::sampler::PeerList;
use crate::swarm::Swarm;

verus! {

/// Swarms keyed by info hash, held in a `hashbrown::HashMap`.
#[verifier::external_body]
pub struct SwarmMap {
    inner: hashbrown::HashMap<String, Swarm>,
}

/// The entries that a `SwarmMap` holds.
pub uninterp spec fn swarm_map_contents(m: SwarmMap) -> Map<Seq<char>, Swarm>;

impl SwarmMap {
    pub open spec fn contents(&self) -> Map<Seq<char>, Swarm> {
        swarm_map_contents(*self)
    }

    /// Relies on hashbrown::HashMap::new: the new map is empty.
    #[verifier::external_body]
    pub(crate) fn new() -> (r: SwarmMap)
        ensures
            swarm_map_contents(r).dom() == Set::<Seq<char>>::empty(),
    {
        SwarmMap { inner: hashbrown::HashMap::new() }
    }

    /// Relies on hashbrown::HashMap::get: the entry under the key, if any.
    #[verifier::external_body]
    pub(crate) fn get(&self, k: &String) -> (r: Option<&Swarm>)
        ensures
            r matches Some(v) ==> swarm_map_contents(*self).contains_key(k@)
                && swarm_map_contents(*self)[k@] == *v,
            r is None ==> !swarm_map_contents(*self).contains_key(k@),
    {
        self.inner.get(k)
    }

    /// Relies on hashbrown::HashMap::remove: takes the entry out and returns it.
    #[verifier::external_body]
    pub(crate) fn remove(&mut self, k: &String) -> (r: Option<Swarm>)
        ensures
            swarm_map_contents(*final(self)) == swarm_map_contents(*old(self)).remove(k@),
            r matches Some(v) ==> swarm_map_contents(*old(self)).contains_key(k@)
                && swarm_map_contents(*old(self))[k@] == v,
            r is None ==> !swarm_map_contents(*old(self)).contains_key(k@),
    {
        self.inner.remove(k)
    }

    /// Relies on hashbrown::HashMap::insert: the key maps to the value afterwards.
    #[verifier::external_body]
    pub(crate) fn insert(&mut self, k: String, v: Swarm)
        ensures
            swarm_map_contents(*final(self)) == swarm_map_contents(*old(self)).insert(k@, v),
    {
        self.inner.insert(k, v);
    }
}

/// The compact projections of a set of peers.
pub open spec fn compact_set(s: Set<PeerModel>) -> Set<CompactPeer> {
    Set::new(|c: CompactPeer| exists|p: PeerModel| s.contains(p) && compact_of(p) == c)
}

/// The compact peers of two family-wise lists, as one set.
pub open spec fn family_set(v4: Seq<CompactPeerv4>, v6: Seq<CompactPeerv6>) -> Set<CompactPeer> {
    Set::new(
        |c: CompactPeer|
            match c {
                CompactPeer::V4(x) => v4.contains(x),
                CompactPeer::V6(y) => v6.contains(y),
            },
    )
}

/// Appends the compact projection of each peer that the pool lacks.
fn extend_unique(pool: &mut Vec<CompactPeer>, peers: &Vec<Peer>)
    requires
        old(pool)@.no_duplicates(),
    ensures
        final(pool)@.no_duplicates(),
        final(pool)@.to_set() == old(pool)@.to_set().union(
            compact_set(peers@.map_values(|p: Peer| p@).to_set()),
        ),
{
    let ghost views = peers@.map_values(|p: Peer| p@);
    let mut i: usize = 0;
    while i < peers.len()
        invariant
            0 <= i <= peers.len(),
            views == peers@.map_values(|p: Peer| p@),
            pool@.no_duplicates(),
            pool@.to_set() == old(pool)@.to_set().union(compact_set(views.take(i as int).to_set())),
        decreases peers.len() - i,
    {
        let c = peers[i].compact();
        let mut present = false;
        let mut j: usize = 0;
        while j < pool.len()
            invariant
                0 <= j <= pool.len(),
                present == exists|k: int| 0 <= k < j && pool@[k] == c,
            decreases pool.len() - j,
        {
            if pool[j] == c {
                present = true;
            }
            j = j + 1;
        }
        let ghost before = pool@;
        if !present {
            pool.push(c);
        }
        proof {
            assert(views.take(i + 1) == views.take(i as int).push(views[i as int]));
            views.take(i as int).lemma_push_to_set_commute(views[i as int]);
            let s_old = views.take(i as int).to_set();
            let s_new = views.take(i + 1).to_set();
            assert(s_new == s_old.insert(views[i as int]));
            assert(compact_set(s_new) =~= compact_set(s_old).insert(c));
            if present {
                assert(before.contains(c));
                assert(pool@.to_set() =~= pool@.to_set().insert(c));
            } else {
                assert(pool@ == before.push(c));
                before.lemma_push_to_set_commute(c);
                assert(pool@.to_set() =~= before.to_set().insert(c));
            }
            assert(pool@.to_set() =~= old(pool)@.to_set().union(compact_set(s_new)));
        }
        i = i + 1;
    }
    proof {
        assert(views.take(peers@.len() as int) == views);
    }
}

/// Splits peers by address family, keeping their order.
fn split_families(peers: &Vec<CompactPeer>) -> (r: (Vec<CompactPeerv4>, Vec<CompactPeerv6>))
    requires
        peers@.no_duplicates(),
    ensures
        r.0@.no_duplicates(),
        r.1@.no_duplicates(),
        r.0@.len() + r.1@.len() == peers@.len(),
        family_set(r.0@, r.1@) == peers@.to_set(),
{
    let mut v4: Vec<CompactPeerv4> = Vec::new();
    let mut v6: Vec<CompactPeerv6> = Vec::new();
    let mut i: usize = 0;
    while i < peers.len()
        invariant
            0 <= i <= peers.len(),
            peers@.no_duplicates(),
            v4@.no_duplicates(),
            v6@.no_duplicates(),
            v4@.len() + v6@.len() == i,
            family_set(v4@, v6@) == peers@.take(i as int).to_set(),
        decreases peers.len() - i,
    {
        let c = peers[i];
        let ghost taken = peers@.take(i as int);
        proof {
            assert(!taken.contains(c)) by {
                if taken.contains(c) {
                    let k = choose|k: int| 0 <= k < taken.len() && taken[k] == c;
                    assert(peers@[k] == peers@[i as int]);
                }
            }
            assert(peers@.take(i + 1) == taken.push(c));
        }
        let ghost old4 = v4@;
        let ghost old6 = v6@;
        match c {
            CompactPeer::V4(x) => {
                proof {
                    assert(!family_set(v4@, v6@).contains(c));
                }
                v4.push(x);
            },
            CompactPeer::V6(y) => {
                proof {
                    assert(!family_set(v4@, v6@).contains(c));
                }
                v6.push(y);
            },
        }
        proof {
            taken.lemma_push_to_set_commute(c);
            assert(peers@.take(i + 1).to_set() =~= taken.to_set().insert(c));
            old4.lemma_push_to_set_commute(v4@.last());
            old6.lemma_push_to_set_commute(v6@.last());
            assert forall|d: CompactPeer| #[trigger] family_set(v4@, v6@).contains(d) == family_set(old4, old6).insert(c).contains(d) by {
                match d {
                    CompactPeer::V4(z) => {
                        assert(v4@.to_set().contains(z) == v4@.contains(z));
                        assert(old4.to_set().contains(z) == old4.contains(z));
                    },
                    CompactPeer::V6(z) => {
                        assert(v6@.to_set().contains(z) == v6@.contains(z));
                        assert(old6.to_set().contains(z) == old6.contains(z));
                    },
                }
            }
            assert(family_set(v4@, v6@) =~= taken.to_set().insert(c));
        }
        i = i + 1;
    }
    proof {
        assert(peers@.take(peers@.len() as int) == peers@);
    }
    (v4, v6)
}

/// The registry of all swarms. Callers that share it between threads wrap
/// it in a lock of their choice.
pub struct PeerStore {
    pub records: SwarmMap,
}

impl PeerStore {
    pub open spec fn swarms(&self) -> Map<Seq<char>, Swarm> {
        self.records.contents()
    }

    /// Every swarm keeps its seeders and leechers apart.
    pub open spec fn wf(&self) -> bool {
        forall|k: Seq<char>| #[trigger] self.swarms().contains_key(k) ==> self.swarms()[k].wf()
    }

    /// The seeders of a hash; none if it has no swarm.
    pub open spec fn seeders_of(&self, h: Seq<char>) -> Set<PeerModel> {
        if self.swarms().contains_key(h) {
            self.swarms()[h].seeder_set()
        } else {
            Set::empty()
        }
    }

    /// The leechers of a hash; none if it has no swarm.
    pub open spec fn leechers_of(&self, h: Seq<char>) -> Set<PeerModel> {
        if self.swarms().contains_key(h) {
            self.swarms()[h].leecher_set()
        } else {
            Set::empty()
        }
    }

    /// All peers of a hash, of either role.
    pub open spec fn peers_of(&self, h: Seq<char>) -> Set<PeerModel> {
        self.seeders_of(h).union(self.leechers_of(h))
    }

    /// Every hash but `h` has the same swarm in `self` as in `other`.
    pub open spec fn same_except(&self, other: &PeerStore, h: Seq<char>) -> bool {
        forall|k: Seq<char>|
            k != h ==> (#[trigger] self.swarms().contains_key(k) == other.swarms().contains_key(k)
                && self.seeders_of(k) == other.seeders_of(k) && self.leechers_of(k)
                == other.leechers_of(k))
    }

    pub fn new() -> (r: PeerStore)
        ensures
            r.wf(),
            r.swarms().dom() == Set::<Seq<char>>::empty(),
    {
        PeerStore { records: SwarmMap::new() }
    }

    /// The swarm of a hash, if it has one.
    pub fn swarm(&self, info_hash: &String) -> (r: Option<&Swarm>)
        ensures
            r matches Some(s) ==> self.swarms().contains_key(info_hash@) && self.swarms()[info_hash@]
                == *s,
            r is None ==> !self.swarms().contains_key(info_hash@),
    {
        self.records.get(info_hash)
    }

    /// Takes the swarm of a hash out of the map, or a new one if it has none.
    fn take_swarm(&mut self, info_hash: &String) -> (r: Swarm)
        requires
            old(self).wf(),
        ensures
            r.wf(),
            r.seeder_set() == old(self).seeders_of(info_hash@),
            r.leecher_set() == old(self).leechers_of(info_hash@),
            final(self).wf(),
            final(self).swarms() == old(self).swarms().remove(info_hash@),
    {
        match self.take_existing(info_hash) {
            Some(sw) => sw,
            None => Swarm::new(),
        }
    }

    /// Takes the swarm of a hash out of the map, if it has one.
    fn take_existing(&mut self, info_hash: &String) -> (r: Option<Swarm>)
        requires
            old(self).wf(),
        ensures
            r matches Some(sw) ==> old(self).swarms().contains_key(info_hash@) && sw.wf()
                && sw.seeder_set() == old(self).seeders_of(info_hash@) && sw.leecher_set()
                == old(self).leechers_of(info_hash@),
            r is None ==> !old(self).swarms().contains_key(info_hash@),
            final(self).wf(),
            final(self).swarms() == old(self).swarms().remove(info_hash@),
    {
        let r = self.records.remove(info_hash);
        proof {
            assert forall|k: Seq<char>| #[trigger] self.swarms().contains_key(k) implies self.swarms()[k].wf() by {
                assert(old(self).swarms().contains_key(k));
            }
        }
        r
    }

    /// Makes the peer a seeder of the hash, creating its swarm if needed. A
    /// leecher that is put as a seeder stops being a leecher.
    pub fn put_seeder(&mut self, info_hash: String, peer: Peer)
        requires
            old(self).wf(),
        ensures
            put_seeder_post(*old(self), *final(self), info_hash@, peer@),
    {
        let mut sw = self.take_swarm(&info_hash);
        sw.promote_leecher(peer);
        self.records.insert(info_hash, sw);
    }

    /// Makes the peer a leecher of the hash, creating its swarm if needed. A
    /// seeder stays a seeder: a peer that has completed cannot go back.
    pub fn put_leecher(&mut self, info_hash: String, peer: Peer)
        requires
            old(self).wf(),
        ensures
            final(self).wf(),
            final(self).swarms().contains_key(info_hash@),
            final(self).seeders_of(info_hash@) == old(self).seeders_of(info_hash@),
            final(self).leechers_of(info_hash@) == if old(self).seeders_of(info_hash@).contains(
                peer@,
            ) {
                old(self).leechers_of(info_hash@)
            } else {
                old(self).leechers_of(info_hash@).insert(peer@)
            },
            final(self).same_except(old(self), info_hash@),
    {
        let mut sw = self.take_swarm(&info_hash);
        if !sw.is_seeder(&peer) {
            sw.add_leecher(peer);
        }
        self.records.insert(info_hash, sw);
    }

    /// Removes a seeder of the hash; returns whether it was one. An unknown
    /// hash or peer changes nothing.
    pub fn remove_seeder(&mut self, info_hash: String, peer: Peer) -> (r: bool)
        requires
            old(self).wf(),
        ensures
            remove_seeder_post(*old(self), *final(self), info_hash@, peer@, r),
    {
        match self.take_existing(&info_hash) {
            Some(sw) => {
                let mut sw = sw;
                let r = sw.remove_seeder(peer);
                self.records.insert(info_hash, sw);
                r
            },
            None => {
                proof {
                    assert(self.swarms() =~= old(self).swarms());
                    assert(Set::<PeerModel>::empty().remove(peer@) =~= Set::<PeerModel>::empty());
                }
                false
            },
        }
    }

    /// Removes a leecher of the hash; returns whether it was one. An unknown
    /// hash or peer changes nothing.
    pub fn remove_leecher(&mut self, info_hash: String, peer: Peer) -> (r: bool)
        requires
            old(self).wf(),
        ensures
            remove_leecher_post(*old(self), *final(self), info_hash@, peer@, r),
    {
        match self.take_existing(&info_hash) {
            Some(sw) => {
                let mut sw = sw;
                let r = sw.remove_leecher(peer);
                self.records.insert(info_hash, sw);
                r
            },
            None => {
                proof {
                    assert(self.swarms() =~= old(self).swarms());
                    assert(Set::<PeerModel>::empty().remove(peer@) =~= Set::<PeerModel>::empty());
                }
                false
            },
        }
    }

    /// Moves a leecher of the hash to its seeders, or makes the peer a seeder
    /// directly; an unknown hash changes nothing.
    pub fn promote_leecher(&mut self, info_hash: String, peer: Peer)
        requires
            old(self).wf(),
        ensures
            promote_post(*old(self), *final(self), info_hash@, peer@),
    {
        match self.take_existing(&info_hash) {
            Some(sw) => {
                let mut sw = sw;
                sw.promote_leecher(peer);
                self.records.insert(info_hash, sw);
            },
            None => {
                proof {
                    assert(self.swarms() =~= old(self).swarms());
                }
            },
        }
    }

    /// Refreshes the peer's stored record in whichever role it holds; the
    /// membership of every swarm stays the same.
    pub fn update_peer(&mut self, info_hash: String, peer: Peer)
        requires
            old(self).wf(),
        ensures
            final(self).wf(),
            final(self).swarms().contains_key(info_hash@) == old(self).swarms().contains_key(
                info_hash@,
            ),
            final(self).seeders_of(info_hash@) == old(self).seeders_of(info_hash@),
            final(self).leechers_of(info_hash@) == old(self).leechers_of(info_hash@),
            final(self).same_except(old(self), info_hash@),
    {
        match self.take_existing(&info_hash) {
            Some(sw) => {
                let mut sw = sw;
                sw.update_seeder(peer.clone());
                sw.update_leecher(peer);
                self.records.insert(info_hash, sw);
            },
            None => {
                proof {
                    assert(self.swarms() =~= old(self).swarms());
                }
            },
        }
    }

    /// A random selection of at most `numwant` distinct peers of the hash,
    /// seeders and leechers alike, by address and port, split by address
    /// family. Where the swarm has no more than `numwant` of them, all come
    /// back. An unknown hash gives two empty lists.
    pub fn get_peers(&self, info_hash: String, numwant: u32) -> (r: (
        Vec<CompactPeerv4>,
        Vec<CompactPeerv6>,
    ))
        requires
            self.wf(),
        ensures
            r.0@.no_duplicates(),
            r.1@.no_duplicates(),
            family_set(r.0@, r.1@).subset_of(compact_set(self.peers_of(info_hash@))),
            r.0@.len() + r.1@.len() == if compact_set(self.peers_of(info_hash@)).len() <= numwant {
                compact_set(self.peers_of(info_hash@)).len()
            } else {
                numwant as nat
            },
            compact_set(self.peers_of(info_hash@)).len() <= numwant ==> family_set(r.0@, r.1@)
                == compact_set(self.peers_of(info_hash@)),
    {
        let mut peer_list = PeerList::new();
        match self.records.get(&info_hash) {
            Some(sw) => {
                let seeds = sw.seeders.to_vec();
                let leeches = sw.leechers.to_vec();
                extend_unique(&mut peer_list.0, &seeds);
                extend_unique(&mut peer_list.0, &leeches);
                proof {
                    let pool = compact_set(self.peers_of(info_hash@));
                    let a = compact_set(seeds@.map_values(|p: Peer| p@).to_set());
                    let b = compact_set(leeches@.map_values(|p: Peer| p@).to_set());
                    assert(pool =~= a.union(b));
                    assert(peer_list.0@.to_set() =~= pool);
                }
            },
            None => {
                proof {
                    assert(compact_set(self.peers_of(info_hash@)) =~= Set::<CompactPeer>::empty());
                    assert(peer_list.0@.to_set() =~= Set::<CompactPeer>::empty());
                }
            },
        }
        let ghost pool_seq = peer_list.0@;
        proof {
            pool_seq.unique_seq_to_set();
        }
        peer_list.make_random(numwant);
        split_families(&peer_list.0)
    }
}

/// What `put_seeder` of `p` under `h` leaves: the swarm exists, `p` is
/// added to its seeders and taken out of its leechers, nothing else changes.
pub open spec fn put_seeder_post(s: PeerStore, t: PeerStore, h: Seq<char>, p: PeerModel) -> bool {
    &&& t.wf()
    &&& t.swarms().contains_key(h)
    &&& t.seeders_of(h) == s.seeders_of(h).insert(p)
    &&& t.leechers_of(h) == s.leechers_of(h).remove(p)
    &&& t.same_except(&s, h)
}

/// What `promote_leecher` of `p` under `h` leaves: where `h` has a swarm,
/// `p` is a seeder and no longer a leecher; an unknown hash changes nothing.
pub open spec fn promote_post(s: PeerStore, t: PeerStore, h: Seq<char>, p: PeerModel) -> bool {
    &&& t.wf()
    &&& t.swarms().contains_key(h) == s.swarms().contains_key(h)
    &&& s.swarms().contains_key(h) ==> t.seeders_of(h) == s.seeders_of(h).insert(p)
        && t.leechers_of(h) == s.leechers_of(h).remove(p)
    &&& !s.swarms().contains_key(h) ==> t.swarms() == s.swarms()
    &&& t.same_except(&s, h)
}

/// What `remove_seeder` of `p` under `h` leaves, and that it answers
/// whether `p` was a seeder.
pub open spec fn remove_seeder_post(s: PeerStore, t: PeerStore, h: Seq<char>, p: PeerModel, r: bool) -> bool {
    &&& t.wf()
    &&& r == s.seeders_of(h).contains(p)
    &&& t.swarms().contains_key(h) == s.swarms().contains_key(h)
    &&& t.seeders_of(h) == s.seeders_of(h).remove(p)
    &&& t.leechers_of(h) == s.leechers_of(h)
    &&& t.same_except(&s, h)
}

/// What `remove_leecher` of `p` under `h` leaves, and that it answers
/// whether `p` was a leecher.
pub open spec fn remove_leecher_post(s: PeerStore, t: PeerStore, h: Seq<char>, p: PeerModel, r: bool) -> bool {
    &&& t.wf()
    &&& r == s.leechers_of(h).contains(p)
    &&& t.swarms().contains_key(h) == s.swarms().contains_key(h)
    &&& t.leechers_of(h) == s.leechers_of(h).remove(p)
    &&& t.seeders_of(h) == s.seeders_of(h)
    &&& t.same_except(&s, h)
}

/// Two registries hold the same peers in the same roles under every hash.
pub open spec fn same_members(s: PeerStore, t: PeerStore) -> bool {
    forall|k: Seq<char>|
        #[trigger] t.swarms().contains_key(k) == s.swarms().contains_key(k) && t.seeders_of(k)
            == s.seeders_of(k) && t.leechers_of(k) == s.leechers_of(k)
}

/// A peer put as a seeder is a seeder of that hash and not a leecher of it.
pub proof fn lemma_put_seeder_places_peer(s: PeerStore, t: PeerStore, h: Seq<char>, p: PeerModel)
    requires
        put_seeder_post(s, t, h, p),
    ensures
        t.seeders_of(h).contains(p),
        !t.leechers_of(h).contains(p),
{
}

/// Promoting a leecher of a known hash makes it a seeder and no longer a
/// leecher; a peer that was no leecher is made a seeder directly.
pub proof fn lemma_promote_moves_peer(s: PeerStore, t: PeerStore, h: Seq<char>, p: PeerModel)
    requires
        s.swarms().contains_key(h),
        promote_post(s, t, h, p),
    ensures
        t.seeders_of(h).contains(p),
        !t.leechers_of(h).contains(p),
        s.leechers_of(h).contains(p) ==> t.leechers_of(h) == s.leechers_of(h).remove(p),
        !s.leechers_of(h).contains(p) ==> t.leechers_of(h) == s.leechers_of(h),
{
    if !s.leechers_of(h).contains(p) {
        assert(s.leechers_of(h).remove(p) =~= s.leechers_of(h));
    }
}

/// Promoting the same peer twice leaves the registry as promoting it once.
pub proof fn lemma_promote_idempotent(
    s: PeerStore,
    t: PeerStore,
    u: PeerStore,
    h: Seq<char>,
    p: PeerModel,
)
    requires
        promote_post(s, t, h, p),
        promote_post(t, u, h, p),
    ensures
        same_members(t, u),
{
    if s.swarms().contains_key(h) {
        assert(u.seeders_of(h) =~= t.seeders_of(h));
        assert(u.leechers_of(h) =~= t.leechers_of(h));
    }
    assert forall|k: Seq<char>| #[trigger] u.swarms().contains_key(k) == t.swarms().contains_key(k)
        && u.seeders_of(k) == t.seeders_of(k) && u.leechers_of(k) == t.leechers_of(k) by {
        if k != h {
            assert(u.swarms().contains_key(k) == t.swarms().contains_key(k));
        }
    }
}

/// Removing a peer that is not a seeder answers `false` and changes nothing.
pub proof fn lemma_remove_absent_seeder(s: PeerStore, t: PeerStore, h: Seq<char>, p: PeerModel, r: bool)
    requires
        !s.seeders_of(h).contains(p),
        remove_seeder_post(s, t, h, p, r),
    ensures
        !r,
        same_members(s, t),
{
    assert(t.seeders_of(h) =~= s.seeders_of(h));
    assert forall|k: Seq<char>| #[trigger] t.swarms().contains_key(k) == s.swarms().contains_key(k)
        && t.seeders_of(k) == s.seeders_of(k) && t.leechers_of(k) == s.leechers_of(k) by {
        if k != h {
            assert(t.swarms().contains_key(k) == s.swarms().contains_key(k));
        }
    }
}

/// Removing a peer that is not a leecher answers `false` and changes nothing.
pub proof fn lemma_remove_absent_leecher(s: PeerStore, t: PeerStore, h: Seq<char>, p: PeerModel, r: bool)
    requires
        !s.leechers_of(h).contains(p),
        remove_leecher_post(s, t, h, p, r),
    ensures
        !r,
        same_members(s, t),
{
    assert(t.leechers_of(h) =~= s.leechers_of(h));
    assert forall|k: Seq<char>| #[trigger] t.swarms().contains_key(k) == s.swarms().contains_key(k)
        && t.seeders_of(k) == s.seeders_of(k) && t.leechers_of(k) == s.leechers_of(k) by {
        if k != h {
            assert(t.swarms().contains_key(k) == s.swarms().contains_key(k));
        }
    }
}

} // verus!
