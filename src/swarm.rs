//! The per-torrent swarm: a set of seeders and a set of leechers.
use vstd::prelude::*;

use crate::peer::{Peer, PeerModel};

verus! {

/// A set of peers, held in a `hashbrown::HashSet`.
#[verifier::external_body]
pub struct PeerSet {
    inner: hashbrown::HashSet<Peer>,
}

/// The peers that a `PeerSet` holds.
pub uninterp spec fn peer_set_contents(s: PeerSet) -> Set<PeerModel>;

impl PeerSet {
    pub open spec fn contents(&self) -> Set<PeerModel> {
        peer_set_contents(*self)
    }

    /// Relies on hashbrown::HashSet::new: the new set is empty.
    #[verifier::external_body]
    pub(crate) fn new() -> (r: PeerSet)
        ensures
            peer_set_contents(r) == Set::<PeerModel>::empty(),
    {
        PeerSet { inner: hashbrown::HashSet::new() }
    }

    /// Relies on hashbrown::HashSet::contains: membership by equality, which
    /// for `Peer` is equality of identifier, address and port.
    #[verifier::external_body]
    pub(crate) fn contains(&self, p: &Peer) -> (r: bool)
        ensures
            r == peer_set_contents(*self).contains(p@),
    {
        self.inner.contains(p)
    }

    /// Relies on hashbrown::HashSet::insert: the value is in the set afterwards,
    /// nothing else changes.
    #[verifier::external_body]
    pub(crate) fn insert(&mut self, p: Peer)
        ensures
            peer_set_contents(*final(self)) == peer_set_contents(*old(self)).insert(p@),
    {
        self.inner.insert(p);
    }

    /// Relies on hashbrown::HashSet::remove: returns whether the value was
    /// present, and it is absent afterwards.
    #[verifier::external_body]
    pub(crate) fn remove(&mut self, p: &Peer) -> (r: bool)
        ensures
            r == peer_set_contents(*old(self)).contains(p@),
            peer_set_contents(*final(self)) == peer_set_contents(*old(self)).remove(p@),
    {
        self.inner.remove(p)
    }

    /// Relies on hashbrown::HashSet::iter: each member is visited once.
    #[verifier::external_body]
    pub(crate) fn to_vec(&self) -> (r: Vec<Peer>)
        ensures
            r@.map_values(|p: Peer| p@).no_duplicates(),
            r@.map_values(|p: Peer| p@).to_set() == peer_set_contents(*self),
    {
        self.inner.iter().map(|p| p.clone()).collect()
    }
}

/// The peers of one torrent. A peer is a seeder or a leecher, never both.
pub struct Swarm {
    pub seeders: PeerSet,
    pub leechers: PeerSet,
}

impl Swarm {
    pub open spec fn seeder_set(&self) -> Set<PeerModel> {
        self.seeders.contents()
    }

    pub open spec fn leecher_set(&self) -> Set<PeerModel> {
        self.leechers.contents()
    }

    /// No peer is both a seeder and a leecher.
    pub open spec fn wf(&self) -> bool {
        self.seeder_set().disjoint(self.leecher_set())
    }

    pub fn new() -> (r: Swarm)
        ensures
            r.wf(),
            r.seeder_set() == Set::<PeerModel>::empty(),
            r.leecher_set() == Set::<PeerModel>::empty(),
    {
        Swarm { seeders: PeerSet::new(), leechers: PeerSet::new() }
    }

    pub fn is_seeder(&self, peer: &Peer) -> (r: bool)
        ensures
            r == self.seeder_set().contains(peer@),
    {
        self.seeders.contains(peer)
    }

    pub fn is_leecher(&self, peer: &Peer) -> (r: bool)
        ensures
            r == self.leecher_set().contains(peer@),
    {
        self.leechers.contains(peer)
    }

    /// Inserts into the seeders; the leechers are left as they are.
    pub fn add_seeder(&mut self, peer: Peer)
        ensures
            final(self).seeder_set() == old(self).seeder_set().insert(peer@),
            final(self).leecher_set() == old(self).leecher_set(),
    {
        self.seeders.insert(peer);
    }

    /// Inserts into the leechers; the seeders are left as they are.
    pub fn add_leecher(&mut self, peer: Peer)
        ensures
            final(self).leecher_set() == old(self).leecher_set().insert(peer@),
            final(self).seeder_set() == old(self).seeder_set(),
    {
        self.leechers.insert(peer);
    }

    /// Refreshes a seeder's stored record; no change if it is not a seeder.
    pub fn update_seeder(&mut self, peer: Peer)
        ensures
            final(self).seeder_set() == old(self).seeder_set(),
            final(self).leecher_set() == old(self).leecher_set(),
    {
        if self.seeders.contains(&peer) {
            self.seeders.insert(peer);
        }
    }

    /// Refreshes a leecher's stored record; no change if it is not a leecher.
    pub fn update_leecher(&mut self, peer: Peer)
        ensures
            final(self).seeder_set() == old(self).seeder_set(),
            final(self).leecher_set() == old(self).leecher_set(),
    {
        if self.leechers.contains(&peer) {
            self.leechers.insert(peer);
        }
    }

    /// Removes a seeder; returns whether it was one.
    pub fn remove_seeder(&mut self, peer: Peer) -> (r: bool)
        ensures
            r == old(self).seeder_set().contains(peer@),
            final(self).seeder_set() == old(self).seeder_set().remove(peer@),
            final(self).leecher_set() == old(self).leecher_set(),
    {
        self.seeders.remove(&peer)
    }

    /// Removes a leecher; returns whether it was one.
    pub fn remove_leecher(&mut self, peer: Peer) -> (r: bool)
        ensures
            r == old(self).leecher_set().contains(peer@),
            final(self).leecher_set() == old(self).leecher_set().remove(peer@),
            final(self).seeder_set() == old(self).seeder_set(),
    {
        self.leechers.remove(&peer)
    }

    /// Moves a peer from the leechers to the seeders; a peer that is not a
    /// leecher is made a seeder directly.
    pub fn promote_leecher(&mut self, peer: Peer)
        requires
            old(self).wf(),
        ensures
            final(self).wf(),
            final(self).seeder_set() == old(self).seeder_set().insert(peer@),
            final(self).leecher_set() == old(self).leecher_set().remove(peer@),
    {
        self.leechers.remove(&peer);
        self.seeders.insert(peer);
    }
}

} // verus!
