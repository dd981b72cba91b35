//! Peer identity and addressing.
use vstd::prelude::*;

verus! {

/// A peer reachable over IPv4. The address is the big-endian value of its
/// four octets.
#[derive(Debug, Hash, PartialEq, Eq)]
pub struct Peerv4 {
    pub peer_id: String,
    pub ip: u32,
    pub port: u16,
}

/// A peer reachable over IPv6. The address is the big-endian value of its
/// sixteen octets.
#[derive(Debug, Hash, PartialEq, Eq)]
pub struct Peerv6 {
    pub peer_id: String,
    pub ip: u128,
    pub port: u16,
}

/// A peer of a swarm, tagged by address family. Two peers are the same iff
/// identifier, address and port all match.
#[derive(Debug, Hash, PartialEq, Eq)]
pub enum Peer {
    V4(Peerv4),
    V6(Peerv6),
}

/// Mathematical model of a peer: identifier, address and port.
pub ghost enum PeerModel {
    V4(Seq<char>, u32, u16),
    V6(Seq<char>, u128, u16),
}

impl View for Peer {
    type V = PeerModel;

    open spec fn view(&self) -> PeerModel {
        match self {
            Peer::V4(p) => PeerModel::V4(p.peer_id@, p.ip, p.port),
            Peer::V6(p) => PeerModel::V6(p.peer_id@, p.ip, p.port),
        }
    }
}

/// Address and port of an IPv4 peer, as sent in responses.
#[derive(Clone, Copy, Debug, PartialEq, Eq, Structural, Hash)]
pub struct CompactPeerv4 {
    pub ip: u32,
    pub port: u16,
}

/// Address and port of an IPv6 peer, as sent in responses.
#[derive(Clone, Copy, Debug, PartialEq, Eq, Structural, Hash)]
pub struct CompactPeerv6 {
    pub ip: u128,
    pub port: u16,
}

/// The response-only projection of a peer: its identifier left out.
#[derive(Clone, Copy, Debug, PartialEq, Eq, Structural, Hash)]
pub enum CompactPeer {
    V4(CompactPeerv4),
    V6(CompactPeerv6),
}

/// The compact projection of a peer model.
pub open spec fn compact_of(p: PeerModel) -> CompactPeer {
    match p {
        PeerModel::V4(_, ip, port) => CompactPeer::V4(CompactPeerv4 { ip, port }),
        PeerModel::V6(_, ip, port) => CompactPeer::V6(CompactPeerv6 { ip, port }),
    }
}

impl Clone for Peer {
    fn clone(&self) -> (r: Peer)
        ensures
            r@ == self@,
    {
        match self {
            Peer::V4(p) => Peer::V4(Peerv4 { peer_id: p.peer_id.clone(), ip: p.ip, port: p.port }),
            Peer::V6(p) => Peer::V6(Peerv6 { peer_id: p.peer_id.clone(), ip: p.ip, port: p.port }),
        }
    }
}

impl Peer {
    /// The peer's address and port, without its identifier.
    pub fn compact(&self) -> (r: CompactPeer)
        ensures
            r == compact_of(self@),
    {
        match self {
            Peer::V4(p) => CompactPeer::V4(CompactPeerv4 { ip: p.ip, port: p.port }),
            Peer::V6(p) => CompactPeer::V6(CompactPeerv6 { ip: p.ip, port: p.port }),
        }
    }
}

} // verus!
