//! Core of a BitTorrent tracker: the swarm registry, the statistics store,
//! the random peer sampler, the bencode codec, and the announce and scrape
//! request handlers.
//!
//! Liveness of peers is not tracked here: a peer record is its identifier,
//! address and port, and an outside reaper evicts stale peers through
//! `remove_seeder` and `remove_leecher` with its own bookkeeping.
use vstd::prelude::*;

pub mod peer;
pub mod swarm;
pub mod registry;
pub mod sampler;
pub mod stats;
pub mod bencode;
pub mod text;
pub mod query;
pub mod request;
pub mod response;
pub mod order;
pub mod tracker;
pub mod scrape;
pub mod value;
pub mod wire;

verus! {

} // verus!
