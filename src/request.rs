//! Announce and scrape requests, read from a query string.
use vstd::prelude::*;

use crate::query::{
    decimal_value, find_value, is_decimal, lookup, parse_u64, pct_decode, percent_decode,
    query_pairs, split_query, QueryPair,
};
use crate::text::{latin1, text_of};

verus! {

/// The number of peers asked for when a request names none.
pub const DEFAULT_NUMWANT: u32 = 50;

/// What an announce reports.
#[derive(Clone, Copy, Debug, PartialEq, Eq, Structural)]
pub enum Event {
    /// A regular re-announce, or no event given.
    Periodic,
    Started,
    Stopped,
    Completed,
}

/// A well-formed announce request.
pub struct AnnounceRequest {
    pub info_hash: String,
    pub peer_id: String,
    pub port: u16,
    pub uploaded: u64,
    pub downloaded: u64,
    pub left: u64,
    pub event: Event,
    pub numwant: u32,
    pub compact: bool,
}

/// An announce request as a model; the hash and the identifier as bytes.
pub ghost struct AnnounceModel {
    pub info_hash: Seq<u8>,
    pub peer_id: Seq<u8>,
    pub port: u16,
    pub uploaded: u64,
    pub downloaded: u64,
    pub left: u64,
    pub event: Event,
    pub numwant: u32,
    pub compact: bool,
}

impl AnnounceRequest {
    /// Whether this request is the one that the model describes.
    pub open spec fn is_model_of(&self, m: AnnounceModel) -> bool {
        &&& self.info_hash@ == latin1(m.info_hash)
        &&& self.peer_id@ == latin1(m.peer_id)
        &&& self.port == m.port
        &&& self.uploaded == m.uploaded
        &&& self.downloaded == m.downloaded
        &&& self.left == m.left
        &&& self.event == m.event
        &&& self.numwant == m.numwant
        &&& self.compact == m.compact
    }
}

pub open spec fn key_info_hash() -> Seq<u8> {
    seq![105u8, 110, 102, 111, 95, 104, 97, 115, 104]
}

pub open spec fn key_peer_id() -> Seq<u8> {
    seq![112u8, 101, 101, 114, 95, 105, 100]
}

pub open spec fn key_port() -> Seq<u8> {
    seq![112u8, 111, 114, 116]
}

pub open spec fn key_uploaded() -> Seq<u8> {
    seq![117u8, 112, 108, 111, 97, 100, 101, 100]
}

pub open spec fn key_downloaded() -> Seq<u8> {
    seq![100u8, 111, 119, 110, 108, 111, 97, 100, 101, 100]
}

pub open spec fn key_left() -> Seq<u8> {
    seq![108u8, 101, 102, 116]
}

pub open spec fn key_event() -> Seq<u8> {
    seq![101u8, 118, 101, 110, 116]
}

pub open spec fn key_numwant() -> Seq<u8> {
    seq![110u8, 117, 109, 119, 97, 110, 116]
}

pub open spec fn key_compact() -> Seq<u8> {
    seq![99u8, 111, 109, 112, 97, 99, 116]
}

pub open spec fn word_started() -> Seq<u8> {
    seq![115u8, 116, 97, 114, 116, 101, 100]
}

pub open spec fn word_stopped() -> Seq<u8> {
    seq![115u8, 116, 111, 112, 112, 101, 100]
}

pub open spec fn word_completed() -> Seq<u8> {
    seq![99u8, 111, 109, 112, 108, 101, 116, 101, 100]
}

/// The unescaped value of the first pair with the key; `None` if there is
/// no such pair or its escapes are malformed.
pub open spec fn field(ps: Seq<(Seq<u8>, Seq<u8>)>, k: Seq<u8>) -> Option<Seq<u8>> {
    match lookup(ps, k) {
        Some(v) => pct_decode(v),
        None => None,
    }
}

/// A 20-byte field.
pub open spec fn id_field(ps: Seq<(Seq<u8>, Seq<u8>)>, k: Seq<u8>) -> Option<Seq<u8>> {
    match field(ps, k) {
        Some(v) => if v.len() == 20 {
            Some(v)
        } else {
            None
        },
        None => None,
    }
}

/// A decimal field no larger than `max`.
pub open spec fn num_field(ps: Seq<(Seq<u8>, Seq<u8>)>, k: Seq<u8>, max: nat) -> Option<nat> {
    match field(ps, k) {
        Some(v) => if is_decimal(v) && decimal_value(v) <= max {
            Some(decimal_value(v))
        } else {
            None
        },
        None => None,
    }
}

/// The event of a request: absent or empty is a regular announce; a value
/// other than the three known words is malformed.
pub open spec fn event_field(ps: Seq<(Seq<u8>, Seq<u8>)>) -> Option<Event> {
    match lookup(ps, key_event()) {
        None => Some(Event::Periodic),
        Some(raw) => match pct_decode(raw) {
            None => None,
            Some(v) => if v.len() == 0 {
                Some(Event::Periodic)
            } else if v == word_started() {
                Some(Event::Started)
            } else if v == word_stopped() {
                Some(Event::Stopped)
            } else if v == word_completed() {
                Some(Event::Completed)
            } else {
                None
            },
        },
    }
}

/// The number of peers asked for: the default when absent.
pub open spec fn numwant_field(ps: Seq<(Seq<u8>, Seq<u8>)>) -> Option<u32> {
    match lookup(ps, key_numwant()) {
        None => Some(DEFAULT_NUMWANT),
        Some(_) => match num_field(ps, key_numwant(), u32::MAX as nat) {
            Some(n) => Some(n as u32),
            None => None,
        },
    }
}

/// The announce request that a query string holds, if it is well formed:
/// `info_hash` and `peer_id` of 20 bytes each; `port`, `uploaded`,
/// `downloaded` and `left` decimal and in range; `event` and `numwant`
/// well formed where given. Compact mode is asked for by `compact=1`.
pub open spec fn announce_spec(q: Seq<u8>) -> Option<AnnounceModel> {
    let ps = query_pairs(q);
    if id_field(ps, key_info_hash()) is Some && id_field(ps, key_peer_id()) is Some && num_field(
        ps,
        key_port(),
        u16::MAX as nat,
    ) is Some && num_field(ps, key_uploaded(), u64::MAX as nat) is Some && num_field(
        ps,
        key_downloaded(),
        u64::MAX as nat,
    ) is Some && num_field(ps, key_left(), u64::MAX as nat) is Some && event_field(ps) is Some
        && numwant_field(ps) is Some {
        Some(
            AnnounceModel {
                info_hash: id_field(ps, key_info_hash())->0,
                peer_id: id_field(ps, key_peer_id())->0,
                port: num_field(ps, key_port(), u16::MAX as nat)->0 as u16,
                uploaded: num_field(ps, key_uploaded(), u64::MAX as nat)->0 as u64,
                downloaded: num_field(ps, key_downloaded(), u64::MAX as nat)->0 as u64,
                left: num_field(ps, key_left(), u64::MAX as nat)->0 as u64,
                event: event_field(ps)->0,
                numwant: numwant_field(ps)->0,
                compact: field(ps, key_compact()) == Some(seq![49u8]),
            },
        )
    } else {
        None
    }
}

/// The unescaped value of the first pair with the key.
fn get_field(ps: &Vec<QueryPair>, k: &[u8]) -> (r: Option<Vec<u8>>)
    ensures
        r is Some <==> field(ps@.map_values(|p: QueryPair| p@), k@) is Some,
        r matches Some(v) ==> field(ps@.map_values(|p: QueryPair| p@), k@) == Some(v@),
{
    match find_value(ps, k) {
        Some(raw) => percent_decode(raw.as_slice()),
        None => None,
    }
}

/// A 20-byte field.
fn get_id(ps: &Vec<QueryPair>, k: &[u8]) -> (r: Option<Vec<u8>>)
    ensures
        r is Some <==> id_field(ps@.map_values(|p: QueryPair| p@), k@) is Some,
        r matches Some(v) ==> id_field(ps@.map_values(|p: QueryPair| p@), k@) == Some(v@),
{
    match get_field(ps, k) {
        Some(v) => if v.len() == 20 {
            Some(v)
        } else {
            None
        },
        None => None,
    }
}

/// A decimal field no larger than `max`.
fn get_num(ps: &Vec<QueryPair>, k: &[u8], max: u64) -> (r: Option<u64>)
    ensures
        r is Some <==> num_field(ps@.map_values(|p: QueryPair| p@), k@, max as nat) is Some,
        r matches Some(n) ==> num_field(ps@.map_values(|p: QueryPair| p@), k@, max as nat) == Some(
            n as nat,
        ),
{
    match get_field(ps, k) {
        Some(v) => match parse_u64(v.as_slice()) {
            Some(n) => if n <= max {
                Some(n)
            } else {
                None
            },
            None => None,
        },
        None => None,
    }
}

fn get_event(ps: &Vec<QueryPair>) -> (r: Option<Event>)
    ensures
        r == event_field(ps@.map_values(|p: QueryPair| p@)),
{
    let k: [u8; 5] = [101, 118, 101, 110, 116];
    let started: [u8; 7] = [115, 116, 97, 114, 116, 101, 100];
    let stopped: [u8; 7] = [115, 116, 111, 112, 112, 101, 100];
    let completed: [u8; 9] = [99, 111, 109, 112, 108, 101, 116, 101, 100];
    proof {
        assert(k@ == key_event());
        assert(started@ == word_started());
        assert(stopped@ == word_stopped());
        assert(completed@ == word_completed());
    }
    match find_value(ps, k.as_slice()) {
        None => Some(Event::Periodic),
        Some(raw) => match percent_decode(raw.as_slice()) {
            None => None,
            Some(v) => if v.len() == 0 {
                Some(Event::Periodic)
            } else if crate::query::bytes_eq(v.as_slice(), started.as_slice()) {
                Some(Event::Started)
            } else if crate::query::bytes_eq(v.as_slice(), stopped.as_slice()) {
                Some(Event::Stopped)
            } else if crate::query::bytes_eq(v.as_slice(), completed.as_slice()) {
                Some(Event::Completed)
            } else {
                None
            },
        },
    }
}

fn get_numwant(ps: &Vec<QueryPair>) -> (r: Option<u32>)
    ensures
        r == numwant_field(ps@.map_values(|p: QueryPair| p@)),
{
    let k: [u8; 7] = [110, 117, 109, 119, 97, 110, 116];
    proof {
        assert(k@ == key_numwant());
    }
    match find_value(ps, k.as_slice()) {
        None => Some(DEFAULT_NUMWANT),
        Some(_) => match get_num(ps, k.as_slice(), u32::MAX as u64) {
            Some(n) => Some(n as u32),
            None => None,
        },
    }
}

impl AnnounceRequest {
    /// Reads an announce request from a query string; `None` where it is
    /// malformed or lacks a required field.
    pub fn parse(query: &[u8]) -> (r: Option<AnnounceRequest>)
        ensures
            r is Some <==> announce_spec(query@) is Some,
            r matches Some(req) ==> req.is_model_of(announce_spec(query@)->0),
    {
        let ps = split_query(query);
        let k_hash: [u8; 9] = [105, 110, 102, 111, 95, 104, 97, 115, 104];
        let k_peer: [u8; 7] = [112, 101, 101, 114, 95, 105, 100];
        let k_port: [u8; 4] = [112, 111, 114, 116];
        let k_up: [u8; 8] = [117, 112, 108, 111, 97, 100, 101, 100];
        let k_down: [u8; 10] = [100, 111, 119, 110, 108, 111, 97, 100, 101, 100];
        let k_left: [u8; 4] = [108, 101, 102, 116];
        let k_compact: [u8; 7] = [99, 111, 109, 112, 97, 99, 116];
        proof {
            assert(k_hash@ == key_info_hash());
            assert(k_peer@ == key_peer_id());
            assert(k_port@ == key_port());
            assert(k_up@ == key_uploaded());
            assert(k_down@ == key_downloaded());
            assert(k_left@ == key_left());
            assert(k_compact@ == key_compact());
        }
        let info_hash = get_id(&ps, k_hash.as_slice());
        let peer_id = get_id(&ps, k_peer.as_slice());
        let port = get_num(&ps, k_port.as_slice(), 65535);
        let uploaded = get_num(&ps, k_up.as_slice(), u64::MAX);
        let downloaded = get_num(&ps, k_down.as_slice(), u64::MAX);
        let left = get_num(&ps, k_left.as_slice(), u64::MAX);
        let event = get_event(&ps);
        let numwant = get_numwant(&ps);
        let compact = match get_field(&ps, k_compact.as_slice()) {
            Some(v) => v.len() == 1 && v[0] == 49,
            None => false,
        };
        proof {
            let f = field(query_pairs(query@), key_compact());
            if f is Some {
                assert(compact == (f->0 =~= seq![49u8]));
            }
        }
        match (info_hash, peer_id, port, uploaded, downloaded, left, event, numwant) {
            (Some(h), Some(p), Some(port), Some(up), Some(down), Some(left), Some(ev), Some(nw)) => {
                Some(
                    AnnounceRequest {
                        info_hash: text_of(h.as_slice()),
                        peer_id: text_of(p.as_slice()),
                        port: port as u16,
                        uploaded: up,
                        downloaded: down,
                        left,
                        event: ev,
                        numwant: nw,
                        compact,
                    },
                )
            },
            _ => None,
        }
    }
}

/// A query without one of the required fields is no announce request.
pub proof fn lemma_missing_field_fails(q: Seq<u8>, k: Seq<u8>)
    requires
        k == key_info_hash() || k == key_peer_id() || k == key_port() || k == key_uploaded() || k
            == key_downloaded() || k == key_left(),
        lookup(query_pairs(q), k) is None,
    ensures
        announce_spec(q) is None,
{
}

} // verus!
