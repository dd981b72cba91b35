//! The responses as bencoded values: the bytes that the handlers write are
//! the encoding of a valid value, so the decoder reads that value back.
use vstd::prelude::*;

use crate::peer::{CompactPeerv4, CompactPeerv6};
use crate::request::key_port;
use crate::response::{
    announce_enc, be_octets, dotted, failure_enc, hex_groups, ints_enc, key_complete,
    key_failure_reason, key_incomplete, key_interval, key_ip, key_peers, key_peers6,
    key_tracker_id, peer_dict_enc, v4_enc, v4_items, v6_enc, v6_items, AnnounceResponse,
};
use crate::bencode::{bytes_enc, int_enc};
use crate::value::{
    enc, enc_dict, enc_list, key_lt, keys_ascending, lemma_enc_dict_push, lemma_enc_list_push,
    valid, BValue,
};

verus! {

/// Each byte as an integer value.
pub open spec fn byte_ints(bs: Seq<u8>) -> Seq<BValue> {
    bs.map_values(|x: u8| BValue::Int(x as int))
}

/// A peer in the dictionary form.
pub open spec fn peer_dict_value(text: Seq<u8>, port: u16) -> BValue {
    BValue::Dict(seq![(key_ip(), BValue::Bytes(text)), (key_port(), BValue::Int(port as int))])
}

pub open spec fn v4_values(p: CompactPeerv4, compact: bool) -> Seq<BValue> {
    if compact {
        byte_ints(be_octets(p.ip as nat, 4)) + byte_ints(be_octets(p.port as nat, 2))
    } else {
        seq![peer_dict_value(dotted(p.ip as nat, 4), p.port)]
    }
}

pub open spec fn v6_values(p: CompactPeerv6, compact: bool) -> Seq<BValue> {
    if compact {
        byte_ints(be_octets(p.ip as nat, 16)) + byte_ints(be_octets(p.port as nat, 2))
    } else {
        seq![peer_dict_value(hex_groups(p.ip as nat, 8), p.port)]
    }
}

/// The items of the `peers` list.
pub open spec fn v4_list(ps: Seq<CompactPeerv4>, compact: bool) -> Seq<BValue>
    decreases ps.len(),
{
    if ps.len() == 0 {
        Seq::empty()
    } else {
        v4_list(ps.drop_last(), compact) + v4_values(ps.last(), compact)
    }
}

/// The items of the `peers6` list.
pub open spec fn v6_list(ps: Seq<CompactPeerv6>, compact: bool) -> Seq<BValue>
    decreases ps.len(),
{
    if ps.len() == 0 {
        Seq::empty()
    } else {
        v6_list(ps.drop_last(), compact) + v6_values(ps.last(), compact)
    }
}

/// The announce response as a value.
pub open spec fn announce_value(r: AnnounceResponse, compact: bool) -> BValue {
    BValue::Dict(
        seq![
            (key_complete(), BValue::Int(r.complete as int)),
            (key_incomplete(), BValue::Int(r.incomplete as int)),
            (key_interval(), BValue::Int(r.interval as int)),
            (key_peers(), BValue::List(v4_list(r.peers@, compact))),
            (key_peers6(), BValue::List(v6_list(r.peers6@, compact))),
            (key_tracker_id(), BValue::Bytes(r.tracker_id@)),
        ],
    )
}

/// The failure response as a value.
pub open spec fn failure_value(reason: Seq<u8>) -> BValue {
    BValue::Dict(seq![(key_failure_reason(), BValue::Bytes(reason))])
}

/// A list of values that are all valid.
pub open spec fn all_valid(s: Seq<BValue>) -> bool {
    forall|i: int| 0 <= i < s.len() ==> valid(#[trigger] s[i])
}

proof fn lemma_enc_list_concat(a: Seq<BValue>, b: Seq<BValue>)
    ensures
        enc_list(a + b) == enc_list(a) + enc_list(b),
    decreases b.len(),
{
    if b.len() == 0 {
        assert(a + b =~= a);
        assert(enc_list(b) == Seq::<u8>::empty());
        assert(enc_list(a) + enc_list(b) =~= enc_list(a));
    } else {
        lemma_enc_list_concat(a, b.drop_last());
        assert(a + b =~= (a + b.drop_last()).push(b.last()));
        assert(b =~= b.drop_last().push(b.last()));
        lemma_enc_list_push(a + b.drop_last(), b.last());
        lemma_enc_list_push(b.drop_last(), b.last());
        assert(enc_list(a + b) =~= enc_list(a) + enc_list(b));
    }
}

proof fn lemma_all_valid_concat(a: Seq<BValue>, b: Seq<BValue>)
    requires
        all_valid(a),
        all_valid(b),
    ensures
        all_valid(a + b),
{
    assert forall|i: int| 0 <= i < (a + b).len() implies valid(#[trigger] (a + b)[i]) by {
        if i < a.len() {
            assert((a + b)[i] == a[i]);
        } else {
            assert((a + b)[i] == b[i - a.len()]);
        }
    }
}

proof fn lemma_byte_ints(bs: Seq<u8>)
    ensures
        ints_enc(bs) == enc_list(byte_ints(bs)),
        all_valid(byte_ints(bs)),
    decreases bs.len(),
{
    if bs.len() == 0 {
        assert(byte_ints(bs) =~= Seq::<BValue>::empty());
    } else {
        lemma_byte_ints(bs.drop_last());
        assert(byte_ints(bs) =~= byte_ints(bs.drop_last()).push(BValue::Int(bs.last() as int)));
        lemma_enc_list_push(byte_ints(bs.drop_last()), BValue::Int(bs.last() as int));
        assert(ints_enc(bs) =~= enc_list(byte_ints(bs)));
    }
}

proof fn lemma_peer_dict(text: Seq<u8>, port: u16)
    ensures
        peer_dict_enc(text, port) == enc(peer_dict_value(text, port)),
        valid(peer_dict_value(text, port)),
{
    let e1 = (key_ip(), BValue::Bytes(text));
    let e2 = (key_port(), BValue::Int(port as int));
    let es = seq![e1, e2];
    let empty = Seq::<(Seq<u8>, BValue)>::empty();
    assert(es =~= empty.push(e1).push(e2));
    assert(enc_dict(empty) == Seq::<u8>::empty());
    lemma_enc_dict_push(empty, e1);
    lemma_enc_dict_push(empty.push(e1), e2);
    assert(peer_dict_enc(text, port) =~= enc(peer_dict_value(text, port)));
    reveal_with_fuel(key_lt, 3);
    assert(key_lt(es[0].0, es[1].0));
    assert(keys_ascending(es));
    assert forall|i: int| 0 <= i < es.len() implies valid(#[trigger] es[i].1) by {
        if i == 0 {
            assert(es[i].1 == BValue::Bytes(text));
        } else {
            assert(es[i].1 == BValue::Int(port as int));
        }
    }
}

proof fn lemma_single(v: BValue)
    requires
        valid(v),
    ensures
        enc_list(seq![v]) == enc(v),
        all_valid(seq![v]),
{
    assert(seq![v].drop_first() =~= Seq::<BValue>::empty());
    assert(enc_list(Seq::<BValue>::empty()) == Seq::<u8>::empty());
    assert(enc_list(seq![v]) =~= enc(v));
}

proof fn lemma_v4_list(ps: Seq<CompactPeerv4>, compact: bool)
    ensures
        v4_items(ps, compact) == enc_list(v4_list(ps, compact)),
        all_valid(v4_list(ps, compact)),
    decreases ps.len(),
{
    if ps.len() == 0 {
        assert(enc_list(Seq::<BValue>::empty()) == Seq::<u8>::empty());
    } else {
        let p = ps.last();
        lemma_v4_list(ps.drop_last(), compact);
        if compact {
            lemma_byte_ints(be_octets(p.ip as nat, 4));
            lemma_byte_ints(be_octets(p.port as nat, 2));
            lemma_enc_list_concat(byte_ints(be_octets(p.ip as nat, 4)), byte_ints(be_octets(p.port as nat, 2)));
            lemma_all_valid_concat(byte_ints(be_octets(p.ip as nat, 4)), byte_ints(be_octets(p.port as nat, 2)));
        } else {
            lemma_peer_dict(dotted(p.ip as nat, 4), p.port);
            lemma_single(peer_dict_value(dotted(p.ip as nat, 4), p.port));
        }
        assert(v4_enc(p, compact) == enc_list(v4_values(p, compact)));
        lemma_enc_list_concat(v4_list(ps.drop_last(), compact), v4_values(p, compact));
        lemma_all_valid_concat(v4_list(ps.drop_last(), compact), v4_values(p, compact));
    }
}

proof fn lemma_v6_list(ps: Seq<CompactPeerv6>, compact: bool)
    ensures
        v6_items(ps, compact) == enc_list(v6_list(ps, compact)),
        all_valid(v6_list(ps, compact)),
    decreases ps.len(),
{
    if ps.len() == 0 {
        assert(enc_list(Seq::<BValue>::empty()) == Seq::<u8>::empty());
    } else {
        let p = ps.last();
        lemma_v6_list(ps.drop_last(), compact);
        if compact {
            lemma_byte_ints(be_octets(p.ip as nat, 16));
            lemma_byte_ints(be_octets(p.port as nat, 2));
            lemma_enc_list_concat(byte_ints(be_octets(p.ip as nat, 16)), byte_ints(be_octets(p.port as nat, 2)));
            lemma_all_valid_concat(byte_ints(be_octets(p.ip as nat, 16)), byte_ints(be_octets(p.port as nat, 2)));
        } else {
            lemma_peer_dict(hex_groups(p.ip as nat, 8), p.port);
            lemma_single(peer_dict_value(hex_groups(p.ip as nat, 8), p.port));
        }
        assert(v6_enc(p, compact) == enc_list(v6_values(p, compact)));
        lemma_enc_list_concat(v6_list(ps.drop_last(), compact), v6_values(p, compact));
        lemma_all_valid_concat(v6_list(ps.drop_last(), compact), v6_values(p, compact));
    }
}

/// The failure response is the bencoding of a valid value: a dictionary
/// whose only key is `failure_reason`.
pub proof fn lemma_failure_is_bencode(reason: Seq<u8>)
    ensures
        failure_enc(reason) == enc(failure_value(reason)),
        valid(failure_value(reason)),
{
    let e1 = (key_failure_reason(), BValue::Bytes(reason));
    let empty = Seq::<(Seq<u8>, BValue)>::empty();
    assert(seq![e1] =~= empty.push(e1));
    assert(enc_dict(empty) == Seq::<u8>::empty());
    lemma_enc_dict_push(empty, e1);
    assert(failure_enc(reason) =~= enc(failure_value(reason)));
    let es = seq![e1];
    assert(keys_ascending(es));
    assert forall|i: int| 0 <= i < es.len() implies valid(#[trigger] es[i].1) by {
        assert(es[i].1 == BValue::Bytes(reason));
    }
}

proof fn lemma_announce_keys()
    ensures
        key_lt(key_complete(), key_incomplete()),
        key_lt(key_incomplete(), key_interval()),
        key_lt(key_interval(), key_peers()),
        key_lt(key_peers(), key_peers6()),
        key_lt(key_peers6(), key_tracker_id()),
{
    reveal_with_fuel(key_lt, 8);
    assert(key_lt(key_complete(), key_incomplete()));
    assert(key_lt(key_incomplete(), key_interval()));
    assert(key_lt(key_interval(), key_peers()));
    assert(key_lt(key_peers(), key_peers6()));
    assert(key_lt(key_peers6(), key_tracker_id()));
}

#[verifier::rlimit(100)]
proof fn lemma_announce_bytes(r: AnnounceResponse, compact: bool)
    ensures
        announce_enc(r, compact) == enc(announce_value(r, compact)),
{
    lemma_v4_list(r.peers@, compact);
    lemma_v6_list(r.peers6@, compact);
    let es = announce_value(r, compact)->Dict_0;
    let empty = Seq::<(Seq<u8>, BValue)>::empty();
    let s1 = empty.push(es[0]);
    let s2 = s1.push(es[1]);
    let s3 = s2.push(es[2]);
    let s4 = s3.push(es[3]);
    let s5 = s4.push(es[4]);
    assert(es =~= s5.push(es[5]));
    assert(enc_dict(empty) == Seq::<u8>::empty());
    lemma_enc_dict_push(empty, es[0]);
    lemma_enc_dict_push(s1, es[1]);
    lemma_enc_dict_push(s2, es[2]);
    lemma_enc_dict_push(s3, es[3]);
    lemma_enc_dict_push(s4, es[4]);
    lemma_enc_dict_push(s5, es[5]);
    assert(enc(es[0].1) == int_enc(r.complete as int));
    assert(enc(es[1].1) == int_enc(r.incomplete as int));
    assert(enc(es[2].1) == int_enc(r.interval as int));
    assert(enc(es[3].1) == seq![108u8] + v4_items(r.peers@, compact) + seq![101u8]);
    assert(enc(es[4].1) == seq![108u8] + v6_items(r.peers6@, compact) + seq![101u8]);
    assert(enc(es[5].1) == bytes_enc(r.tracker_id@));
    assert(announce_enc(r, compact) =~= enc(announce_value(r, compact)));
}

/// The announce response is the bencoding of a valid value: a dictionary
/// with its keys in byte order, its peers as lists.
pub proof fn lemma_announce_is_bencode(r: AnnounceResponse, compact: bool)
    ensures
        announce_enc(r, compact) == enc(announce_value(r, compact)),
        valid(announce_value(r, compact)),
{
    lemma_announce_bytes(r, compact);
    lemma_v4_list(r.peers@, compact);
    lemma_v6_list(r.peers6@, compact);
    lemma_announce_keys();
    let es = announce_value(r, compact)->Dict_0;
    assert forall|i: int| 0 <= i && i + 1 < es.len() implies #[trigger] key_lt(es[i].0, es[i + 1].0) by {
        if i == 0 {
        } else if i == 1 {
        } else if i == 2 {
        } else if i == 3 {
        } else {
        }
    }
    assert forall|i: int| 0 <= i < es.len() implies valid(#[trigger] es[i].1) by {
        if i == 3 {
            assert(valid(BValue::List(v4_list(r.peers@, compact))));
        } else if i == 4 {
            assert(valid(BValue::List(v6_list(r.peers6@, compact))));
        }
    }
}

} // verus!
