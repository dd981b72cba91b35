//! Announce and failure responses, bencoded.
use vstd::prelude::*;

use crate::bencode::{bytes_enc, digits, int_enc, push_bytes, push_digits, push_uint};
use crate::peer::{CompactPeerv4, CompactPeerv6};
use crate::request::key_port;

verus! {

/// The last `n` bytes of `x`, most significant first.
pub open spec fn be_octets(x: nat, n: nat) -> Seq<u8>
    decreases n,
{
    if n == 0 {
        Seq::empty()
    } else {
        be_octets(x / 256, (n - 1) as nat).push((x % 256) as u8)
    }
}

/// Each byte bencoded as an integer, one after the other.
pub open spec fn ints_enc(bs: Seq<u8>) -> Seq<u8>
    decreases bs.len(),
{
    if bs.len() == 0 {
        Seq::empty()
    } else {
        ints_enc(bs.drop_last()) + int_enc(bs.last() as int)
    }
}

/// Lower-case hexadecimal digits of `n`, without leading zeros.
pub open spec fn hex_digits(n: nat) -> Seq<u8>
    decreases n,
{
    if n < 16 {
        seq![hex_char(n)]
    } else {
        hex_digits(n / 16).push(hex_char(n % 16))
    }
}

pub open spec fn hex_char(d: nat) -> u8 {
    if d < 10 {
        (48 + d) as u8
    } else {
        (87 + d) as u8
    }
}

/// The last `n` octets of `x` in decimal, joined by dots.
pub open spec fn dotted(x: nat, n: nat) -> Seq<u8>
    decreases n,
{
    if n <= 1 {
        digits(x % 256)
    } else {
        dotted(x / 256, (n - 1) as nat) + seq![46u8] + digits(x % 256)
    }
}

/// The last `n` 16-bit groups of `x` in hexadecimal, joined by colons.
pub open spec fn hex_groups(x: nat, n: nat) -> Seq<u8>
    decreases n,
{
    if n <= 1 {
        hex_digits(x % 65536)
    } else {
        hex_groups(x / 65536, (n - 1) as nat) + seq![58u8] + hex_digits(x % 65536)
    }
}

pub open spec fn key_ip() -> Seq<u8> {
    seq![105u8, 112]
}

/// A peer in the dictionary form: its address as text, and its port.
pub open spec fn peer_dict_enc(ip_text: Seq<u8>, port: u16) -> Seq<u8> {
    seq![100u8] + bytes_enc(key_ip()) + bytes_enc(ip_text) + bytes_enc(key_port()) + int_enc(
        port as int,
    ) + seq![101u8]
}

/// An IPv4 peer: its address and port bytes as integers in compact mode,
/// a dictionary otherwise.
pub open spec fn v4_enc(p: CompactPeerv4, compact: bool) -> Seq<u8> {
    if compact {
        ints_enc(be_octets(p.ip as nat, 4)) + ints_enc(be_octets(p.port as nat, 2))
    } else {
        peer_dict_enc(dotted(p.ip as nat, 4), p.port)
    }
}

/// An IPv6 peer: its address and port bytes as integers in compact mode,
/// a dictionary otherwise.
pub open spec fn v6_enc(p: CompactPeerv6, compact: bool) -> Seq<u8> {
    if compact {
        ints_enc(be_octets(p.ip as nat, 16)) + ints_enc(be_octets(p.port as nat, 2))
    } else {
        peer_dict_enc(hex_groups(p.ip as nat, 8), p.port)
    }
}

pub open spec fn v4_items(ps: Seq<CompactPeerv4>, compact: bool) -> Seq<u8>
    decreases ps.len(),
{
    if ps.len() == 0 {
        Seq::empty()
    } else {
        v4_items(ps.drop_last(), compact) + v4_enc(ps.last(), compact)
    }
}

pub open spec fn v6_items(ps: Seq<CompactPeerv6>, compact: bool) -> Seq<u8>
    decreases ps.len(),
{
    if ps.len() == 0 {
        Seq::empty()
    } else {
        v6_items(ps.drop_last(), compact) + v6_enc(ps.last(), compact)
    }
}

pub open spec fn key_complete() -> Seq<u8> {
    seq![99u8, 111, 109, 112, 108, 101, 116, 101]
}

pub open spec fn key_incomplete() -> Seq<u8> {
    seq![105u8, 110, 99, 111, 109, 112, 108, 101, 116, 101]
}

pub open spec fn key_interval() -> Seq<u8> {
    seq![105u8, 110, 116, 101, 114, 118, 97, 108]
}

pub open spec fn key_peers() -> Seq<u8> {
    seq![112u8, 101, 101, 114, 115]
}

pub open spec fn key_peers6() -> Seq<u8> {
    seq![112u8, 101, 101, 114, 115, 54]
}

pub open spec fn key_tracker_id() -> Seq<u8> {
    seq![116u8, 114, 97, 99, 107, 101, 114, 95, 105, 100]
}

pub open spec fn key_failure_reason() -> Seq<u8> {
    seq![102u8, 97, 105, 108, 117, 114, 101, 95, 114, 101, 97, 115, 111, 110]
}

/// A successful announce response. Keys in byte order: complete,
/// incomplete, interval, peers, peers6, tracker_id.
pub struct AnnounceResponse {
    pub interval: u32,
    pub complete: u32,
    pub incomplete: u32,
    pub tracker_id: Vec<u8>,
    pub peers: Vec<CompactPeerv4>,
    pub peers6: Vec<CompactPeerv6>,
}

pub open spec fn announce_enc(r: AnnounceResponse, compact: bool) -> Seq<u8> {
    seq![100u8] + bytes_enc(key_complete()) + int_enc(r.complete as int) + bytes_enc(
        key_incomplete(),
    ) + int_enc(r.incomplete as int) + bytes_enc(key_interval()) + int_enc(r.interval as int)
        + bytes_enc(key_peers()) + seq![108u8] + v4_items(r.peers@, compact) + seq![101u8]
        + bytes_enc(key_peers6()) + seq![108u8] + v6_items(r.peers6@, compact) + seq![101u8]
        + bytes_enc(key_tracker_id()) + bytes_enc(r.tracker_id@) + seq![101u8]
}

/// A failure response: a dictionary whose only key is `failure_reason`.
pub open spec fn failure_enc(reason: Seq<u8>) -> Seq<u8> {
    seq![100u8] + bytes_enc(key_failure_reason()) + bytes_enc(reason) + seq![101u8]
}

/// Appends the integers of the last `n` bytes of `x`.
fn push_be_ints(out: &mut Vec<u8>, x: u128, n: u8)
    ensures
        final(out)@ == old(out)@ + ints_enc(be_octets(x as nat, n as nat)),
    decreases n,
{
    if n > 0 {
        push_be_ints(out, x / 256, n - 1);
        let ghost mid = out@;
        push_uint(out, (x % 256) as u64);
        proof {
            let s = be_octets(x as nat, n as nat);
            assert(s.drop_last() == be_octets((x / 256) as nat, (n - 1) as nat));
            assert(final(out)@ =~= old(out)@ + ints_enc(s));
        }
    } else {
        proof {
            assert(final(out)@ =~= old(out)@ + ints_enc(be_octets(x as nat, n as nat)));
        }
    }
}

/// Appends the last `n` octets of `x` in decimal, joined by dots.
fn push_dotted(out: &mut Vec<u8>, x: u128, n: u8)
    ensures
        final(out)@ == old(out)@ + dotted(x as nat, n as nat),
    decreases n,
{
    if n > 1 {
        push_dotted(out, x / 256, n - 1);
        out.push(46u8);
    }
    push_digits(out, (x % 256) as u64);
    proof {
        assert(final(out)@ =~= old(out)@ + dotted(x as nat, n as nat));
    }
}

/// Appends the hexadecimal digits of `n`.
fn push_hex(out: &mut Vec<u8>, n: u64)
    ensures
        final(out)@ == old(out)@ + hex_digits(n as nat),
    decreases n,
{
    if n >= 16 {
        push_hex(out, n / 16);
    }
    let d = (n % 16) as u8;
    let c = if d < 10 {
        48 + d
    } else {
        87 + d
    };
    out.push(c);
    proof {
        assert(final(out)@ =~= old(out)@ + hex_digits(n as nat));
    }
}

/// Appends the last `n` 16-bit groups of `x` in hexadecimal, joined by colons.
fn push_hex_groups(out: &mut Vec<u8>, x: u128, n: u8)
    ensures
        final(out)@ == old(out)@ + hex_groups(x as nat, n as nat),
    decreases n,
{
    if n > 1 {
        push_hex_groups(out, x / 65536, n - 1);
        out.push(58u8);
    }
    push_hex(out, (x % 65536) as u64);
    proof {
        assert(final(out)@ =~= old(out)@ + hex_groups(x as nat, n as nat));
    }
}

fn push_peer_dict(out: &mut Vec<u8>, x: u128, is_v4: bool, port: u16)
    ensures
        final(out)@ == old(out)@ + peer_dict_enc(
            if is_v4 {
                dotted(x as nat, 4)
            } else {
                hex_groups(x as nat, 8)
            },
            port,
        ),
{
    let k_ip: [u8; 2] = [105, 112];
    let k_port: [u8; 4] = [112, 111, 114, 116];
    proof {
        assert(k_ip@ == key_ip());
        assert(k_port@ == key_port());
    }
    out.push(100u8);
    push_bytes(out, k_ip.as_slice());
    let mut text: Vec<u8> = Vec::new();
    if is_v4 {
        push_dotted(&mut text, x, 4);
    } else {
        push_hex_groups(&mut text, x, 8);
    }
    proof {
        assert(text@ =~= Seq::<u8>::empty() + text@);
    }
    push_bytes(out, text.as_slice());
    push_bytes(out, k_port.as_slice());
    push_uint(out, port as u64);
    out.push(101u8);
    proof {
        assert(final(out)@ =~= old(out)@ + peer_dict_enc(text@, port));
    }
}

fn push_v4_items(out: &mut Vec<u8>, ps: &Vec<CompactPeerv4>, compact: bool)
    ensures
        final(out)@ == old(out)@ + v4_items(ps@, compact),
{
    let mut i: usize = 0;
    while i < ps.len()
        invariant
            0 <= i <= ps@.len(),
            out@ == old(out)@ + v4_items(ps@.take(i as int), compact),
        decreases ps@.len() - i,
    {
        let p = ps[i];
        let ghost mid = out@;
        if compact {
            push_be_ints(out, p.ip as u128, 4);
            push_be_ints(out, p.port as u128, 2);
        } else {
            push_peer_dict(out, p.ip as u128, true, p.port);
        }
        proof {
            assert(ps@.take(i + 1).drop_last() == ps@.take(i as int));
            assert(out@ =~= old(out)@ + v4_items(ps@.take(i + 1), compact));
        }
        i = i + 1;
    }
    proof {
        assert(ps@.take(ps@.len() as int) == ps@);
    }
}

fn push_v6_items(out: &mut Vec<u8>, ps: &Vec<CompactPeerv6>, compact: bool)
    ensures
        final(out)@ == old(out)@ + v6_items(ps@, compact),
{
    let mut i: usize = 0;
    while i < ps.len()
        invariant
            0 <= i <= ps@.len(),
            out@ == old(out)@ + v6_items(ps@.take(i as int), compact),
        decreases ps@.len() - i,
    {
        let p = ps[i];
        if compact {
            push_be_ints(out, p.ip, 16);
            push_be_ints(out, p.port as u128, 2);
        } else {
            push_peer_dict(out, p.ip, false, p.port);
        }
        proof {
            assert(ps@.take(i + 1).drop_last() == ps@.take(i as int));
            assert(out@ =~= old(out)@ + v6_items(ps@.take(i + 1), compact));
        }
        i = i + 1;
    }
    proof {
        assert(ps@.take(ps@.len() as int) == ps@);
    }
}

/// The bencoded form of a successful announce response.
pub fn encode_announce_response(r: &AnnounceResponse, compact: bool) -> (out: Vec<u8>)
    ensures
        out@ == announce_enc(*r, compact),
{
    let k_complete: [u8; 8] = [99, 111, 109, 112, 108, 101, 116, 101];
    let k_incomplete: [u8; 10] = [105, 110, 99, 111, 109, 112, 108, 101, 116, 101];
    let k_interval: [u8; 8] = [105, 110, 116, 101, 114, 118, 97, 108];
    let k_peers: [u8; 5] = [112, 101, 101, 114, 115];
    let k_peers6: [u8; 6] = [112, 101, 101, 114, 115, 54];
    let k_tracker_id: [u8; 10] = [116, 114, 97, 99, 107, 101, 114, 95, 105, 100];
    proof {
        assert(k_complete@ == key_complete());
        assert(k_incomplete@ == key_incomplete());
        assert(k_interval@ == key_interval());
        assert(k_peers@ == key_peers());
        assert(k_peers6@ == key_peers6());
        assert(k_tracker_id@ == key_tracker_id());
    }
    let mut out: Vec<u8> = Vec::new();
    out.push(100u8);
    push_bytes(&mut out, k_complete.as_slice());
    push_uint(&mut out, r.complete as u64);
    push_bytes(&mut out, k_incomplete.as_slice());
    push_uint(&mut out, r.incomplete as u64);
    push_bytes(&mut out, k_interval.as_slice());
    push_uint(&mut out, r.interval as u64);
    push_bytes(&mut out, k_peers.as_slice());
    out.push(108u8);
    push_v4_items(&mut out, &r.peers, compact);
    out.push(101u8);
    push_bytes(&mut out, k_peers6.as_slice());
    out.push(108u8);
    push_v6_items(&mut out, &r.peers6, compact);
    out.push(101u8);
    push_bytes(&mut out, k_tracker_id.as_slice());
    push_bytes(&mut out, r.tracker_id.as_slice());
    out.push(101u8);
    proof {
        assert(out@ =~= announce_enc(*r, compact));
    }
    out
}

/// The bencoded failure response with the given reason.
pub fn encode_failure(reason: &[u8]) -> (out: Vec<u8>)
    ensures
        out@ == failure_enc(reason@),
{
    let k: [u8; 14] = [102, 97, 105, 108, 117, 114, 101, 95, 114, 101, 97, 115, 111, 110];
    proof {
        assert(k@ == key_failure_reason());
    }
    let mut out: Vec<u8> = Vec::new();
    out.push(100u8);
    push_bytes(&mut out, k.as_slice());
    push_bytes(&mut out, reason);
    out.push(101u8);
    proof {
        assert(out@ =~= failure_enc(reason@));
    }
    out
}

} // verus!
