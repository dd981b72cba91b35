use tracker::bencode::{push_bytes, push_int, push_uint};
use tracker::query::{parse_u64, percent_decode, split_query};
use tracker::response::encode_failure;
use tracker::sampler::PeerList;
use tracker::peer::{CompactPeer, CompactPeerv4};
use tracker::text::{bytes_of, text_of};

#[test]
fn integers_and_strings() {
    let mut out = Vec::new();
    push_int(&mut out, -42);
    push_uint(&mut out, 0);
    push_int(&mut out, i64::MIN);
    push_bytes(&mut out, b"spam");
    push_bytes(&mut out, b"");
    assert_eq!(out, b"i-42ei0ei-9223372036854775808e4:spam0:".to_vec());
}

#[test]
fn failure_dictionary() {
    assert_eq!(encode_failure(b"no"), b"d14:failure_reason2:noe".to_vec());
}

#[test]
fn query_pieces() {
    let ps = split_query(b"a=1&b&c=x=y&");
    let got: Vec<(Vec<u8>, Vec<u8>)> = ps.into_iter().map(|p| (p.key, p.value)).collect();
    assert_eq!(
        got,
        vec![
            (b"a".to_vec(), b"1".to_vec()),
            (b"b".to_vec(), b"".to_vec()),
            (b"c".to_vec(), b"x=y".to_vec()),
            (b"".to_vec(), b"".to_vec()),
        ]
    );
    assert_eq!(percent_decode(b"%41b%2f%FF"), Some(vec![0x41, b'b', 0x2f, 0xff]));
    assert_eq!(percent_decode(b"%4"), None);
    assert_eq!(percent_decode(b"%zz"), None);
    assert_eq!(parse_u64(b"18446744073709551615"), Some(u64::MAX));
    assert_eq!(parse_u64(b"18446744073709551616"), None);
    assert_eq!(parse_u64(b""), None);
    assert_eq!(parse_u64(b"12a"), None);
}

#[test]
fn latin1_text() {
    let s = text_of(&[0x41, 0xff]);
    assert_eq!(s, "A\u{ff}");
    assert_eq!(bytes_of(&s), Some(vec![0x41, 0xff]));
    assert_eq!(bytes_of(&"\u{100}".to_string()), None);
}

#[test]
fn sampler_keeps_small_pool_and_cuts_large() {
    let mut l = PeerList::new();
    for i in 0..3u16 {
        l.0.push(CompactPeer::V4(CompactPeerv4 { ip: 1, port: i }));
    }
    let before = l.0.clone();
    l.make_random(3);
    assert_eq!(l.0, before);
    l.make_random(2);
    assert_eq!(l.0.len(), 2);
    assert_ne!(l.0[0], l.0[1]);
    assert!(l.0.iter().all(|p| before.contains(p)));
}

use tracker::value::{decode, encode, Value};

fn sample() -> Value {
    Value::Dict(vec![
        (b"".to_vec(), Value::Dict(vec![])),
        (b"complete".to_vec(), Value::Int(100)),
        (b"max".to_vec(), Value::Int(i64::MAX)),
        (b"min".to_vec(), Value::Int(i64::MIN)),
        (
            b"peers".to_vec(),
            Value::List(vec![Value::Int(127), Value::Int(-1), Value::Bytes(b"ab:c".to_vec())]),
        ),
        (b"z".to_vec(), Value::List(vec![])),
    ])
}

#[test]
fn value_encoding_is_exact() {
    assert_eq!(
        String::from_utf8(encode(&sample())).unwrap(),
        "d0:de8:completei100e3:maxi9223372036854775807e3:mini-9223372036854775808e5:peersli127ei-1e4:ab:ce1:zlee"
    );
}

#[test]
fn value_round_trip() {
    let v = sample();
    assert_eq!(decode(&encode(&v)), Some(v));
    for v in [Value::Int(0), Value::Bytes(vec![]), Value::List(vec![Value::Bytes(vec![0, 101])])] {
        assert_eq!(decode(&encode(&v)), Some(v));
    }
}

#[test]
fn value_decode_rejects_malformed() {
    for bad in [
        &b""[..],
        b"i12",
        b"ie",
        b"i-0e",
        b"i9223372036854775808e",
        b"5:abc",
        b"l",
        b"d3:keye",
        b"li1e",
        b"x",
        b"i1ei2e",
        b"di1ei2ee",
        b"d1:bi1e1:ai2ee",
        b"d1:ai1e1:ai2ee",
        b"d2:abi1e1:ai2ee",
    ] {
        assert_eq!(decode(bad), None, "{:?}", bad);
    }
    assert_eq!(decode(b"i-9223372036854775808e"), Some(Value::Int(i64::MIN)));
    assert_eq!(
        decode(b"d1:ai1e2:abi2ee"),
        Some(Value::Dict(vec![(b"a".to_vec(), Value::Int(1)), (b"ab".to_vec(), Value::Int(2))]))
    );
}

#[test]
fn value_decode_rejects_non_canonical() {
    for bad in [&b"i03e"[..], b"i-03e", b"02:ab", b"i00e"] {
        assert_eq!(decode(bad), None, "{:?}", bad);
    }
    assert_eq!(decode(b"i0e"), Some(Value::Int(0)));
    assert_eq!(decode(b"0:"), Some(Value::Bytes(vec![])));
}
