//! The scrape handler: statistics for one or more info hashes.
use vstd::prelude::*;

use crate::bencode::{bytes_enc, int_enc, push_bytes, push_uint};
use crate::query::{bytes_eq, pct_decode, percent_decode, query_pairs, split_query, QueryPair};
use crate::request::{key_downloaded, key_info_hash};
use crate::response::{encode_failure, failure_enc, key_complete, key_incomplete};
use crate::stats::{scrape_rows, ScrapeFile, ScrapeRow, TorrentStore};
use crate::text::{bytes_of, latin1, latin1_bytes, lemma_latin1_round_trip, text_of};
use crate::tracker::malformed;

verus! {

/// The values of every pair with the given key, in order, as written.
pub open spec fn values_of(ps: Seq<(Seq<u8>, Seq<u8>)>, k: Seq<u8>) -> Seq<Seq<u8>>
    decreases ps.len(),
{
    if ps.len() == 0 {
        Seq::empty()
    } else if ps.last().0 == k {
        values_of(ps.drop_last(), k).push(ps.last().1)
    } else {
        values_of(ps.drop_last(), k)
    }
}

/// Each value unescaped and 20 bytes long; `None` if one is not.
pub open spec fn decode_hashes(vs: Seq<Seq<u8>>) -> Option<Seq<Seq<u8>>>
    decreases vs.len(),
{
    if vs.len() == 0 {
        Some(Seq::empty())
    } else {
        match (decode_hashes(vs.drop_last()), pct_decode(vs.last())) {
            (Some(hs), Some(h)) => if h.len() == 20 {
                Some(hs.push(h))
            } else {
                None
            },
            _ => None,
        }
    }
}

/// The hashes that a scrape query asks for: at least one, each well formed.
pub open spec fn scrape_spec(q: Seq<u8>) -> Option<Seq<Seq<u8>>> {
    let vs = values_of(query_pairs(q), key_info_hash());
    if vs.len() == 0 {
        None
    } else {
        decode_hashes(vs)
    }
}

/// Byte strings in lexicographic order.
pub open spec fn lex_le(a: Seq<u8>, b: Seq<u8>) -> bool
    decreases a.len(),
{
    if a.len() == 0 {
        true
    } else if b.len() == 0 {
        false
    } else if a[0] != b[0] {
        a[0] < b[0]
    } else {
        lex_le(a.drop_first(), b.drop_first())
    }
}

pub open spec fn lex_sorted(s: Seq<Seq<u8>>) -> bool {
    forall|i: int, j: int| 0 <= i < j < s.len() ==> lex_le(#[trigger] s[i], #[trigger] s[j])
}

pub open spec fn views(v: Seq<Vec<u8>>) -> Seq<Seq<u8>> {
    v.map_values(|x: Vec<u8>| x@)
}

/// Relies on `slice::sort` of std: it permutes the items into ascending
/// order, and `Vec<u8>` compares lexicographically.
#[verifier::external_body]
fn sort_hashes(v: &mut Vec<Vec<u8>>)
    ensures
        views(final(v)@).to_multiset() == views(old(v)@).to_multiset(),
        lex_sorted(views(final(v)@)),
{
    v.sort();
}

/// One file entry: the hash, then its counts in a dictionary.
pub open spec fn file_enc(r: ScrapeRow) -> Seq<u8> {
    bytes_enc(latin1_bytes(r.0)) + seq![100u8] + bytes_enc(key_complete()) + int_enc(r.1 as int)
        + bytes_enc(key_downloaded()) + int_enc(r.2 as int) + bytes_enc(key_incomplete()) + int_enc(
        r.3 as int,
    ) + seq![101u8]
}

pub open spec fn files_enc(rows: Seq<ScrapeRow>) -> Seq<u8>
    decreases rows.len(),
{
    if rows.len() == 0 {
        Seq::empty()
    } else {
        files_enc(rows.drop_last()) + file_enc(rows.last())
    }
}

/// The scrape answer: a dictionary that maps each hash to its counts.
pub open spec fn scrape_enc(rows: Seq<ScrapeRow>) -> Seq<u8> {
    seq![100u8] + files_enc(rows) + seq![101u8]
}

/// The values of every pair with the key.
fn get_values(ps: &Vec<QueryPair>, k: &[u8]) -> (r: Vec<Vec<u8>>)
    ensures
        views(r@) == values_of(ps@.map_values(|p: QueryPair| p@), k@),
{
    let ghost all = ps@.map_values(|p: QueryPair| p@);
    let mut out: Vec<Vec<u8>> = Vec::new();
    let mut i: usize = 0;
    while i < ps.len()
        invariant
            0 <= i <= ps@.len(),
            all == ps@.map_values(|p: QueryPair| p@),
            views(out@) == values_of(all.take(i as int), k@),
        decreases ps@.len() - i,
    {
        proof {
            assert(all.take(i + 1).drop_last() == all.take(i as int));
        }
        if bytes_eq(ps[i].key.as_slice(), k) {
            let v = ps[i].value.clone();
            let ghost before = out@;
            out.push(v);
            proof {
                assert(views(out@) =~= views(before).push(v@));
            }
        }
        i = i + 1;
    }
    proof {
        assert(all.take(ps@.len() as int) == all);
    }
    out
}


proof fn lemma_decode_prefix_none(vs: Seq<Seq<u8>>, i: int)
    requires
        0 <= i <= vs.len(),
        decode_hashes(vs.take(i)) is None,
    ensures
        decode_hashes(vs) is None,
    decreases vs.len() - i,
{
    if i < vs.len() {
        assert(vs.take(i + 1).drop_last() == vs.take(i));
        lemma_decode_prefix_none(vs, i + 1);
    } else {
        assert(vs.take(i) == vs);
    }
}

/// Unescapes each value and checks that it is 20 bytes long.
fn decode_all(vs: &Vec<Vec<u8>>) -> (r: Option<Vec<Vec<u8>>>)
    ensures
        r is Some <==> decode_hashes(views(vs@)) is Some,
        r matches Some(hs) ==> decode_hashes(views(vs@)) == Some(views(hs@)),
{
    let ghost all = views(vs@);
    let mut out: Vec<Vec<u8>> = Vec::new();
    let mut i: usize = 0;
    while i < vs.len()
        invariant
            0 <= i <= vs@.len(),
            all == views(vs@),
            decode_hashes(all.take(i as int)) == Some(views(out@)),
        decreases vs@.len() - i,
    {
        proof {
            assert(all.take(i + 1).drop_last() == all.take(i as int));
            assert(all.take(i + 1).last() == vs@[i as int]@);
        }
        match percent_decode(vs[i].as_slice()) {
            Some(h) => {
                if h.len() != 20 {
                    proof {
                        lemma_decode_prefix_none(all, i + 1);
                    }
                    return None;
                }
                let ghost before = out@;
                out.push(h);
                proof {
                    assert(views(out@) =~= views(before).push(h@));
                }
            },
            None => {
                proof {
                    lemma_decode_prefix_none(all, i + 1);
                }
                return None;
            },
        }
        i = i + 1;
    }
    proof {
        assert(all.take(vs@.len() as int) == all);
    }
    Some(out)
}

/// Whether the list holds the byte string.
fn holds(v: &Vec<Vec<u8>>, x: &Vec<u8>) -> (r: bool)
    ensures
        r == views(v@).contains(x@),
{
    let mut i: usize = 0;
    while i < v.len()
        invariant
            0 <= i <= v@.len(),
            forall|j: int| 0 <= j < i ==> v@[j]@ != x@,
        decreases v@.len() - i,
    {
        if bytes_eq(v[i].as_slice(), x.as_slice()) {
            proof {
                assert(views(v@)[i as int] == x@);
            }
            return true;
        }
        i = i + 1;
    }
    proof {
        if views(v@).contains(x@) {
            let j = choose|j: int| 0 <= j < views(v@).len() && views(v@)[j] == x@;
            assert(v@[j]@ == x@);
        }
    }
    false
}

/// The byte strings of the list, each once, in ascending order.
fn sorted_unique(hs: &Vec<Vec<u8>>) -> (r: Vec<Vec<u8>>)
    ensures
        views(r@).no_duplicates(),
        lex_sorted(views(r@)),
        views(r@).to_set() == views(hs@).to_set(),
{
    let mut out: Vec<Vec<u8>> = Vec::new();
    let mut i: usize = 0;
    while i < hs.len()
        invariant
            0 <= i <= hs@.len(),
            views(out@).no_duplicates(),
            views(out@).to_set() == views(hs@).take(i as int).to_set(),
        decreases hs@.len() - i,
    {
        let ghost before = views(out@);
        proof {
            assert(views(hs@).take(i + 1) == views(hs@).take(i as int).push(hs@[i as int]@));
            views(hs@).take(i as int).lemma_push_to_set_commute(hs@[i as int]@);
        }
        if !holds(&out, &hs[i]) {
            let h = hs[i].clone();
            out.push(h);
            proof {
                assert(views(out@) =~= before.push(h@));
                before.lemma_push_to_set_commute(h@);
            }
        } else {
            proof {
                assert(views(out@).to_set() =~= views(out@).to_set().insert(hs@[i as int]@));
            }
        }
        i = i + 1;
    }
    proof {
        assert(views(hs@).take(hs@.len() as int) == views(hs@));
    }
    let ghost unsorted = views(out@);
    sort_hashes(&mut out);
    proof {
        let after = views(out@);
        unsorted.to_multiset_ensures();
        after.to_multiset_ensures();
        assert forall|x: Seq<u8>| after.to_set().contains(x) == unsorted.to_set().contains(x) by {
            assert(after.contains(x) == (after.to_multiset().count(x) > 0));
            assert(unsorted.contains(x) == (unsorted.to_multiset().count(x) > 0));
        }
        assert(after.to_set() =~= unsorted.to_set());
        unsorted.lemma_multiset_has_no_duplicates();
        after.lemma_multiset_has_no_duplicates_conv();
    }
    out
}

/// Every line of a scrape answer is for one of the hashes asked for.
proof fn lemma_rows_from_keys(m: Map<Seq<char>, crate::stats::Torrent>, ks: Seq<Seq<char>>)
    ensures
        forall|i: int| 0 <= i < scrape_rows(m, ks).len() ==> ks.contains(#[trigger] scrape_rows(m, ks)[i].0),
    decreases ks.len(),
{
    if ks.len() > 0 {
        lemma_rows_from_keys(m, ks.drop_last());
        let rest = scrape_rows(m, ks.drop_last());
        assert forall|i: int| 0 <= i < scrape_rows(m, ks).len() implies ks.contains(#[trigger] scrape_rows(m, ks)[i].0) by {
            if i < rest.len() {
                let j = choose|j: int| 0 <= j < ks.drop_last().len() && ks.drop_last()[j] == rest[i].0;
                assert(ks[j] == rest[i].0);
            } else {
                assert(ks[ks.len() - 1] == ks.last());
            }
        }
    }
}

/// Appends the file entries of scrape lines whose hashes are Latin-1 text.
fn push_files(out: &mut Vec<u8>, rows: &Vec<ScrapeFile>)
    requires
        forall|i: int| 0 <= i < rows@.len() ==> crate::text::is_latin1(#[trigger] rows@[i].info_hash@),
    ensures
        final(out)@ == old(out)@ + files_enc(rows@.map_values(|f: ScrapeFile| f@)),
{
    let ghost rs = rows@.map_values(|f: ScrapeFile| f@);
    let k_complete: [u8; 8] = [99, 111, 109, 112, 108, 101, 116, 101];
    let k_downloaded: [u8; 10] = [100, 111, 119, 110, 108, 111, 97, 100, 101, 100];
    let k_incomplete: [u8; 10] = [105, 110, 99, 111, 109, 112, 108, 101, 116, 101];
    proof {
        assert(k_complete@ == key_complete());
        assert(k_downloaded@ == key_downloaded());
        assert(k_incomplete@ == key_incomplete());
    }
    let mut i: usize = 0;
    while i < rows.len()
        invariant
            0 <= i <= rows@.len(),
            rs == rows@.map_values(|f: ScrapeFile| f@),
            forall|i: int| 0 <= i < rows@.len() ==> crate::text::is_latin1(#[trigger] rows@[i].info_hash@),
            k_complete@ == key_complete(),
            k_downloaded@ == key_downloaded(),
            k_incomplete@ == key_incomplete(),
            out@ == old(out)@ + files_enc(rs.take(i as int)),
        decreases rows@.len() - i,
    {
        let f = &rows[i];
        let ghost mid = out@;
        match bytes_of(&f.info_hash) {
            Some(b) => {
                push_bytes(out, b.as_slice());
            },
            None => {
                assert(false);
            },
        }
        out.push(100u8);
        push_bytes(out, k_complete.as_slice());
        push_uint(out, f.complete as u64);
        push_bytes(out, k_downloaded.as_slice());
        push_uint(out, f.downloaded as u64);
        push_bytes(out, k_incomplete.as_slice());
        push_uint(out, f.incomplete as u64);
        out.push(101u8);
        proof {
            assert(rs.take(i + 1).drop_last() == rs.take(i as int));
            assert(rs.take(i + 1).last() == f@);
            assert(out@ =~= old(out)@ + files_enc(rs.take(i + 1)));
        }
        i = i + 1;
    }
    proof {
        assert(rs.take(rows@.len() as int) == rs);
    }
}

/// Answers a scrape query: for each distinct hash asked for, in byte order,
/// its complete, downloaded and incomplete counts; hashes that the
/// statistics do not know are left out. A query without a well-formed
/// `info_hash` gets the failure dictionary.
pub fn parse_scrape(stats: &TorrentStore, query: &[u8]) -> (out: Vec<u8>)
    ensures
        scrape_spec(query@) is None ==> out@ == failure_enc(malformed()),
        scrape_spec(query@) matches Some(hs) ==> exists|keys: Seq<Seq<u8>>|
            keys.no_duplicates() && lex_sorted(keys) && keys.to_set() == hs.to_set() && out@
                == scrape_enc(
                scrape_rows(stats.records(), keys.map_values(|k: Seq<u8>| latin1(k))),
            ),
{
    let reason: [u8; 17] = [77, 97, 108, 102, 111, 114, 109, 101, 100, 32, 114, 101, 113, 117, 101, 115, 116];
    let k_hash: [u8; 9] = [105, 110, 102, 111, 95, 104, 97, 115, 104];
    proof {
        assert(reason@ == malformed());
        assert(k_hash@ == key_info_hash());
    }
    let ps = split_query(query);
    let vs = get_values(&ps, k_hash.as_slice());
    if vs.len() == 0 {
        return encode_failure(reason.as_slice());
    }
    let hs = match decode_all(&vs) {
        Some(hs) => hs,
        None => {
            return encode_failure(reason.as_slice());
        },
    };
    let sorted = sorted_unique(&hs);
    let mut keys: Vec<String> = Vec::new();
    let mut i: usize = 0;
    while i < sorted.len()
        invariant
            0 <= i <= sorted@.len(),
            keys@.len() == i,
            forall|j: int| 0 <= j < i ==> (#[trigger] keys@[j])@ == latin1(sorted@[j]@),
        decreases sorted@.len() - i,
    {
        keys.push(text_of(sorted[i].as_slice()));
        i = i + 1;
    }
    let ghost kv = keys@.map_values(|h: String| h@);
    proof {
        assert(kv =~= views(sorted@).map_values(|k: Seq<u8>| latin1(k)));
    }
    let rows = stats.get_scrapes(keys);
    proof {
        lemma_rows_from_keys(stats.records(), kv);
        assert forall|i: int| 0 <= i < rows@.len() implies crate::text::is_latin1(#[trigger] rows@[i].info_hash@) by {
            let rv = rows@.map_values(|f: ScrapeFile| f@);
            assert(rv[i] == rows@[i]@);
            assert(kv.contains(rv[i].0));
            let j = choose|j: int| 0 <= j < kv.len() && kv[j] == rv[i].0;
            lemma_latin1_round_trip(sorted@[j]@);
        }
    }
    let mut out: Vec<u8> = Vec::new();
    out.push(100u8);
    push_files(&mut out, &rows);
    out.push(101u8);
    proof {
        assert(out@ =~= scrape_enc(rows@.map_values(|f: ScrapeFile| f@)));
    }
    out
}

} // verus!
