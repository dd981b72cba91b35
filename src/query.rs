//! Query strings: `key=value` pairs joined by `&`, percent-escapes and
//! decimal numbers.
use vstd::prelude::*;

verus! {

/// One `key=value` pair of a query string, as written (still escaped).
pub struct QueryPair {
    pub key: Vec<u8>,
    pub value: Vec<u8>,
}

impl View for QueryPair {
    type V = (Seq<u8>, Seq<u8>);

    open spec fn view(&self) -> (Seq<u8>, Seq<u8>) {
        (self.key@, self.value@)
    }
}

/// The state of a left-to-right scan: finished pairs, the current key and
/// value, and whether the current pair has passed its `=`.
pub type Scan = (Seq<(Seq<u8>, Seq<u8>)>, Seq<u8>, Seq<u8>, bool);

/// One byte of the scan. `&` ends a pair; the first `=` of a pair starts its
/// value; any other byte extends the key or the value.
pub open spec fn scan_step(s: Scan, c: u8) -> Scan {
    if c == 38 {
        (s.0.push((s.1, s.2)), Seq::empty(), Seq::empty(), false)
    } else if c == 61 && !s.3 {
        (s.0, s.1, s.2, true)
    } else if s.3 {
        (s.0, s.1, s.2.push(c), true)
    } else {
        (s.0, s.1.push(c), s.2, false)
    }
}

pub open spec fn scan(q: Seq<u8>) -> Scan
    decreases q.len(),
{
    if q.len() == 0 {
        (Seq::empty(), Seq::empty(), Seq::empty(), false)
    } else {
        scan_step(scan(q.drop_last()), q.last())
    }
}

/// The pairs of a query string, in order. A pair without `=` has an empty
/// value.
pub open spec fn query_pairs(q: Seq<u8>) -> Seq<(Seq<u8>, Seq<u8>)> {
    let s = scan(q);
    s.0.push((s.1, s.2))
}

/// Splits a query string into its pairs.
pub fn split_query(q: &[u8]) -> (r: Vec<QueryPair>)
    ensures
        r@.map_values(|p: QueryPair| p@) == query_pairs(q@),
{
    let mut done: Vec<QueryPair> = Vec::new();
    let mut key: Vec<u8> = Vec::new();
    let mut value: Vec<u8> = Vec::new();
    let mut in_value = false;
    let mut i: usize = 0;
    while i < q.len()
        invariant
            0 <= i <= q@.len(),
            scan(q@.take(i as int)) == (done@.map_values(|p: QueryPair| p@), key@, value@, in_value),
        decreases q@.len() - i,
    {
        let c = q[i];
        proof {
            assert(q@.take(i + 1).drop_last() == q@.take(i as int));
        }
        if c == 38 {
            let k = key;
            let v = value;
            done.push(QueryPair { key: k, value: v });
            key = Vec::new();
            value = Vec::new();
            in_value = false;
            proof {
                assert(done@.map_values(|p: QueryPair| p@) =~= scan(q@.take(i as int)).0.push(
                    (k@, v@),
                ));
            }
        } else if c == 61 && !in_value {
            in_value = true;
        } else if in_value {
            value.push(c);
        } else {
            key.push(c);
        }
        i = i + 1;
    }
    proof {
        assert(q@.take(q@.len() as int) == q@);
    }
    let ghost before = done@;
    done.push(QueryPair { key, value });
    proof {
        assert(done@.map_values(|p: QueryPair| p@) =~= before.map_values(|p: QueryPair| p@).push(
            done@.last()@,
        ));
    }
    done
}

/// The value of the first pair with the given key.
pub open spec fn lookup(ps: Seq<(Seq<u8>, Seq<u8>)>, k: Seq<u8>) -> Option<Seq<u8>>
    decreases ps.len(),
{
    if ps.len() == 0 {
        None
    } else if ps[0].0 == k {
        Some(ps[0].1)
    } else {
        lookup(ps.drop_first(), k)
    }
}

/// Whether two byte strings are equal.
pub fn bytes_eq(a: &[u8], b: &[u8]) -> (r: bool)
    ensures
        r == (a@ == b@),
{
    if a.len() != b.len() {
        return false;
    }
    let mut i: usize = 0;
    while i < a.len()
        invariant
            a@.len() == b@.len(),
            0 <= i <= a@.len(),
            a@.take(i as int) == b@.take(i as int),
        decreases a@.len() - i,
    {
        if a[i] != b[i] {
            return false;
        }
        proof {
            assert(a@.take(i + 1) == a@.take(i as int).push(a@[i as int]));
            assert(b@.take(i + 1) == b@.take(i as int).push(b@[i as int]));
        }
        i = i + 1;
    }
    proof {
        assert(a@.take(a@.len() as int) == a@);
        assert(b@.take(b@.len() as int) == b@);
    }
    true
}

/// The value of the first pair with the given key, as written.
pub fn find_value<'a>(ps: &'a Vec<QueryPair>, k: &[u8]) -> (r: Option<&'a Vec<u8>>)
    ensures
        r matches Some(v) ==> lookup(ps@.map_values(|p: QueryPair| p@), k@) == Some(v@),
        r is None ==> lookup(ps@.map_values(|p: QueryPair| p@), k@) is None,
{
    let ghost all = ps@.map_values(|p: QueryPair| p@);
    let mut i: usize = 0;
    proof {
        assert(all.skip(0) == all);
    }
    while i < ps.len()
        invariant
            0 <= i <= ps@.len(),
            all == ps@.map_values(|p: QueryPair| p@),
            lookup(all, k@) == lookup(all.skip(i as int), k@),
        decreases ps@.len() - i,
    {
        proof {
            assert(all.skip(i as int).drop_first() == all.skip(i + 1));
        }
        if bytes_eq(ps[i].key.as_slice(), k) {
            return Some(&ps[i].value);
        }
        i = i + 1;
    }
    None
}

/// The value of a hexadecimal digit.
pub open spec fn hex_val(c: u8) -> Option<u8> {
    if 48 <= c <= 57 {
        Some((c - 48) as u8)
    } else if 97 <= c <= 102 {
        Some((c - 87) as u8)
    } else if 65 <= c <= 70 {
        Some((c - 55) as u8)
    } else {
        None
    }
}

/// `Some(p + r)` where `o` is `Some(r)`.
pub open spec fn prepend(p: Seq<u8>, o: Option<Seq<u8>>) -> Option<Seq<u8>> {
    match o {
        Some(r) => Some(p + r),
        None => None,
    }
}

/// The bytes that a percent-escaped text stands for: `%` and two hex digits
/// is one byte, any other byte is itself. A `%` without two hex digits after
/// it makes the text malformed.
pub open spec fn pct_decode(v: Seq<u8>) -> Option<Seq<u8>>
    decreases v.len(),
{
    if v.len() == 0 {
        Some(Seq::empty())
    } else if v[0] == 37 {
        if v.len() >= 3 && hex_val(v[1]) is Some && hex_val(v[2]) is Some {
            prepend(
                seq![(hex_val(v[1])->0 * 16 + hex_val(v[2])->0) as u8],
                pct_decode(v.skip(3)),
            )
        } else {
            None
        }
    } else {
        prepend(seq![v[0]], pct_decode(v.skip(1)))
    }
}

fn hex_digit(c: u8) -> (r: Option<u8>)
    ensures
        r == hex_val(c),
{
    if 48 <= c && c <= 57 {
        Some(c - 48)
    } else if 97 <= c && c <= 102 {
        Some(c - 87)
    } else if 65 <= c && c <= 70 {
        Some(c - 55)
    } else {
        None
    }
}

/// Undoes percent-escapes; `None` where an escape is malformed.
pub fn percent_decode(v: &[u8]) -> (r: Option<Vec<u8>>)
    ensures
        r is Some <==> pct_decode(v@) is Some,
        r matches Some(b) ==> pct_decode(v@) == Some(b@),
{
    let mut out: Vec<u8> = Vec::new();
    let mut i: usize = 0;
    proof {
        assert(v@.skip(0) == v@);
        match pct_decode(v@) {
            Some(t) => {
                assert(out@ + t =~= t);
            },
            None => {},
        }
    }
    while i < v.len()
        invariant
            0 <= i <= v@.len(),
            pct_decode(v@) == prepend(out@, pct_decode(v@.skip(i as int))),
        decreases v@.len() - i,
    {
        let ghost rest = v@.skip(i as int);
        let ghost before = out@;
        if v[i] == 37 {
            if v.len() - i > 2 {
                let hi = hex_digit(v[i + 1]);
                let lo = hex_digit(v[i + 2]);
                match (hi, lo) {
                    (Some(h), Some(l)) => {
                        out.push(h * 16 + l);
                        proof {
                            assert(rest.skip(3) == v@.skip(i + 3));
                            assert(rest[1] == v@[i + 1]);
                            assert(rest[2] == v@[i + 2]);
                            match pct_decode(v@.skip(i + 3)) {
                                Some(t) => {
                                    assert(before + (seq![(h * 16 + l) as u8] + t) =~= out@ + t);
                                },
                                None => {},
                            }
                        }
                        i = i + 3;
                    },
                    _ => {
                        proof {
                            assert(rest[1] == v@[i + 1]);
                            assert(rest[2] == v@[i + 2]);
                        }
                        return None;
                    },
                }
            } else {
                return None;
            }
        } else {
            out.push(v[i]);
            proof {
                assert(rest.skip(1) == v@.skip(i + 1));
                match pct_decode(v@.skip(i + 1)) {
                    Some(t) => {
                        assert(before + (seq![v@[i as int]] + t) =~= out@ + t);
                    },
                    None => {},
                }
            }
            i = i + 1;
        }
    }
    proof {
        assert(out@ + Seq::<u8>::empty() =~= out@);
    }
    Some(out)
}

/// Whether a byte string is a non-empty run of decimal digits.
pub open spec fn is_decimal(s: Seq<u8>) -> bool {
    s.len() > 0 && forall|i: int| 0 <= i < s.len() ==> 48 <= #[trigger] s[i] <= 57
}

/// The value of a run of decimal digits.
pub open spec fn decimal_value(s: Seq<u8>) -> nat
    decreases s.len(),
{
    if s.len() == 0 {
        0
    } else {
        decimal_value(s.drop_last()) * 10 + (s.last() - 48) as nat
    }
}

/// A run of digits is worth at least any of its prefixes.
pub proof fn lemma_decimal_prefix(s: Seq<u8>, i: int)
    requires
        0 <= i <= s.len(),
        forall|j: int| 0 <= j < s.len() ==> 48 <= #[trigger] s[j] <= 57,
    ensures
        decimal_value(s.take(i)) <= decimal_value(s),
    decreases s.len() - i,
{
    if i < s.len() {
        lemma_decimal_prefix(s, i + 1);
        assert(s.take(i + 1).drop_last() == s.take(i));
    } else {
        assert(s.take(i) == s);
    }
}

/// Reads a decimal number; `None` unless the text is all digits and the
/// value fits in a `u64`.
pub fn parse_u64(s: &[u8]) -> (r: Option<u64>)
    ensures
        r is Some <==> is_decimal(s@) && decimal_value(s@) <= u64::MAX,
        r matches Some(n) ==> n == decimal_value(s@),
{
    if s.len() == 0 {
        return None;
    }
    let mut n: u64 = 0;
    let mut i: usize = 0;
    while i < s.len()
        invariant
            0 <= i <= s@.len(),
            s@.len() > 0,
            n == decimal_value(s@.take(i as int)),
            forall|j: int| 0 <= j < i ==> 48 <= #[trigger] s@[j] <= 57,
        decreases s@.len() - i,
    {
        let c = s[i];
        if c < 48 || c > 57 {
            return None;
        }
        proof {
            assert(s@.take(i + 1).drop_last() == s@.take(i as int));
        }
        match n.checked_mul(10) {
            Some(m) => match m.checked_add((c - 48) as u64) {
                Some(k) => {
                    n = k;
                },
                None => {
                    proof {
                        assert(forall|j: int| 0 <= j < i + 1 ==> 48 <= #[trigger] s@.take(i + 1)[j] <= 57);
                        lemma_decimal_prefix_all(s@, i + 1);
                    }
                    return None;
                },
            },
            None => {
                proof {
                    lemma_decimal_prefix_all(s@, i + 1);
                }
                return None;
            },
        }
        i = i + 1;
    }
    proof {
        assert(s@.take(s@.len() as int) == s@);
    }
    Some(n)
}

/// Where a prefix is all digits, the whole is worth at least the prefix
/// or has a byte that is no digit.
proof fn lemma_decimal_prefix_all(s: Seq<u8>, i: int)
    requires
        0 <= i <= s.len(),
    ensures
        is_decimal(s) ==> decimal_value(s.take(i)) <= decimal_value(s),
{
    if is_decimal(s) {
        lemma_decimal_prefix(s, i);
    }
}

} // verus!
