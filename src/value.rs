//! Bencoded values in general: a tree of integers, byte strings, lists and
//! dictionaries, with an encoder and a decoder that undo each other.
use vstd::prelude::*;

use crate::bencode::{bytes_enc, digits, int_enc, push_bytes, push_int};
use crate::query::{decimal_value, lemma_decimal_prefix};

verus! {

/// A bencoded value as a model.
pub ghost enum BValue {
    Int(int),
    Bytes(Seq<u8>),
    List(Seq<BValue>),
    Dict(Seq<(Seq<u8>, BValue)>),
}

/// A bencoded value. Dictionary entries are kept in the order given.
#[derive(Debug, PartialEq, Eq)]
pub enum Value {
    Int(i64),
    Bytes(Vec<u8>),
    List(Vec<Value>),
    Dict(Vec<(Vec<u8>, Value)>),
}

pub open spec fn view_list(v: Seq<Value>) -> Seq<BValue>
    decreases v,
{
    Seq::new(v.len(), |i: int| if 0 <= i < v.len() { view_value(v[i]) } else { BValue::Int(0) })
}

pub open spec fn view_entries(v: Seq<(Vec<u8>, Value)>) -> Seq<(Seq<u8>, BValue)>
    decreases v,
{
    Seq::new(
        v.len(),
        |i: int|
            if 0 <= i < v.len() {
                (v[i].0@, view_value(v[i].1))
            } else {
                (Seq::empty(), BValue::Int(0))
            },
    )
}

pub open spec fn view_value(v: Value) -> BValue
    decreases v,
{
    match v {
        Value::Int(n) => BValue::Int(n as int),
        Value::Bytes(b) => BValue::Bytes(b@),
        Value::List(items) => BValue::List(view_list(items@)),
        Value::Dict(entries) => BValue::Dict(view_entries(entries@)),
    }
}

impl View for Value {
    type V = BValue;

    open spec fn view(&self) -> BValue {
        view_value(*self)
    }
}

/// The bencoding of a value.
pub open spec fn enc(v: BValue) -> Seq<u8>
    decreases v,
{
    match v {
        BValue::Int(n) => int_enc(n),
        BValue::Bytes(s) => bytes_enc(s),
        BValue::List(items) => seq![108u8] + enc_list(items) + seq![101u8],
        BValue::Dict(es) => seq![100u8] + enc_dict(es) + seq![101u8],
    }
}

/// The items of a list, one after the other.
pub open spec fn enc_list(items: Seq<BValue>) -> Seq<u8>
    decreases items,
{
    if items.len() == 0 {
        Seq::empty()
    } else {
        enc(items[0]) + enc_list(items.drop_first())
    }
}

/// The entries of a dictionary: each key, then its value.
pub open spec fn enc_dict(es: Seq<(Seq<u8>, BValue)>) -> Seq<u8>
    decreases es,
{
    if es.len() == 0 {
        Seq::empty()
    } else {
        bytes_enc(es[0].0) + enc(es[0].1) + enc_dict(es.drop_first())
    }
}

/// `a` comes strictly before `b` in byte order.
pub open spec fn key_lt(a: Seq<u8>, b: Seq<u8>) -> bool
    decreases a.len(),
{
    if b.len() == 0 {
        false
    } else if a.len() == 0 {
        true
    } else if a[0] != b[0] {
        a[0] < b[0]
    } else {
        key_lt(a.drop_first(), b.drop_first())
    }
}

/// The keys of a dictionary in strictly ascending byte order, so each key
/// appears once.
pub open spec fn keys_ascending(es: Seq<(Seq<u8>, BValue)>) -> bool {
    forall|i: int| 0 <= i && i + 1 < es.len() ==> #[trigger] key_lt(es[i].0, es[i + 1].0)
}

/// Whether `a` comes strictly before `b` in byte order.
pub fn bytes_lt(a: &[u8], b: &[u8]) -> (r: bool)
    ensures
        r == key_lt(a@, b@),
{
    let mut i: usize = 0;
    proof {
        assert(a@.skip(0) == a@);
        assert(b@.skip(0) == b@);
    }
    while i < a.len() && i < b.len()
        invariant
            0 <= i <= a@.len(),
            i <= b@.len(),
            key_lt(a@, b@) == key_lt(a@.skip(i as int), b@.skip(i as int)),
        decreases a@.len() - i,
    {
        if a[i] != b[i] {
            proof {
                assert(a@.skip(i as int)[0] == a@[i as int]);
                assert(b@.skip(i as int)[0] == b@[i as int]);
            }
            return a[i] < b[i];
        }
        proof {
            assert(a@.skip(i as int)[0] == a@[i as int]);
            assert(b@.skip(i as int)[0] == b@[i as int]);
            assert(a@.skip(i as int).drop_first() == a@.skip(i + 1));
            assert(b@.skip(i as int).drop_first() == b@.skip(i + 1));
        }
        i = i + 1;
    }
    i < b.len()
}

/// A value whose integers all fit in an `i64` and whose dictionaries have
/// their keys in strictly ascending byte order.
pub open spec fn valid(v: BValue) -> bool
    decreases v,
{
    match v {
        BValue::Int(n) => i64::MIN <= n <= i64::MAX,
        BValue::Bytes(_) => true,
        BValue::List(items) => forall|i: int| 0 <= i < items.len() ==> valid(#[trigger] items[i]),
        BValue::Dict(es) => keys_ascending(es) && forall|i: int|
            0 <= i < es.len() ==> valid(#[trigger] es[i].1),
    }
}


pub proof fn lemma_enc_list_push(a: Seq<BValue>, x: BValue)
    ensures
        enc_list(a.push(x)) == enc_list(a) + enc(x),
    decreases a.len(),
{
    let b = a.push(x);
    assert(enc_list(b) == enc(b[0]) + enc_list(b.drop_first()));
    if a.len() == 0 {
        assert(b.drop_first() =~= Seq::<BValue>::empty());
        assert(enc_list(Seq::<BValue>::empty()) == Seq::<u8>::empty());
        assert(enc_list(b) =~= enc_list(a) + enc(x));
    } else {
        assert(b.drop_first() =~= a.drop_first().push(x));
        lemma_enc_list_push(a.drop_first(), x);
        assert(b[0] == a[0]);
        assert(enc_list(a) == enc(a[0]) + enc_list(a.drop_first()));
        assert(enc_list(b) =~= enc_list(a) + enc(x));
    }
}

pub proof fn lemma_enc_dict_push(a: Seq<(Seq<u8>, BValue)>, x: (Seq<u8>, BValue))
    ensures
        enc_dict(a.push(x)) == enc_dict(a) + bytes_enc(x.0) + enc(x.1),
    decreases a.len(),
{
    let b = a.push(x);
    assert(enc_dict(b) == bytes_enc(b[0].0) + enc(b[0].1) + enc_dict(b.drop_first()));
    if a.len() == 0 {
        assert(b.drop_first() =~= Seq::<(Seq<u8>, BValue)>::empty());
        assert(enc_dict(Seq::<(Seq<u8>, BValue)>::empty()) == Seq::<u8>::empty());
        assert(enc_dict(b) =~= enc_dict(a) + bytes_enc(x.0) + enc(x.1));
    } else {
        assert(b.drop_first() =~= a.drop_first().push(x));
        lemma_enc_dict_push(a.drop_first(), x);
        assert(b[0] == a[0]);
        assert(enc_dict(a) == bytes_enc(a[0].0) + enc(a[0].1) + enc_dict(a.drop_first()));
        assert(enc_dict(b) =~= enc_dict(a) + bytes_enc(x.0) + enc(x.1));
    }
}

/// Appends the bencoding of a value.
pub fn encode_into(out: &mut Vec<u8>, v: &Value)
    ensures
        final(out)@ == old(out)@ + enc(v@),
    decreases v,
{
    match v {
        Value::Int(n) => push_int(out, *n),
        Value::Bytes(b) => push_bytes(out, b.as_slice()),
        Value::List(items) => {
            let ghost vs = view_list(items@);
            out.push(108u8);
            let ghost start = out@;
            let mut i: usize = 0;
            while i < items.len()
                invariant
                    0 <= i <= items@.len(),
                    vs == view_list(items@),
                    *v == Value::List(*items),
                    out@ == start + enc_list(vs.take(i as int)),
                decreases items@.len() - i,
            {
                proof {
                    vstd::std_specs::vec::axiom_vec_index_decreases(*items, i as int);
                    assert(*v == Value::List(*items));
                    assert(decreases_to!(*v => (*v)->List_0));
                    assert(decreases_to!(*v => items[i as int]));
                }
                encode_into(out, &items[i]);
                proof {
                    assert(vs.take(i + 1) == vs.take(i as int).push(vs[i as int]));
                    lemma_enc_list_push(vs.take(i as int), vs[i as int]);
                    assert(out@ =~= start + enc_list(vs.take(i + 1)));
                }
                i = i + 1;
            }
            out.push(101u8);
            proof {
                assert(vs.take(items@.len() as int) == vs);
                assert(final(out)@ =~= old(out)@ + enc(v@));
            }
        },
        Value::Dict(entries) => {
            let ghost es = view_entries(entries@);
            out.push(100u8);
            let ghost start = out@;
            let mut i: usize = 0;
            while i < entries.len()
                invariant
                    0 <= i <= entries@.len(),
                    es == view_entries(entries@),
                    *v == Value::Dict(*entries),
                    out@ == start + enc_dict(es.take(i as int)),
                decreases entries@.len() - i,
            {
                push_bytes(out, entries[i].0.as_slice());
                proof {
                    vstd::std_specs::vec::axiom_vec_index_decreases(*entries, i as int);
                    assert(*v == Value::Dict(*entries));
                    assert(decreases_to!(*v => (*v)->Dict_0));
                    assert(decreases_to!(*v => entries[i as int]));
                    assert(decreases_to!(*v => entries[i as int].1));
                }
                encode_into(out, &entries[i].1);
                proof {
                    assert(es.take(i + 1) == es.take(i as int).push(es[i as int]));
                    lemma_enc_dict_push(es.take(i as int), es[i as int]);
                    assert(out@ =~= start + enc_dict(es.take(i + 1)));
                }
                i = i + 1;
            }
            out.push(101u8);
            proof {
                assert(es.take(entries@.len() as int) == es);
                assert(final(out)@ =~= old(out)@ + enc(v@));
            }
        },
    }
}

/// The bencoding of a value.
pub fn encode(v: &Value) -> (out: Vec<u8>)
    ensures
        out@ == enc(v@),
{
    let mut out: Vec<u8> = Vec::new();
    encode_into(&mut out, v);
    proof {
        assert(out@ =~= enc(v@));
    }
    out
}


pub open spec fn is_digit(c: u8) -> bool {
    48 <= c <= 57
}

/// The canonical digits of `n` are a run of digits worth `n`.
pub proof fn lemma_digits(n: nat)
    ensures
        digits(n).len() >= 1,
        forall|i: int| 0 <= i < digits(n).len() ==> is_digit(#[trigger] digits(n)[i]),
        decimal_value(digits(n)) == n,
        digits(n).len() <= n + 1,
    decreases n,
{
    if n >= 10 {
        lemma_digits(n / 10);
        assert(digits(n).drop_last() == digits(n / 10));
        assert(digits(n).last() == (48 + n % 10) as u8);
        assert((n / 10) * 10 + n % 10 == n);
        assert(decimal_value(digits(n)) == decimal_value(digits(n / 10)) * 10 + (n % 10));
        assert forall|i: int| 0 <= i < digits(n).len() implies is_digit(#[trigger] digits(n)[i]) by {
            if i < digits(n).len() - 1 {
                assert(digits(n)[i] == digits(n / 10)[i]);
            }
        }
    } else {
        assert(digits(n).drop_last() =~= Seq::<u8>::empty());
        assert(digits(n).last() == (48 + n) as u8);
        assert(decimal_value(digits(n)) == decimal_value(Seq::<u8>::empty()) * 10 + n);
    }
}

/// A run of digits with no leading zero is worth at least one unless it is
/// a single digit.
proof fn lemma_decimal_positive(s: Seq<u8>)
    requires
        s.len() >= 1,
        forall|i: int| 0 <= i < s.len() ==> is_digit(#[trigger] s[i]),
        s[0] != 48,
    ensures
        decimal_value(s) >= 1,
    decreases s.len(),
{
    if s.len() > 1 {
        lemma_decimal_positive(s.drop_last());
    }
}

/// A run of digits with no leading zero is the canonical form of its value.
proof fn lemma_canonical_digits(s: Seq<u8>)
    requires
        s.len() >= 1,
        forall|i: int| 0 <= i < s.len() ==> is_digit(#[trigger] s[i]),
        s.len() == 1 || s[0] != 48,
    ensures
        s == digits(decimal_value(s)),
    decreases s.len(),
{
    let v = decimal_value(s);
    if s.len() == 1 {
        assert(s.drop_last() =~= Seq::<u8>::empty());
        assert(decimal_value(s.drop_last()) == 0);
        assert(s.last() == s[0]);
        assert(v == (s[0] - 48) as nat);
        assert(s =~= digits(v));
    } else {
        let t = s.drop_last();
        lemma_canonical_digits(t);
        lemma_decimal_positive(t);
        let w = decimal_value(t);
        assert(v == w * 10 + (s.last() - 48) as nat);
        assert(v / 10 == w && v % 10 == (s.last() - 48) as nat);
        assert(v >= 10);
        assert(s =~= digits(v));
    }
}

/// The canonical digits have no leading zero.
proof fn lemma_digits_no_leading_zero(n: nat)
    ensures
        digits(n).len() == 1 || digits(n)[0] != 48,
    decreases n,
{
    if n >= 10 {
        lemma_digits_no_leading_zero(n / 10);
        lemma_digits(n / 10);
        if digits(n / 10).len() == 1 {
            assert(n / 10 >= 1);
            if n / 10 >= 10 {
                lemma_digits((n / 10) / 10);
                assert(digits(n / 10).len() == digits((n / 10) / 10).len() + 1);
            }
            assert(n / 10 < 10);
            assert(digits(n / 10) == seq![(48 + n / 10) as u8]);
            assert(digits(n / 10)[0] != 48);
        }
        assert(digits(n)[0] == digits(n / 10)[0]);
    }
}

/// `b` holds, from `pos` on, the digits of `m` and then `rest`, which
/// starts with a byte other than a digit.
pub open spec fn digits_fit(b: Seq<u8>, pos: int, m: nat, rest: Seq<u8>) -> bool {
    &&& 0 <= pos <= b.len()
    &&& b.skip(pos) == digits(m) + rest
    &&& rest.len() > 0
    &&& !is_digit(rest[0])
    &&& m <= u64::MAX
}

/// Reads the run of digits that starts at `pos`.
fn scan_digits(b: &[u8], pos: usize) -> (r: Option<(u64, usize)>)
    requires
        pos <= b@.len(),
    ensures
        r matches Some((n, e)) ==> pos < e <= b@.len() && b@.subrange(pos as int, e as int) == digits(
            n as nat,
        ),
        forall|m: nat, rest: Seq<u8>| #[trigger] digits_fit(b@, pos as int, m, rest) ==> (r matches Some(
            (n, e),
        ) && n == m && e == pos + digits(m).len()),
{
    let mut acc: u64 = 0;
    let mut q: usize = pos;
    while q < b.len() && 48 <= b[q] && b[q] <= 57
        invariant
            pos <= q <= b@.len(),
            forall|j: int| pos <= j < q ==> is_digit(#[trigger] b@[j]),
            acc == decimal_value(b@.subrange(pos as int, q as int)),
        decreases b@.len() - q,
    {
        let d = (b[q] - 48) as u64;
        proof {
            assert(b@.subrange(pos as int, q + 1).drop_last() == b@.subrange(pos as int, q as int));
        }
        let next = match acc.checked_mul(10) {
            Some(t) => t.checked_add(d),
            None => None,
        };
        match next {
            Some(t) => {
                acc = t;
            },
            None => {
                proof {
                    assert forall|m: nat, rest: Seq<u8>| #[trigger] digits_fit(b@, pos as int, m, rest) implies false by {
                        lemma_digits(m);
                        let l = digits(m).len();
                        if q - pos >= l {
                            assert(b@[pos + l] == b@.skip(pos as int)[l as int]);
                            assert(b@.skip(pos as int)[l as int] == rest[0]);
                        } else {
                            assert(b@.subrange(pos as int, q + 1) =~= digits(m).take(q + 1 - pos)) by {
                                assert forall|j: int| 0 <= j < q + 1 - pos implies #[trigger] b@.subrange(pos as int, q + 1)[j] == digits(m).take(q + 1 - pos)[j] by {
                                    assert(b@[pos + j] == b@.skip(pos as int)[j]);
                                }
                            }
                            lemma_decimal_prefix(digits(m), q + 1 - pos);
                        }
                    }
                }
                return None;
            },
        }
        q = q + 1;
    }
    if q == pos {
        proof {
            assert forall|m: nat, rest: Seq<u8>| #[trigger] digits_fit(b@, pos as int, m, rest) implies false by {
                lemma_digits(m);
                assert(b@[pos as int] == b@.skip(pos as int)[0]);
            }
        }
        return None;
    }
    if q - pos > 1 && b[pos] == 48 {
        proof {
            assert forall|m: nat, rest: Seq<u8>| #[trigger] digits_fit(b@, pos as int, m, rest) implies false by {
                lemma_digits(m);
                lemma_digits_no_leading_zero(m);
                let l = digits(m).len();
                assert(b@[pos as int] == b@.skip(pos as int)[0]);
                if l == 1 {
                    assert(b@[pos + 1] == b@.skip(pos as int)[1]);
                    assert(b@.skip(pos as int)[1] == rest[0]);
                    assert(is_digit(b@[pos + 1]));
                }
            }
        }
        return None;
    }
    proof {
        let run = b@.subrange(pos as int, q as int);
        assert forall|i: int| 0 <= i < run.len() implies is_digit(#[trigger] run[i]) by {
            assert(run[i] == b@[pos + i]);
        }
        assert(run.len() == 1 || run[0] != 48);
        lemma_canonical_digits(run);
    }
    proof {
        assert forall|m: nat, rest: Seq<u8>| #[trigger] digits_fit(b@, pos as int, m, rest) implies acc == m && q == pos + digits(m).len() by {
            lemma_digits(m);
            let l = digits(m).len();
            if q - pos > l {
                assert(b@[pos + l] == b@.skip(pos as int)[l as int]);
                assert(b@.skip(pos as int)[l as int] == rest[0]);
                assert(is_digit(b@[pos + l]));
            } else if q - pos < l {
                assert(b@.skip(pos as int)[q - pos] == digits(m)[q - pos]);
                assert(b@[q as int] == b@.skip(pos as int)[q - pos]);
            }
            assert(b@.subrange(pos as int, q as int) =~= digits(m)) by {
                assert forall|j: int| 0 <= j < l implies #[trigger] b@.subrange(pos as int, q as int)[j] == digits(m)[j] by {
                    assert(b@[pos + j] == b@.skip(pos as int)[j]);
                }
            }
        }
    }
    Some((acc, q))
}


/// `b` holds, from `pos` on, the bencoding of the byte string `s`, then `rest`.
pub open spec fn bytes_fit(b: Seq<u8>, pos: int, s: Seq<u8>, rest: Seq<u8>) -> bool {
    0 <= pos <= b.len() && b.skip(pos) == bytes_enc(s) + rest
}

/// `b` holds, from `pos` on, the bencoding of the integer `n`, then `rest`.
pub open spec fn int_fit(b: Seq<u8>, pos: int, n: int, rest: Seq<u8>) -> bool {
    0 <= pos <= b.len() && i64::MIN <= n <= i64::MAX && b.skip(pos) == int_enc(n) + rest
}

/// Reads a bencoded byte string at `pos`.
fn decode_bytes(b: &[u8], pos: usize) -> (r: Option<(Vec<u8>, usize)>)
    requires
        pos <= b@.len(),
    ensures
        r matches Some((x, e)) ==> pos < e <= b@.len() && b@.subrange(pos as int, e as int) == bytes_enc(x@),
        forall|s: Seq<u8>, rest: Seq<u8>| #[trigger] bytes_fit(b@, pos as int, s, rest) ==> (r matches Some(
            (x, e),
        ) && x@ == s && e == pos + bytes_enc(s).len()),
{
    let blen = b.len();
    proof {
        assert forall|s: Seq<u8>, rest: Seq<u8>| #[trigger] bytes_fit(b@, pos as int, s, rest) implies digits_fit(b@, pos as int, s.len(), seq![58u8] + s + rest) by {
            assert(b@.skip(pos as int) =~= digits(s.len()) + (seq![58u8] + s + rest));
            assert(b@.skip(pos as int).len() == bytes_enc(s).len() + rest.len());
            assert(s.len() <= b@.len());
            assert(b@.len() == blen);
            assert((seq![58u8] + s + rest)[0] == 58u8);
        }
    }
    let (m, e) = match scan_digits(b, pos) {
        Some(t) => t,
        None => {
            return None;
        },
    };
    proof {
        assert forall|s: Seq<u8>, rest: Seq<u8>| #[trigger] bytes_fit(b@, pos as int, s, rest) implies m == s.len() && e == pos + digits(s.len()).len() && e < b@.len() && b@[e as int] == 58 by {
            assert(digits_fit(b@, pos as int, s.len(), seq![58u8] + s + rest));
            lemma_digits(s.len());
            assert(b@.skip(pos as int).len() == bytes_enc(s).len() + rest.len());
            assert(b@[e as int] == b@.skip(pos as int)[digits(s.len()).len() as int]);
        }
    }
    if e >= b.len() || b[e] != 58 {
        return None;
    }
    let start = e + 1;
    if m > (b.len() - start) as u64 {
        proof {
            assert forall|s: Seq<u8>, rest: Seq<u8>| #[trigger] bytes_fit(b@, pos as int, s, rest) implies false by {
                assert(b@.skip(pos as int).len() == bytes_enc(s).len() + rest.len());
            }
        }
        return None;
    }
    let n = m as usize;
    let end = start + n;
    let mut out: Vec<u8> = Vec::new();
    let mut i: usize = start;
    while i < end
        invariant
            end <= b@.len(),
            start <= i <= end,
            out@ == b@.subrange(start as int, i as int),
        decreases end - i,
    {
        out.push(b[i]);
        proof {
            assert(out@ =~= b@.subrange(start as int, i + 1));
        }
        i = i + 1;
    }
    proof {
        assert forall|s: Seq<u8>, rest: Seq<u8>| #[trigger] bytes_fit(b@, pos as int, s, rest) implies out@ == s && start + n == pos + bytes_enc(s).len() by {
            assert(m == s.len());
            let l = digits(s.len()).len();
            assert(out@ =~= s) by {
                assert forall|j: int| 0 <= j < s.len() implies #[trigger] out@[j] == s[j] by {
                    assert(b@[start + j] == b@.skip(pos as int)[l + 1 + j]);
                    assert(b@.skip(pos as int)[l + 1 + j] == bytes_enc(s)[l + 1 + j]);
                }
            }
        }
    }
    proof {
        assert(out@ == b@.subrange(start as int, end as int));
        assert(b@.subrange(pos as int, end as int) =~= b@.subrange(pos as int, e as int) + seq![58u8] + out@);
    }
    Some((out, start + n))
}

/// Reads a bencoded integer at `pos`.
fn decode_int(b: &[u8], pos: usize) -> (r: Option<(i64, usize)>)
    requires
        pos <= b@.len(),
    ensures
        r matches Some((x, e)) ==> pos < e <= b@.len() && b@.subrange(pos as int, e as int) == int_enc(x as int),
        forall|n: int, rest: Seq<u8>| #[trigger] int_fit(b@, pos as int, n, rest) ==> (r matches Some(
            (x, e),
        ) && x == n && e == pos + int_enc(n).len()),
{
    if pos >= b.len() || b[pos] != 105 {
        proof {
            assert forall|n: int, rest: Seq<u8>| #[trigger] int_fit(b@, pos as int, n, rest) implies false by {
                assert(int_enc(n)[0] == 105u8);
                assert(b@.skip(pos as int).len() >= 1);
                assert(b@.skip(pos as int)[0] == int_enc(n)[0]);
                assert(b@[pos as int] == b@.skip(pos as int)[0]);
            }
        }
        return None;
    }
    let mut p = pos + 1;
    let neg = p < b.len() && b[p] == 45;
    if neg {
        p = p + 1;
    }
    proof {
        assert forall|n: int, rest: Seq<u8>| #[trigger] int_fit(b@, pos as int, n, rest) implies (neg == (n < 0)
            && digits_fit(b@, p as int, (if n < 0 { -n } else { n }) as nat, seq![101u8] + rest)) by {
            let a: nat = (if n < 0 { -n } else { n }) as nat;
            lemma_digits(a);
            let t = b@.skip(pos as int);
            assert(b@.skip(p as int) =~= t.skip(p - pos));
            assert(b@[pos + 1] == t[1]);
            if n < 0 {
                assert(t =~= seq![105u8, 45u8] + (digits(a) + (seq![101u8] + rest)));
                assert(t.skip(2) =~= digits(a) + (seq![101u8] + rest));
            } else {
                assert(t =~= seq![105u8] + (digits(a) + (seq![101u8] + rest)));
                assert(t[1] == digits(a)[0]);
                assert(t.skip(1) =~= digits(a) + (seq![101u8] + rest));
            }
            assert((seq![101u8] + rest)[0] == 101u8);
        }
    }
    let (m, e) = match scan_digits(b, p) {
        Some(t) => t,
        None => {
            return None;
        },
    };
    proof {
        assert forall|n: int, rest: Seq<u8>| #[trigger] int_fit(b@, pos as int, n, rest) implies e < b@.len() && b@[e as int] == 101 && e + 1 == pos + int_enc(n).len() by {
            let a: nat = (if n < 0 { -n } else { n }) as nat;
            assert(digits_fit(b@, p as int, a, seq![101u8] + rest));
            lemma_digits(a);
            let l = digits(a).len();
            assert(e == p + l);
            assert(b@.skip(p as int) == digits(a) + (seq![101u8] + rest));
            assert(b@.skip(p as int).len() == l + 1 + rest.len());
            assert(p == pos + (if n < 0 { 2int } else { 1int }));
            assert(int_enc(n).len() == (if n < 0 { 2int } else { 1int }) + l + 1);
            assert((digits(a) + (seq![101u8] + rest))[l as int] == 101u8);
            assert(b@[e as int] == b@.skip(p as int)[digits(a).len() as int]);
        }
    }
    if e >= b.len() || b[e] != 101 {
        return None;
    }
    let x: i64 = if neg {
        if m == 0 {
            return None;
        } else if m <= 9223372036854775807 {
            -(m as i64)
        } else if m == 9223372036854775808 {
            i64::MIN
        } else {
            return None;
        }
    } else {
        if m <= 9223372036854775807 {
            m as i64
        } else {
            return None;
        }
    };
    proof {
        let d = b@.subrange(p as int, e as int);
        assert(d == digits(m as nat));
        if neg {
            assert(b@.subrange(pos as int, e + 1) =~= seq![105u8, 45u8] + d + seq![101u8]);
            assert(-(x as int) == m as int);
        } else {
            assert(b@.subrange(pos as int, e + 1) =~= seq![105u8] + d + seq![101u8]);
        }
    }
    Some((x, e + 1))
}


/// `b` holds, from `pos` on, the bencoding of the valid value `v`, then `rest`.
pub open spec fn fits(b: Seq<u8>, pos: int, v: BValue, rest: Seq<u8>) -> bool {
    0 <= pos <= b.len() && valid(v) && b.skip(pos) == enc(v) + rest
}

/// The first byte of an encoding tells its kind, and is never `e`.
proof fn lemma_enc_first(v: BValue)
    ensures
        enc(v).len() >= 1,
        enc(v)[0] != 101,
        v is Int <==> enc(v)[0] == 105,
        v is Bytes <==> is_digit(enc(v)[0]),
        v is List <==> enc(v)[0] == 108,
        v is Dict <==> enc(v)[0] == 100,
{
    match v {
        BValue::Bytes(s) => {
            lemma_digits(s.len());
            assert(enc(v)[0] == digits(s.len())[0]);
        },
        _ => {},
    }
}

proof fn lemma_enc_list_skip(its: Seq<BValue>, k: int)
    requires
        0 <= k < its.len(),
    ensures
        enc_list(its.skip(k)) == enc(its[k]) + enc_list(its.skip(k + 1)),
{
    assert(its.skip(k).drop_first() == its.skip(k + 1));
    assert(its.skip(k)[0] == its[k]);
}

proof fn lemma_enc_dict_skip(es: Seq<(Seq<u8>, BValue)>, k: int)
    requires
        0 <= k < es.len(),
    ensures
        enc_dict(es.skip(k)) == bytes_enc(es[k].0) + enc(es[k].1) + enc_dict(es.skip(k + 1)),
{
    assert(es.skip(k).drop_first() == es.skip(k + 1));
    assert(es.skip(k)[0] == es[k]);
}

/// Reads a bencoded value at `pos`.
fn decode_at(b: &[u8], pos: usize) -> (r: Option<(Value, usize)>)
    requires
        pos <= b@.len(),
    ensures
        r matches Some((x, e)) ==> pos < e <= b@.len() && valid(x@) && b@.subrange(pos as int, e as int)
            == enc(x@),
        forall|v: BValue, rest: Seq<u8>| #[trigger] fits(b@, pos as int, v, rest) ==> (r matches Some(
            (x, e),
        ) && x@ == v && e == pos + enc(v).len()),
    decreases b@.len() - pos,
{
    if pos >= b.len() {
        proof {
            assert forall|v: BValue, rest: Seq<u8>| #[trigger] fits(b@, pos as int, v, rest) implies false by {
                lemma_enc_first(v);
                assert(b@.skip(pos as int).len() == 0);
                assert((enc(v) + rest).len() >= 1);
            }
        }
        return None;
    }
    let c = b[pos];
    proof {
        assert forall|v: BValue, rest: Seq<u8>| #[trigger] fits(b@, pos as int, v, rest) implies c == enc(v)[0] by {
            lemma_enc_first(v);
            assert(b@[pos as int] == b@.skip(pos as int)[0]);
        }
    }
    if c == 105 {
        match decode_int(b, pos) {
            Some((n, e)) => {
                proof {
                    assert forall|v: BValue, rest: Seq<u8>| #[trigger] fits(b@, pos as int, v, rest) implies (v == BValue::Int(n as int) && e == pos + enc(v).len()) by {
                        lemma_enc_first(v);
                        let k = v->Int_0;
                        assert(int_fit(b@, pos as int, k, rest));
                    }
                }
                Some((Value::Int(n), e))
            },
            None => {
                proof {
                    assert forall|v: BValue, rest: Seq<u8>| #[trigger] fits(b@, pos as int, v, rest) implies false by {
                        lemma_enc_first(v);
                        assert(int_fit(b@, pos as int, v->Int_0, rest));
                    }
                }
                None
            },
        }
    } else if 48 <= c && c <= 57 {
        match decode_bytes(b, pos) {
            Some((x, e)) => {
                proof {
                    assert forall|v: BValue, rest: Seq<u8>| #[trigger] fits(b@, pos as int, v, rest) implies (v == BValue::Bytes(x@) && e == pos + enc(v).len()) by {
                        lemma_enc_first(v);
                        assert(bytes_fit(b@, pos as int, v->Bytes_0, rest));
                    }
                }
                Some((Value::Bytes(x), e))
            },
            None => {
                proof {
                    assert forall|v: BValue, rest: Seq<u8>| #[trigger] fits(b@, pos as int, v, rest) implies false by {
                        lemma_enc_first(v);
                        assert(bytes_fit(b@, pos as int, v->Bytes_0, rest));
                    }
                }
                None
            },
        }
    } else if c == 108 {
        let mut items: Vec<Value> = Vec::new();
        let mut p: usize = pos + 1;
        proof {
            assert(view_list(items@) =~= Seq::<BValue>::empty());
            assert(b@.subrange(pos as int, p as int) =~= seq![108u8] + enc_list(view_list(items@)));
            assert forall|its: Seq<BValue>, rest: Seq<u8>| #[trigger] fits(b@, pos as int, BValue::List(its), rest) implies
                b@.skip(p as int) == enc_list(its.skip(0)) + seq![101u8] + rest && view_list(items@) == its.take(0) by {
                assert(its.skip(0) == its);
                assert(b@.skip(p as int) =~= b@.skip(pos as int).skip(1));
                assert(b@.skip(p as int) =~= enc_list(its) + seq![101u8] + rest);
                assert(view_list(items@) =~= its.take(0));
            }
        }
        while p < b.len() && b[p] != 101
            invariant
                pos < p <= b@.len(),
                b@[pos as int] == 108,
                b@.subrange(pos as int, p as int) == seq![108u8] + enc_list(view_list(items@)),
                forall|i: int| 0 <= i < items@.len() ==> valid(#[trigger] view_list(items@)[i]),
                forall|its: Seq<BValue>, rest: Seq<u8>| #[trigger] fits(b@, pos as int, BValue::List(its), rest) ==>
                    items@.len() <= its.len() && b@.skip(p as int) == enc_list(its.skip(items@.len() as int)) + seq![101u8] + rest
                    && view_list(items@) == its.take(items@.len() as int),
            decreases b@.len() - p,
        {
            let ghost k = items@.len() as int;
            let ghost here = p as int;
            let ghost before = items@;
            proof {
                assert forall|its: Seq<BValue>, rest: Seq<u8>| #[trigger] fits(b@, pos as int, BValue::List(its), rest) implies
                    k < its.len() && fits(b@, here, its[k], enc_list(its.skip(k + 1)) + seq![101u8] + rest) by {
                    if k == its.len() {
                        assert(its.skip(k) =~= Seq::<BValue>::empty());
                        assert(b@[here] == b@.skip(here)[0]);
                    } else {
                        lemma_enc_list_skip(its, k);
                        assert(valid(BValue::List(its)));
                        assert(valid(its[k]));
                        assert(b@.skip(here) =~= enc(its[k]) + (enc_list(its.skip(k + 1)) + seq![101u8] + rest));
                    }
                }
            }
            match decode_at(b, p) {
                Some((x, e)) => {
                    let ghost xv = x@;
                    items.push(x);
                    p = e;
                    proof {
                        assert(view_list(items@) =~= view_list(before).push(xv));
                        lemma_enc_list_push(view_list(before), xv);
                        assert(b@.subrange(pos as int, p as int) =~= b@.subrange(pos as int, here) + b@.subrange(here, p as int));
                        assert forall|i: int| 0 <= i < items@.len() implies valid(#[trigger] view_list(items@)[i]) by {
                            if i < k {
                                assert(view_list(items@)[i] == view_list(before)[i]);
                            }
                        }
                        assert forall|its: Seq<BValue>, rest: Seq<u8>| #[trigger] fits(b@, pos as int, BValue::List(its), rest) implies
                            items@.len() <= its.len() && b@.skip(p as int) == enc_list(its.skip(items@.len() as int)) + seq![101u8] + rest
                            && view_list(items@) == its.take(items@.len() as int) by {
                            let rest2 = enc_list(its.skip(k + 1)) + seq![101u8] + rest;
                            assert(fits(b@, here, its[k], rest2));
                            assert(b@.skip(p as int) =~= b@.skip(here).skip(enc(its[k]).len() as int));
                            assert(b@.skip(p as int) =~= rest2);
                            assert(view_list(items@) =~= its.take(k + 1)) by {
                                assert(its.take(k + 1) =~= its.take(k).push(its[k]));
                                assert(view_list(before) == its.take(k));
                                assert forall|j: int| 0 <= j < items@.len() implies #[trigger] view_list(items@)[j] == its.take(k + 1)[j] by {
                                    if j < k {
                                        assert(items@[j] == before[j]);
                                        assert(view_list(before)[j] == view_value(before[j]));
                                    }
                                }
                            }
                        }
                    }
                },
                None => {
                    proof {
                        assert forall|v: BValue, rest: Seq<u8>| #[trigger] fits(b@, pos as int, v, rest) implies false by {
                            lemma_enc_first(v);
                            assert(b@[pos as int] == b@.skip(pos as int)[0]);
                            let its = v->List_0;
                            assert(v == BValue::List(its));
                            assert(fits(b@, here, its[k], enc_list(its.skip(k + 1)) + seq![101u8] + rest));
                        }
                    }
                    return None;
                },
            }
        }
        if p >= b.len() {
            proof {
                assert forall|v: BValue, rest: Seq<u8>| #[trigger] fits(b@, pos as int, v, rest) implies false by {
                    lemma_enc_first(v);
                    let its = v->List_0;
                    assert(fits(b@, pos as int, BValue::List(its), rest));
                }
            }
            return None;
        }
        proof {
            assert forall|v: BValue, rest: Seq<u8>| #[trigger] fits(b@, pos as int, v, rest) implies (view_value(Value::List(items)) == v && p + 1 == pos + enc(v).len()) by {
                lemma_enc_first(v);
                let its = v->List_0;
                assert(v == BValue::List(its));
                assert(fits(b@, pos as int, BValue::List(its), rest));
                let k = items@.len() as int;
                if k < its.len() {
                    lemma_enc_list_skip(its, k);
                    lemma_enc_first(its[k]);
                    assert(b@[p as int] == b@.skip(p as int)[0]);
                }
                assert(its.take(k) == its);
                assert(its.skip(k) =~= Seq::<BValue>::empty());
                assert(b@.skip(p as int).len() == 1 + rest.len());
                assert(b@.skip(pos as int).len() == enc(v).len() + rest.len());
            }
        }
        proof {
            assert(b@.subrange(pos as int, p + 1) =~= b@.subrange(pos as int, p as int) + seq![101u8]);
            assert(valid(view_value(Value::List(items))));
        }
        Some((Value::List(items), p + 1))
    } else if c == 100 {
        let mut entries: Vec<(Vec<u8>, Value)> = Vec::new();
        let mut p: usize = pos + 1;
        proof {
            assert(view_entries(entries@) =~= Seq::<(Seq<u8>, BValue)>::empty());
            assert(keys_ascending(view_entries(entries@)));
            assert(b@.subrange(pos as int, p as int) =~= seq![100u8] + enc_dict(view_entries(entries@)));
            assert forall|es: Seq<(Seq<u8>, BValue)>, rest: Seq<u8>| #[trigger] fits(b@, pos as int, BValue::Dict(es), rest) implies
                b@.skip(p as int) == enc_dict(es.skip(0)) + seq![101u8] + rest && view_entries(entries@) == es.take(0) by {
                assert(es.skip(0) == es);
                assert(b@.skip(p as int) =~= b@.skip(pos as int).skip(1));
                assert(b@.skip(p as int) =~= enc_dict(es) + seq![101u8] + rest);
                assert(view_entries(entries@) =~= es.take(0));
            }
        }
        while p < b.len() && b[p] != 101
            invariant
                pos < p <= b@.len(),
                b@[pos as int] == 100,
                b@.subrange(pos as int, p as int) == seq![100u8] + enc_dict(view_entries(entries@)),
                forall|i: int| 0 <= i < entries@.len() ==> valid(#[trigger] view_entries(entries@)[i].1),
                keys_ascending(view_entries(entries@)),
                forall|es: Seq<(Seq<u8>, BValue)>, rest: Seq<u8>| #[trigger] fits(b@, pos as int, BValue::Dict(es), rest) ==>
                    entries@.len() <= es.len() && b@.skip(p as int) == enc_dict(es.skip(entries@.len() as int)) + seq![101u8] + rest
                    && view_entries(entries@) == es.take(entries@.len() as int),
            decreases b@.len() - p,
        {
            let ghost k = entries@.len() as int;
            let ghost here = p as int;
            let ghost before = entries@;
            proof {
                assert forall|es: Seq<(Seq<u8>, BValue)>, rest: Seq<u8>| #[trigger] fits(b@, pos as int, BValue::Dict(es), rest) implies
                    k < es.len() && bytes_fit(b@, here, es[k].0, enc(es[k].1) + enc_dict(es.skip(k + 1)) + seq![101u8] + rest) by {
                    if k == es.len() {
                        assert(es.skip(k) =~= Seq::<(Seq<u8>, BValue)>::empty());
                        assert(b@[here] == b@.skip(here)[0]);
                    } else {
                        lemma_enc_dict_skip(es, k);
                        assert(b@.skip(here) =~= bytes_enc(es[k].0) + (enc(es[k].1) + enc_dict(es.skip(k + 1)) + seq![101u8] + rest));
                    }
                }
            }
            let (key, e1) = match decode_bytes(b, p) {
                Some(t) => t,
                None => {
                    proof {
                        assert forall|v: BValue, rest: Seq<u8>| #[trigger] fits(b@, pos as int, v, rest) implies false by {
                            lemma_enc_first(v);
                            assert(b@[pos as int] == b@.skip(pos as int)[0]);
                            let es = v->Dict_0;
                            assert(v == BValue::Dict(es));
                            assert(bytes_fit(b@, here, es[k].0, enc(es[k].1) + enc_dict(es.skip(k + 1)) + seq![101u8] + rest));
                        }
                    }
                    return None;
                },
            };
            proof {
                assert forall|es: Seq<(Seq<u8>, BValue)>, rest: Seq<u8>| #[trigger] fits(b@, pos as int, BValue::Dict(es), rest) implies
                    key@ == es[k].0 && fits(b@, e1 as int, es[k].1, enc_dict(es.skip(k + 1)) + seq![101u8] + rest) by {
                    let rest1 = enc(es[k].1) + enc_dict(es.skip(k + 1)) + seq![101u8] + rest;
                    assert(bytes_fit(b@, here, es[k].0, rest1));
                    assert(b@.skip(e1 as int) =~= b@.skip(here).skip(bytes_enc(es[k].0).len() as int));
                    assert(b@.skip(e1 as int) =~= enc(es[k].1) + (enc_dict(es.skip(k + 1)) + seq![101u8] + rest));
                    assert(valid(BValue::Dict(es)));
                    assert(valid(es[k].1));
                }
            }
            if entries.len() > 0 {
                let last = entries.len() - 1;
                let ordered = bytes_lt(entries[last].0.as_slice(), key.as_slice());
                proof {
                    assert forall|es: Seq<(Seq<u8>, BValue)>, rest: Seq<u8>| #[trigger] fits(b@, pos as int, BValue::Dict(es), rest) implies ordered by {
                        assert(valid(BValue::Dict(es)));
                        assert(view_entries(entries@)[k - 1] == es.take(k)[k - 1]);
                        assert(key_lt(es[k - 1].0, es[(k - 1) + 1].0));
                    }
                }
                if !ordered {
                    proof {
                        assert forall|v: BValue, rest: Seq<u8>| #[trigger] fits(b@, pos as int, v, rest) implies false by {
                            lemma_enc_first(v);
                            assert(b@[pos as int] == b@.skip(pos as int)[0]);
                            let es = v->Dict_0;
                            assert(v == BValue::Dict(es));
                            assert(fits(b@, pos as int, BValue::Dict(es), rest));
                        }
                    }
                    return None;
                }
            }
            let ghost key_ok = entries@.len() > 0 ==> key_lt(view_entries(entries@)[k - 1].0, key@);
            match decode_at(b, e1) {
                Some((x, e)) => {
                    let ghost xv = x@;
                    let ghost kv = key@;
                    entries.push((key, x));
                    p = e;
                    proof {
                        assert(view_entries(entries@) =~= view_entries(before).push((kv, xv)));
                        lemma_enc_dict_push(view_entries(before), (kv, xv));
                        assert(b@.subrange(pos as int, p as int) =~= b@.subrange(pos as int, here) + b@.subrange(here, e1 as int) + b@.subrange(e1 as int, p as int));
                        assert forall|i: int| 0 <= i < entries@.len() implies valid(#[trigger] view_entries(entries@)[i].1) by {
                            if i < k {
                                assert(view_entries(entries@)[i] == view_entries(before)[i]);
                            }
                        }
                        assert(key_ok);
                        assert forall|i: int| 0 <= i && i + 1 < entries@.len() implies #[trigger] key_lt(view_entries(entries@)[i].0, view_entries(entries@)[i + 1].0) by {
                            if i + 1 < k {
                                assert(view_entries(entries@)[i] == view_entries(before)[i]);
                                assert(view_entries(entries@)[i + 1] == view_entries(before)[i + 1]);
                                assert(key_lt(view_entries(before)[i].0, view_entries(before)[i + 1].0));
                            } else {
                                assert(view_entries(entries@)[i] == view_entries(before)[k - 1]);
                            }
                        }
                        assert forall|es: Seq<(Seq<u8>, BValue)>, rest: Seq<u8>| #[trigger] fits(b@, pos as int, BValue::Dict(es), rest) implies
                            entries@.len() <= es.len() && b@.skip(p as int) == enc_dict(es.skip(entries@.len() as int)) + seq![101u8] + rest
                            && view_entries(entries@) == es.take(entries@.len() as int) by {
                            let rest2 = enc_dict(es.skip(k + 1)) + seq![101u8] + rest;
                            assert(fits(b@, e1 as int, es[k].1, rest2));
                            assert(b@.skip(p as int) =~= b@.skip(e1 as int).skip(enc(es[k].1).len() as int));
                            assert(b@.skip(p as int) =~= rest2);
                            assert(view_entries(entries@) =~= es.take(k + 1)) by {
                                assert(view_entries(before) == es.take(k));
                                assert forall|j: int| 0 <= j < entries@.len() implies #[trigger] view_entries(entries@)[j] == es.take(k + 1)[j] by {
                                    if j < k {
                                        assert(entries@[j] == before[j]);
                                        assert(view_entries(before)[j] == (before[j].0@, view_value(before[j].1)));
                                    }
                                }
                            }
                        }
                    }
                },
                None => {
                    proof {
                        assert forall|v: BValue, rest: Seq<u8>| #[trigger] fits(b@, pos as int, v, rest) implies false by {
                            lemma_enc_first(v);
                            assert(b@[pos as int] == b@.skip(pos as int)[0]);
                            let es = v->Dict_0;
                            assert(v == BValue::Dict(es));
                            assert(fits(b@, e1 as int, es[k].1, enc_dict(es.skip(k + 1)) + seq![101u8] + rest));
                        }
                    }
                    return None;
                },
            }
        }
        if p >= b.len() {
            proof {
                assert forall|v: BValue, rest: Seq<u8>| #[trigger] fits(b@, pos as int, v, rest) implies false by {
                    lemma_enc_first(v);
                    let es = v->Dict_0;
                    assert(fits(b@, pos as int, BValue::Dict(es), rest));
                }
            }
            return None;
        }
        proof {
            assert forall|v: BValue, rest: Seq<u8>| #[trigger] fits(b@, pos as int, v, rest) implies (view_value(Value::Dict(entries)) == v && p + 1 == pos + enc(v).len()) by {
                lemma_enc_first(v);
                let es = v->Dict_0;
                assert(v == BValue::Dict(es));
                assert(fits(b@, pos as int, BValue::Dict(es), rest));
                let k = entries@.len() as int;
                if k < es.len() {
                    lemma_enc_dict_skip(es, k);
                    lemma_digits(es[k].0.len());
                    assert(b@[p as int] == b@.skip(p as int)[0]);
                    assert(b@.skip(p as int)[0] == digits(es[k].0.len())[0]);
                }
                assert(es.take(k) == es);
                assert(es.skip(k) =~= Seq::<(Seq<u8>, BValue)>::empty());
                assert(b@.skip(p as int).len() == 1 + rest.len());
                assert(b@.skip(pos as int).len() == enc(v).len() + rest.len());
            }
        }
        proof {
            assert(b@.subrange(pos as int, p + 1) =~= b@.subrange(pos as int, p as int) + seq![101u8]);
            assert(valid(view_value(Value::Dict(entries))));
        }
        Some((Value::Dict(entries), p + 1))
    } else {
        proof {
            assert forall|v: BValue, rest: Seq<u8>| #[trigger] fits(b@, pos as int, v, rest) implies false by {
                lemma_enc_first(v);
            }
        }
        None
    }
}

/// Reads a bencoded value that fills the whole input. Whatever valid value
/// is encoded, decoding its bytes gives that value back.
pub fn decode(b: &[u8]) -> (r: Option<Value>)
    ensures
        r matches Some(x) ==> valid(x@) && b@ == enc(x@),
        forall|v: BValue| valid(v) && b@ == enc(v) ==> (r matches Some(x) && x@ == v),
{
    let r = decode_at(b, 0);
    proof {
        assert forall|v: BValue| valid(v) && b@ == enc(v) implies (r matches Some((x, e)) && x@ == v && e == b@.len()) by {
            assert(b@.skip(0) =~= enc(v) + Seq::<u8>::empty());
            assert(fits(b@, 0usize as int, v, Seq::<u8>::empty()));
        }
    }
    match r {
        Some((x, e)) => {
            if e == b.len() {
                proof {
                    assert(b@.subrange(0, e as int) =~= b@);
                }
                Some(x)
            } else {
                None
            }
        },
        None => None,
    }
}

} // verus!
