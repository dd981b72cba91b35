//! Bencode output: integers `i<digits>e`, byte strings `<length>:<bytes>`,
//! lists `l...e` and dictionaries `d...e` with keys in byte order.
use vstd::prelude::*;

verus! {

/// The decimal digits of `n`, most significant first, without leading zeros.
pub open spec fn digits(n: nat) -> Seq<u8>
    decreases n,
{
    if n < 10 {
        seq![(48 + n) as u8]
    } else {
        digits(n / 10).push((48 + n % 10) as u8)
    }
}

/// The bencoding of an integer.
pub open spec fn int_enc(n: int) -> Seq<u8> {
    if n < 0 {
        seq![105u8, 45u8] + digits((-n) as nat) + seq![101u8]
    } else {
        seq![105u8] + digits(n as nat) + seq![101u8]
    }
}

/// The bencoding of a byte string.
pub open spec fn bytes_enc(s: Seq<u8>) -> Seq<u8> {
    digits(s.len()) + seq![58u8] + s
}

/// Appends the decimal digits of `n`.
pub fn push_digits(out: &mut Vec<u8>, n: u64)
    ensures
        final(out)@ == old(out)@ + digits(n as nat),
    decreases n,
{
    if n >= 10 {
        push_digits(out, n / 10);
    }
    out.push((48 + n % 10) as u8);
    proof {
        assert(final(out)@ =~= old(out)@ + digits(n as nat));
    }
}

/// Appends the bencoding of a non-negative integer.
pub fn push_uint(out: &mut Vec<u8>, n: u64)
    ensures
        final(out)@ == old(out)@ + int_enc(n as int),
{
    out.push(105u8);
    push_digits(out, n);
    out.push(101u8);
    proof {
        assert(final(out)@ =~= old(out)@ + int_enc(n as int));
    }
}

/// Appends the bencoding of an integer.
pub fn push_int(out: &mut Vec<u8>, n: i64)
    ensures
        final(out)@ == old(out)@ + int_enc(n as int),
{
    out.push(105u8);
    if n < 0 {
        out.push(45u8);
        let m: u64 = if n == i64::MIN {
            9223372036854775808u64
        } else {
            (-n) as u64
        };
        push_digits(out, m);
    } else {
        push_digits(out, n as u64);
    }
    out.push(101u8);
    proof {
        assert(final(out)@ =~= old(out)@ + int_enc(n as int));
    }
}

/// Appends the bencoding of a byte string.
pub fn push_bytes(out: &mut Vec<u8>, s: &[u8])
    ensures
        final(out)@ == old(out)@ + bytes_enc(s@),
{
    push_digits(out, s.len() as u64);
    out.push(58u8);
    let ghost mid = out@;
    let mut i: usize = 0;
    while i < s.len()
        invariant
            0 <= i <= s@.len(),
            out@ == mid + s@.take(i as int),
        decreases s@.len() - i,
    {
        out.push(s[i]);
        proof {
            assert(s@.take(i + 1) == s@.take(i as int).push(s@[i as int]));
        }
        i = i + 1;
    }
    proof {
        assert(s@.take(s@.len() as int) == s@);
        assert(final(out)@ =~= old(out)@ + bytes_enc(s@));
    }
}

} // verus!
