//! Info hashes and peer identifiers as text: each raw byte is one character
//! of the same code (Latin-1), so byte strings and their text correspond one
//! for one.
use vstd::prelude::*;
use vstd::string::StrSliceExecFns;

verus! {

/// Relies on `String::push`: the character is appended at the end.
pub assume_specification[ String::push ](s: &mut String, ch: char)
    ensures
        final(s)@ == old(s)@.push(ch),
;

/// The text of a byte string, one character per byte.
pub open spec fn latin1(b: Seq<u8>) -> Seq<char> {
    b.map_values(|x: u8| x as char)
}

/// Whether every character of a text is a single byte.
pub open spec fn is_latin1(s: Seq<char>) -> bool {
    forall|i: int| 0 <= i < s.len() ==> (#[trigger] s[i] as u32) < 256
}

/// The byte string of a Latin-1 text.
pub open spec fn latin1_bytes(s: Seq<char>) -> Seq<u8> {
    s.map_values(|c: char| c as u32 as u8)
}

/// The text of a byte string.
pub fn text_of(b: &[u8]) -> (r: String)
    ensures
        r@ == latin1(b@),
{
    let mut s = String::new();
    let mut i: usize = 0;
    while i < b.len()
        invariant
            0 <= i <= b@.len(),
            s@ == latin1(b@.take(i as int)),
        decreases b@.len() - i,
    {
        let c = b[i] as char;
        s.push(c);
        proof {
            assert(s@ =~= latin1(b@.take(i + 1)));
        }
        i = i + 1;
    }
    proof {
        assert(b@.take(b@.len() as int) == b@);
    }
    s
}

/// The byte string of a text; `None` where a character is beyond one byte.
pub fn bytes_of(s: &String) -> (r: Option<Vec<u8>>)
    ensures
        r is Some <==> is_latin1(s@),
        r matches Some(v) ==> v@ == latin1_bytes(s@),
{
    let t = s.as_str();
    let n = t.unicode_len();
    let mut out: Vec<u8> = Vec::new();
    let mut i: usize = 0;
    while i < n
        invariant
            t@ == s@,
            n == s@.len(),
            0 <= i <= n,
            out@ == latin1_bytes(s@.take(i as int)),
            is_latin1(s@.take(i as int)),
        decreases n - i,
    {
        let c = t.get_char(i);
        if (c as u32) >= 256 {
            proof {
                assert(s@[i as int] == c);
            }
            return None;
        }
        out.push(c as u32 as u8);
        proof {
            assert(out@ =~= latin1_bytes(s@.take(i + 1)));
            assert(is_latin1(s@.take(i + 1)));
        }
        i = i + 1;
    }
    proof {
        assert(s@.take(n as int) == s@);
    }
    Some(out)
}

/// Reading a text back as bytes gives the bytes it was made of.
pub proof fn lemma_latin1_round_trip(b: Seq<u8>)
    ensures
        is_latin1(latin1(b)),
        latin1_bytes(latin1(b)) == b,
{
    assert forall|i: int| 0 <= i < latin1(b).len() implies (#[trigger] latin1(b)[i] as u32) < 256 by {
        assert(latin1(b)[i] == b[i] as char);
    }
    assert(latin1_bytes(latin1(b)) =~= b);
}

} // verus!
