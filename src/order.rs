//! Peer lists in ascending order of address, then port.
use vstd::prelude::*;

use crate::peer::{CompactPeerv4, CompactPeerv6};

verus! {

/// Order of (address, port) pairs: by address, then by port.
pub open spec fn pair_le(a: (u128, u16), b: (u128, u16)) -> bool {
    a.0 < b.0 || (a.0 == b.0 && a.1 <= b.1)
}

pub open spec fn pairs_sorted(s: Seq<(u128, u16)>) -> bool {
    forall|i: int, j: int| 0 <= i < j < s.len() ==> pair_le(#[trigger] s[i], #[trigger] s[j])
}

/// Relies on `slice::sort` of std: it permutes the items into ascending
/// order, and tuples compare field by field.
#[verifier::external_body]
fn sort_pairs(v: &mut Vec<(u128, u16)>)
    ensures
        final(v)@.to_multiset() == old(v)@.to_multiset(),
        pairs_sorted(final(v)@),
{
    v.sort();
}

/// Sorts pairs; the same set comes back, and no pair twice if none was.
fn sort_unique(v: &mut Vec<(u128, u16)>)
    ensures
        pairs_sorted(final(v)@),
        final(v)@.to_set() == old(v)@.to_set(),
        final(v)@.len() == old(v)@.len(),
        old(v)@.no_duplicates() ==> final(v)@.no_duplicates(),
{
    let ghost before = v@;
    sort_pairs(v);
    proof {
        let after = v@;
        before.to_multiset_ensures();
        after.to_multiset_ensures();
        assert forall|x: (u128, u16)| after.to_set().contains(x) == before.to_set().contains(x) by {
            assert(after.contains(x) == (after.to_multiset().count(x) > 0));
            assert(before.contains(x) == (before.to_multiset().count(x) > 0));
        }
        assert(after.to_set() =~= before.to_set());
        if before.no_duplicates() {
            before.lemma_multiset_has_no_duplicates();
            after.lemma_multiset_has_no_duplicates_conv();
        }
    }
}

/// The set without `me`, where `me` is given.
pub open spec fn without<A>(s: Set<A>, me: Option<A>) -> Set<A> {
    match me {
        Some(m) => s.remove(m),
        None => s,
    }
}

pub open spec fn v4_le(a: CompactPeerv4, b: CompactPeerv4) -> bool {
    a.ip < b.ip || (a.ip == b.ip && a.port <= b.port)
}

pub open spec fn v6_le(a: CompactPeerv6, b: CompactPeerv6) -> bool {
    a.ip < b.ip || (a.ip == b.ip && a.port <= b.port)
}

pub open spec fn v4_sorted(s: Seq<CompactPeerv4>) -> bool {
    forall|i: int, j: int| 0 <= i < j < s.len() ==> v4_le(#[trigger] s[i], #[trigger] s[j])
}

pub open spec fn v6_sorted(s: Seq<CompactPeerv6>) -> bool {
    forall|i: int, j: int| 0 <= i < j < s.len() ==> v6_le(#[trigger] s[i], #[trigger] s[j])
}

pub open spec fn pair_of4(x: CompactPeerv4) -> (u128, u16) {
    (x.ip as u128, x.port)
}

pub open spec fn pair_of6(x: CompactPeerv6) -> (u128, u16) {
    (x.ip, x.port)
}

/// The IPv4 peers other than `me`, in ascending order.
pub fn arrange_v4(v: &Vec<CompactPeerv4>, me: Option<CompactPeerv4>) -> (r: Vec<CompactPeerv4>)
    ensures
        v@.no_duplicates() ==> r@.no_duplicates(),
        r@.to_set() == without(v@.to_set(), me),
        v4_sorted(r@),
{
    let mut p: Vec<(u128, u16)> = Vec::new();
    let ghost mut f: Seq<CompactPeerv4> = Seq::empty();
    let mut i: usize = 0;
    while i < v.len()
        invariant
            0 <= i <= v@.len(),
            p@ == f.map_values(|x: CompactPeerv4| pair_of4(x)),
            v@.no_duplicates() ==> f.no_duplicates(),
            f.to_set() == without(v@.take(i as int).to_set(), me),
            forall|k: int| 0 <= k < f.len() ==> v@.take(i as int).contains(#[trigger] f[k]),
        decreases v@.len() - i,
    {
        let x = v[i];
        let keep = match me {
            Some(m) => !(m == x),
            None => true,
        };
        proof {
            v@.take(i as int).lemma_push_to_set_commute(x);
            assert(v@.take(i + 1) == v@.take(i as int).push(x));
            assert(v@.no_duplicates() ==> !v@.take(i as int).contains(x)) by {
                if v@.no_duplicates() && v@.take(i as int).contains(x) {
                    let k = choose|k: int| 0 <= k < i && v@.take(i as int)[k] == x;
                    assert(v@[k] == v@[i as int]);
                }
            }
        }
        if keep {
            p.push((x.ip as u128, x.port));
            proof {
                f.lemma_push_to_set_commute(x);
                f = f.push(x);
                assert(p@ =~= f.map_values(|x: CompactPeerv4| pair_of4(x)));
                assert(f.to_set() =~= without(v@.take(i + 1).to_set(), me));
                assert forall|k: int| 0 <= k < f.len() implies v@.take(i + 1).contains(#[trigger] f[k]) by {
                    if k < f.len() - 1 {
                        let k2 = choose|k2: int| 0 <= k2 < i && v@.take(i as int)[k2] == f[k];
                        assert(v@.take(i + 1)[k2] == f[k]);
                    } else {
                        assert(v@.take(i + 1)[i as int] == x);
                    }
                }
            }
        } else {
            proof {
                assert(f.to_set() =~= without(v@.take(i + 1).to_set(), me));
                assert forall|k: int| 0 <= k < f.len() implies v@.take(i + 1).contains(#[trigger] f[k]) by {
                    let k2 = choose|k2: int| 0 <= k2 < i && v@.take(i as int)[k2] == f[k];
                    assert(v@.take(i + 1)[k2] == f[k]);
                }
            }
        }
        i = i + 1;
    }
    proof {
        assert(v@.take(v@.len() as int) == v@);
        assert(v@.no_duplicates() ==> p@.no_duplicates()) by {
            assert forall|a: int, b: int| 0 <= a < p@.len() && 0 <= b < p@.len() && a != b && v@.no_duplicates() implies p@[a] != p@[b] by {
                assert(f[a] != f[b]);
            }
        }
    }
    let ghost unsorted = p@;
    sort_unique(&mut p);
    let mut r: Vec<CompactPeerv4> = Vec::new();
    let mut k: usize = 0;
    while k < p.len()
        invariant
            0 <= k <= p@.len(),
            pairs_sorted(p@),
            v@.no_duplicates() ==> p@.no_duplicates(),
            p@.to_set() == unsorted.to_set(),
            unsorted == f.map_values(|x: CompactPeerv4| pair_of4(x)),
            r@.len() == k,
            forall|t: int| 0 <= t < k ==> pair_of4(#[trigger] r@[t]) == p@[t],
        decreases p@.len() - k,
    {
        let q = p[k];
        proof {
            assert(p@.to_set().contains(q));
            assert(unsorted.contains(q));
            let t = choose|t: int| 0 <= t < unsorted.len() && unsorted[t] == q;
            assert(q == pair_of4(f[t]));
        }
        r.push(CompactPeerv4 { ip: q.0 as u32, port: q.1 });
        k = k + 1;
    }
    proof {
        assert forall|a: int, b: int| 0 <= a < b < r@.len() implies v4_le(#[trigger] r@[a], #[trigger] r@[b]) by {
            assert(pair_le(p@[a], p@[b]));
        }
        assert forall|a: int, b: int| 0 <= a < r@.len() && 0 <= b < r@.len() && a != b && v@.no_duplicates() implies r@[a] != r@[b] by {
            assert(p@[a] != p@[b]);
        }
        assert forall|x: CompactPeerv4| r@.to_set().contains(x) == f.to_set().contains(x) by {
            if r@.contains(x) {
                let t = choose|t: int| 0 <= t < r@.len() && r@[t] == x;
                assert(p@.to_set().contains(p@[t]));
                assert(unsorted.contains(pair_of4(x)));
                let u = choose|u: int| 0 <= u < unsorted.len() && unsorted[u] == pair_of4(x);
                assert(f[u] == x);
            }
            if f.contains(x) {
                let u = choose|u: int| 0 <= u < f.len() && f[u] == x;
                assert(unsorted[u] == pair_of4(x));
                assert(unsorted.to_set().contains(pair_of4(x)));
                assert(p@.contains(pair_of4(x)));
                let t = choose|t: int| 0 <= t < p@.len() && p@[t] == pair_of4(x);
                assert(r@[t] == x);
            }
        }
        assert(r@.to_set() =~= f.to_set());
    }
    r
}

/// The IPv6 peers other than `me`, in ascending order.
pub fn arrange_v6(v: &Vec<CompactPeerv6>, me: Option<CompactPeerv6>) -> (r: Vec<CompactPeerv6>)
    ensures
        v@.no_duplicates() ==> r@.no_duplicates(),
        r@.to_set() == without(v@.to_set(), me),
        v6_sorted(r@),
{
    let mut p: Vec<(u128, u16)> = Vec::new();
    let ghost mut f: Seq<CompactPeerv6> = Seq::empty();
    let mut i: usize = 0;
    while i < v.len()
        invariant
            0 <= i <= v@.len(),
            p@ == f.map_values(|x: CompactPeerv6| pair_of6(x)),
            v@.no_duplicates() ==> f.no_duplicates(),
            f.to_set() == without(v@.take(i as int).to_set(), me),
            forall|k: int| 0 <= k < f.len() ==> v@.take(i as int).contains(#[trigger] f[k]),
        decreases v@.len() - i,
    {
        let x = v[i];
        let keep = match me {
            Some(m) => !(m == x),
            None => true,
        };
        proof {
            v@.take(i as int).lemma_push_to_set_commute(x);
            assert(v@.take(i + 1) == v@.take(i as int).push(x));
            assert(v@.no_duplicates() ==> !v@.take(i as int).contains(x)) by {
                if v@.no_duplicates() && v@.take(i as int).contains(x) {
                    let k = choose|k: int| 0 <= k < i && v@.take(i as int)[k] == x;
                    assert(v@[k] == v@[i as int]);
                }
            }
        }
        if keep {
            p.push((x.ip, x.port));
            proof {
                f.lemma_push_to_set_commute(x);
                f = f.push(x);
                assert(p@ =~= f.map_values(|x: CompactPeerv6| pair_of6(x)));
                assert(f.to_set() =~= without(v@.take(i + 1).to_set(), me));
                assert forall|k: int| 0 <= k < f.len() implies v@.take(i + 1).contains(#[trigger] f[k]) by {
                    if k < f.len() - 1 {
                        let k2 = choose|k2: int| 0 <= k2 < i && v@.take(i as int)[k2] == f[k];
                        assert(v@.take(i + 1)[k2] == f[k]);
                    } else {
                        assert(v@.take(i + 1)[i as int] == x);
                    }
                }
            }
        } else {
            proof {
                assert(f.to_set() =~= without(v@.take(i + 1).to_set(), me));
                assert forall|k: int| 0 <= k < f.len() implies v@.take(i + 1).contains(#[trigger] f[k]) by {
                    let k2 = choose|k2: int| 0 <= k2 < i && v@.take(i as int)[k2] == f[k];
                    assert(v@.take(i + 1)[k2] == f[k]);
                }
            }
        }
        i = i + 1;
    }
    proof {
        assert(v@.take(v@.len() as int) == v@);
        assert(v@.no_duplicates() ==> p@.no_duplicates()) by {
            assert forall|a: int, b: int| 0 <= a < p@.len() && 0 <= b < p@.len() && a != b && v@.no_duplicates() implies p@[a] != p@[b] by {
                assert(f[a] != f[b]);
            }
        }
    }
    let ghost unsorted = p@;
    sort_unique(&mut p);
    let mut r: Vec<CompactPeerv6> = Vec::new();
    let mut k: usize = 0;
    while k < p.len()
        invariant
            0 <= k <= p@.len(),
            pairs_sorted(p@),
            v@.no_duplicates() ==> p@.no_duplicates(),
            p@.to_set() == unsorted.to_set(),
            unsorted == f.map_values(|x: CompactPeerv6| pair_of6(x)),
            r@.len() == k,
            forall|t: int| 0 <= t < k ==> pair_of6(#[trigger] r@[t]) == p@[t],
        decreases p@.len() - k,
    {
        let q = p[k];
        proof {
            assert(p@.to_set().contains(q));
            assert(unsorted.contains(q));
            let t = choose|t: int| 0 <= t < unsorted.len() && unsorted[t] == q;
            assert(q == pair_of6(f[t]));
        }
        r.push(CompactPeerv6 { ip: q.0, port: q.1 });
        k = k + 1;
    }
    proof {
        assert forall|a: int, b: int| 0 <= a < b < r@.len() implies v6_le(#[trigger] r@[a], #[trigger] r@[b]) by {
            assert(pair_le(p@[a], p@[b]));
        }
        assert forall|a: int, b: int| 0 <= a < r@.len() && 0 <= b < r@.len() && a != b && v@.no_duplicates() implies r@[a] != r@[b] by {
            assert(p@[a] != p@[b]);
        }
        assert forall|x: CompactPeerv6| r@.to_set().contains(x) == f.to_set().contains(x) by {
            if r@.contains(x) {
                let t = choose|t: int| 0 <= t < r@.len() && r@[t] == x;
                assert(p@.to_set().contains(p@[t]));
                assert(unsorted.contains(pair_of6(x)));
                let u = choose|u: int| 0 <= u < unsorted.len() && unsorted[u] == pair_of6(x);
                assert(f[u] == x);
            }
            if f.contains(x) {
                let u = choose|u: int| 0 <= u < f.len() && f[u] == x;
                assert(unsorted[u] == pair_of6(x));
                assert(unsorted.to_set().contains(pair_of6(x)));
                assert(p@.contains(pair_of6(x)));
                let t = choose|t: int| 0 <= t < p@.len() && p@[t] == pair_of6(x);
                assert(r@[t] == x);
            }
        }
        assert(r@.to_set() =~= f.to_set());
    }
    r
}

} // verus!
