//! Bounded random selection of peers.
use vstd::prelude::*;

use rand::seq::SliceRandom;

use crate::peer::CompactPeer;

verus! {

/// Relies on rand's `SliceRandom::shuffle`, driven by `rand::thread_rng`:
/// the items come back in some order, each exactly as often as before.
#[verifier::external_body]
fn shuffle(v: &mut Vec<CompactPeer>)
    ensures
        final(v)@.to_multiset() == old(v)@.to_multiset(),
{
    v.shuffle(&mut rand::thread_rng());
}

/// A pool of candidate peers for a discovery answer.
pub struct PeerList(pub Vec<CompactPeer>);

impl PeerList {
    pub fn new() -> (r: PeerList)
        ensures
            r.0@ == Seq::<CompactPeer>::empty(),
    {
        PeerList(Vec::new())
    }

    /// Cuts the pool down to `numwant` peers chosen at random; a pool that
    /// is small enough is kept whole.
    pub fn make_random(&mut self, numwant: u32)
        ensures
            old(self).0@.len() <= numwant ==> final(self).0@ == old(self).0@,
            final(self).0@.len() == if old(self).0@.len() <= numwant {
                old(self).0@.len()
            } else {
                numwant as nat
            },
            final(self).0@.to_set().subset_of(old(self).0@.to_set()),
            final(self).0@.to_multiset().subset_of(old(self).0@.to_multiset()),
            old(self).0@.no_duplicates() ==> final(self).0@.no_duplicates(),
    {
        if self.0.len() > numwant as usize {
            let ghost before = self.0@;
            shuffle(&mut self.0);
            let ghost shuffled = self.0@;
            proof {
                before.to_multiset_ensures();
                shuffled.to_multiset_ensures();
                if before.no_duplicates() {
                    before.lemma_multiset_has_no_duplicates();
                    shuffled.lemma_multiset_has_no_duplicates_conv();
                }
            }
            self.0.truncate(numwant as usize);
            proof {
                let n = numwant as int;
                assert(shuffled =~= shuffled.take(n) + shuffled.skip(n));
                vstd::seq_lib::lemma_multiset_commutative(shuffled.take(n), shuffled.skip(n));
                assert(self.0@ == shuffled.take(n));
                broadcast use vstd::multiset::group_multiset_axioms;
                assert(self.0@.to_multiset().subset_of(before.to_multiset()));
                assert forall|x: CompactPeer| self.0@.to_set().contains(x) implies before.to_set().contains(x) by {
                    let i = choose|i: int| 0 <= i < self.0@.len() && self.0@[i] == x;
                    assert(shuffled[i] == x);
                    assert(shuffled.contains(x));
                    assert(shuffled.to_multiset().count(x) > 0);
                    assert(before.to_multiset().count(x) > 0);
                    assert(before.contains(x));
                }
            }
        }
    }
}

} // verus!
