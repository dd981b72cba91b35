//! Per-torrent statistics: seeders, leechers, completions, traffic.
use vstd::prelude::*;

verus! {

/// The statistics record of one torrent.
pub struct Torrent {
    pub info_hash: String,
    /// Number of seeders.
    pub complete: u32,
    /// Number of completion events received.
    pub downloaded: u32,
    /// Number of leechers.
    pub incomplete: u32,
    /// Total traffic of the torrent.
    pub balance: u32,
}

impl Torrent {
    pub fn new(info_hash: String, complete: u32, downloaded: u32, incomplete: u32, balance: u32) -> (r: Torrent)
        ensures
            r.info_hash@ == info_hash@,
            r.complete == complete,
            r.downloaded == downloaded,
            r.incomplete == incomplete,
            r.balance == balance,
    {
        Torrent { info_hash, complete, downloaded, incomplete, balance }
    }
}

/// Counters of a torrent as a model: complete, downloaded, incomplete,
/// balance.
pub type Counters = (u32, u32, u32, u32);

/// Statistics records keyed by info hash, held in a `hashbrown::HashMap`.
#[verifier::external_body]
pub struct TorrentRecords {
    inner: hashbrown::HashMap<String, Torrent>,
}

/// The entries that a `TorrentRecords` holds.
pub uninterp spec fn torrent_records_contents(m: TorrentRecords) -> Map<Seq<char>, Torrent>;

impl TorrentRecords {
    pub open spec fn contents(&self) -> Map<Seq<char>, Torrent> {
        torrent_records_contents(*self)
    }

    /// Relies on hashbrown::HashMap::new: the new map is empty.
    #[verifier::external_body]
    pub(crate) fn new() -> (r: TorrentRecords)
        ensures
            torrent_records_contents(r).dom() == Set::<Seq<char>>::empty(),
    {
        TorrentRecords { inner: hashbrown::HashMap::new() }
    }

    /// Relies on hashbrown::HashMap::get: the entry under the key, if any.
    #[verifier::external_body]
    pub(crate) fn get(&self, k: &String) -> (r: Option<&Torrent>)
        ensures
            r matches Some(v) ==> torrent_records_contents(*self).contains_key(k@)
                && torrent_records_contents(*self)[k@] == *v,
            r is None ==> !torrent_records_contents(*self).contains_key(k@),
    {
        self.inner.get(k)
    }

    /// Relies on hashbrown::HashMap::insert: the key maps to the value afterwards.
    #[verifier::external_body]
    pub(crate) fn insert(&mut self, k: String, v: Torrent)
        ensures
            torrent_records_contents(*final(self)) == torrent_records_contents(*old(self)).insert(k@, v),
    {
        self.inner.insert(k, v);
    }
}

/// The counters of a record.
pub open spec fn counters(t: Torrent) -> Counters {
    (t.complete, t.downloaded, t.incomplete, t.balance)
}

/// `n + 1`, held at the largest `u32`.
pub open spec fn sat_inc(n: u32) -> u32 {
    if n < u32::MAX {
        (n + 1) as u32
    } else {
        n
    }
}

/// `n - 1`, held at zero.
pub open spec fn sat_dec(n: u32) -> u32 {
    if n > 0 {
        (n - 1) as u32
    } else {
        0
    }
}

/// One line of a scrape answer.
pub struct ScrapeFile {
    pub info_hash: String,
    pub complete: u32,
    pub downloaded: u32,
    pub incomplete: u32,
    pub name: Option<String>,
}

/// A scrape line as a model: hash, complete, downloaded, incomplete.
pub type ScrapeRow = (Seq<char>, u32, u32, u32);

impl View for ScrapeFile {
    type V = ScrapeRow;

    open spec fn view(&self) -> ScrapeRow {
        (self.info_hash@, self.complete, self.downloaded, self.incomplete)
    }
}

/// The scrape lines for a list of hashes: one per known hash, in order;
/// unknown hashes are left out.
pub open spec fn scrape_rows(m: Map<Seq<char>, Torrent>, hs: Seq<Seq<char>>) -> Seq<ScrapeRow>
    decreases hs.len(),
{
    if hs.len() == 0 {
        Seq::empty()
    } else {
        let rest = scrape_rows(m, hs.drop_last());
        let h = hs.last();
        if m.contains_key(h) {
            rest.push((h, m[h].complete, m[h].downloaded, m[h].incomplete))
        } else {
            rest
        }
    }
}

/// The map that a list of records makes: each record under its hash, a
/// later one replacing an earlier one.
pub open spec fn records_of(ts: Seq<Torrent>) -> Map<Seq<char>, Torrent>
    decreases ts.len(),
{
    if ts.len() == 0 {
        Map::empty()
    } else {
        records_of(ts.drop_last()).insert(ts.last().info_hash@, ts.last())
    }
}

/// The statistics of all torrents known to the tracker. Callers that share
/// it between threads wrap it in a lock of their choice.
pub struct TorrentStore {
    pub torrents: TorrentRecords,
}

impl TorrentStore {
    pub open spec fn records(&self) -> Map<Seq<char>, Torrent> {
        self.torrents.contents()
    }

    /// The counters of a hash; all zero if it is unknown.
    pub open spec fn counters_of(&self, h: Seq<char>) -> Counters {
        if self.records().contains_key(h) {
            counters(self.records()[h])
        } else {
            (0, 0, 0, 0)
        }
    }

    /// Every hash but `h` has the same entry in `self` as in `other`.
    pub open spec fn same_except(&self, other: &TorrentStore, h: Seq<char>) -> bool {
        forall|k: Seq<char>|
            k != h ==> (#[trigger] self.records().contains_key(k) == other.records().contains_key(k)
                && self.counters_of(k) == other.counters_of(k))
    }

    /// A store holding the given records; a later record for a hash
    /// replaces an earlier one.
    pub fn new(torrent_records: Vec<Torrent>) -> (r: TorrentStore)
        ensures
            r.records() == records_of(torrent_records@),
    {
        let mut store = TorrentStore::default();
        let mut rest = torrent_records;
        let ghost all = rest@;
        proof {
            assert(store.records() =~= records_of(all.take(0)));
        }
        let mut i: usize = 0;
        let n = rest.len();
        while i < n
            invariant
                n == all.len(),
                0 <= i <= n,
                rest@ == all.skip(i as int),
                store.records() == records_of(all.take(i as int)),
            decreases n - i,
        {
            let t = rest.remove(0);
            proof {
                assert(rest@ =~= all.skip(i + 1));
                assert(t == all[i as int]);
                assert(all.take(i + 1).drop_last() == all.take(i as int));
            }
            store.insert_torrent(t);
            i = i + 1;
        }
        proof {
            assert(all.take(n as int) == all);
        }
        store
    }

    pub fn default() -> (r: TorrentStore)
        ensures
            r.records().dom() == Set::<Seq<char>>::empty(),
    {
        TorrentStore { torrents: TorrentRecords::new() }
    }

    /// Makes a torrent known, or replaces its record.
    pub fn insert_torrent(&mut self, t: Torrent)
        ensures
            final(self).records() == old(self).records().insert(t.info_hash@, t),
    {
        let k = t.info_hash.clone();
        self.torrents.insert(k, t);
    }

    /// The scrape lines of the known hashes among `info_hashes`, in order.
    pub fn get_scrapes(&self, info_hashes: Vec<String>) -> (r: Vec<ScrapeFile>)
        ensures
            r@.map_values(|f: ScrapeFile| f@) == scrape_rows(
                self.records(),
                info_hashes@.map_values(|h: String| h@),
            ),
            forall|i: int| 0 <= i < r@.len() ==> (#[trigger] r@[i]).name is None,
    {
        let ghost hs = info_hashes@.map_values(|h: String| h@);
        let mut scrapes: Vec<ScrapeFile> = Vec::new();
        let mut i: usize = 0;
        while i < info_hashes.len()
            invariant
                0 <= i <= info_hashes.len(),
                hs == info_hashes@.map_values(|h: String| h@),
                scrapes@.map_values(|f: ScrapeFile| f@) == scrape_rows(self.records(), hs.take(i as int)),
                forall|j: int| 0 <= j < scrapes@.len() ==> (#[trigger] scrapes@[j]).name is None,
            decreases info_hashes.len() - i,
        {
            proof {
                assert(hs.take(i + 1).drop_last() == hs.take(i as int));
            }
            if let Some(t) = self.torrents.get(&info_hashes[i]) {
                scrapes.push(
                    ScrapeFile {
                        info_hash: info_hashes[i].clone(),
                        complete: t.complete,
                        downloaded: t.downloaded,
                        incomplete: t.incomplete,
                        name: None,
                    },
                );
                proof {
                    assert(scrapes@.map_values(|f: ScrapeFile| f@) =~= scrape_rows(self.records(), hs.take(i as int)).push(scrapes@.last()@));
                }
            }
            i = i + 1;
        }
        proof {
            assert(hs.take(info_hashes@.len() as int) == hs);
        }
        scrapes
    }

    /// The seeder and leecher counts of a hash; zero for an unknown hash.
    pub fn get_announce_stats(&self, info_hash: String) -> (r: (u32, u32))
        ensures
            r.0 == self.counters_of(info_hash@).0,
            r.1 == self.counters_of(info_hash@).2,
    {
        let mut complete: u32 = 0;
        let mut incomplete: u32 = 0;
        if let Some(t) = self.torrents.get(&info_hash) {
            complete = t.complete;
            incomplete = t.incomplete;
        }
        (complete, incomplete)
    }

    /// Replaces the counters of a known hash.
    fn set_counters(&mut self, info_hash: &String, c: Counters)
        requires
            old(self).records().contains_key(info_hash@),
        ensures
            final(self).records().dom() == old(self).records().dom(),
            final(self).counters_of(info_hash@) == c,
            final(self).same_except(old(self), info_hash@),
    {
        let (complete, downloaded, incomplete, balance) = c;
        let rec = Torrent::new(info_hash.clone(), complete, downloaded, incomplete, balance);
        self.torrents.insert(info_hash.clone(), rec);
        proof {
            assert(self.records().dom() =~= old(self).records().dom());
        }
    }

    /// The counters of a known hash, read out of the map.
    fn read_counters(&self, info_hash: &String) -> (r: Option<Counters>)
        ensures
            r matches Some(c) ==> self.records().contains_key(info_hash@) && c == self.counters_of(
                info_hash@,
            ),
            r is None ==> !self.records().contains_key(info_hash@),
    {
        match self.torrents.get(info_hash) {
            Some(t) => Some((t.complete, t.downloaded, t.incomplete, t.balance)),
            None => None,
        }
    }

    /// A leecher became a seeder: one more seeder (saturating), one fewer
    /// leecher (not below zero). An unknown hash changes nothing.
    pub fn new_seed(&mut self, info_hash: String)
        ensures
            final(self).records().dom() == old(self).records().dom(),
            final(self).same_except(old(self), info_hash@),
            final(self).counters_of(info_hash@) == {
                let (c, d, i, b) = old(self).counters_of(info_hash@);
                if old(self).records().contains_key(info_hash@) {
                    (sat_inc(c), d, sat_dec(i), b)
                } else {
                    (c, d, i, b)
                }
            },
    {
        if let Some((c, d, i, b)) = self.read_counters(&info_hash) {
            self.set_counters(&info_hash, (c.saturating_add(1), d, i.saturating_sub(1), b));
        }
    }

    /// One more leecher (saturating). An unknown hash changes nothing.
    pub fn new_leech(&mut self, info_hash: String)
        ensures
            final(self).records().dom() == old(self).records().dom(),
            final(self).same_except(old(self), info_hash@),
            final(self).counters_of(info_hash@) == {
                let (c, d, i, b) = old(self).counters_of(info_hash@);
                if old(self).records().contains_key(info_hash@) {
                    (c, d, sat_inc(i), b)
                } else {
                    (c, d, i, b)
                }
            },
    {
        if let Some((c, d, i, b)) = self.read_counters(&info_hash) {
            self.set_counters(&info_hash, (c, d, i.saturating_add(1), b));
        }
    }

    /// One more completion event (saturating). An unknown hash changes
    /// nothing.
    pub fn new_download(&mut self, info_hash: String)
        ensures
            final(self).records().dom() == old(self).records().dom(),
            final(self).same_except(old(self), info_hash@),
            final(self).counters_of(info_hash@) == {
                let (c, d, i, b) = old(self).counters_of(info_hash@);
                if old(self).records().contains_key(info_hash@) {
                    (c, sat_inc(d), i, b)
                } else {
                    (c, d, i, b)
                }
            },
    {
        if let Some((c, d, i, b)) = self.read_counters(&info_hash) {
            self.set_counters(&info_hash, (c, d.saturating_add(1), i, b));
        }
    }
}

/// A scrape answers only for known hashes: no line names an unknown hash,
/// and asking for unknown hashes alone gives no lines, not a failure.
pub proof fn lemma_scrape_omits_unknown(m: Map<Seq<char>, Torrent>, hs: Seq<Seq<char>>, h: Seq<char>)
    requires
        !m.contains_key(h),
    ensures
        forall|i: int| 0 <= i < scrape_rows(m, hs).len() ==> (#[trigger] scrape_rows(m, hs)[i]).0 != h,
        (forall|j: int| 0 <= j < hs.len() ==> #[trigger] hs[j] == h) ==> scrape_rows(m, hs).len() == 0,
    decreases hs.len(),
{
    if hs.len() > 0 {
        lemma_scrape_omits_unknown(m, hs.drop_last(), h);
        if forall|j: int| 0 <= j < hs.len() ==> #[trigger] hs[j] == h {
            assert forall|j: int| 0 <= j < hs.drop_last().len() implies #[trigger] hs.drop_last()[j] == h by {
                assert(hs.drop_last()[j] == hs[j]);
            }
            assert(hs.last() == hs[hs.len() - 1]);
        }
    }
}

} // verus!
