use vstd::prelude::*;

verus! {

/// What a cache entry holds: its path, its feature vector (binary32 bit
/// patterns) and the modification time it was computed at.
pub type EntryView = (Seq<char>, Seq<u32>, u64);

/// A stored embedding for one image file.
#[derive(Debug)]
pub struct CacheEntry {
    pub path: String,
    pub features: Vec<u32>,
    pub last_modified: u64,
}

impl View for CacheEntry {
    type V = EntryView;

    open spec fn view(&self) -> EntryView {
        (self.path@, self.features@, self.last_modified)
    }
}

impl CacheEntry {
    /// Builds an entry from its parts.
    pub fn new(path: String, features: Vec<u32>, last_modified: u64) -> (r: CacheEntry)
        ensures
            r@ == (path@, features@, last_modified),
    {
        CacheEntry { path, features, last_modified }
    }

    /// A field-by-field copy.
    pub fn duplicate(&self) -> (r: CacheEntry)
        ensures
            r@ == self@,
    {
        CacheEntry {
            path: self.path.clone(),
            features: copy_features(&self.features),
            last_modified: self.last_modified,
        }
    }
}

fn copy_features(v: &Vec<u32>) -> (r: Vec<u32>)
    ensures
        r@ == v@,
{
    let mut r: Vec<u32> = Vec::new();
    let mut i: usize = 0;
    while i < v.len()
        invariant
            i <= v.len(),
            r@ == v@.take(i as int),
        decreases v.len() - i,
    {
        r.push(v[i]);
        i = i + 1;
        assert(r@ =~= v@.take(i as int));
    }
    assert(v@.take(v.len() as int) =~= v@);
    r
}

/// The features stored for `path`, provided its entry was computed at
/// modification time `last_modified` exactly.
pub open spec fn cached_features(m: Map<Seq<char>, EntryView>, path: Seq<char>, last_modified: u64) -> Option<Seq<u32>> {
    if m.contains_key(path) && m[path].2 == last_modified {
        Some(m[path].1)
    } else {
        None
    }
}

/// The mapping after features computed at `last_modified` are stored for `path`.
pub open spec fn stored(m: Map<Seq<char>, EntryView>, path: Seq<char>, features: Seq<u32>, last_modified: u64) -> Map<Seq<char>, EntryView> {
    m.insert(path, (path, features, last_modified))
}

/// The mapping that a snapshot of (key, entry) pairs loads into: each pair in
/// turn inserts or replaces its key.
pub open spec fn snapshot_map(pairs: Seq<(Seq<char>, EntryView)>) -> Map<Seq<char>, EntryView>
    decreases pairs.len(),
{
    if pairs.len() == 0 {
        Map::empty()
    } else {
        snapshot_map(pairs.drop_last()).insert(pairs.last().0, pairs.last().1)
    }
}

/// `pairs` lists every key of `m` exactly once, with its entry, in some order.
pub open spec fn is_snapshot_of(pairs: Seq<(Seq<char>, EntryView)>, m: Map<Seq<char>, EntryView>) -> bool {
    &&& forall|i: int, j: int| 0 <= i < j < pairs.len() ==> pairs[i].0 != pairs[j].0
    &&& forall|i: int| 0 <= i < pairs.len() ==> m.contains_key(#[trigger] pairs[i].0) && m[pairs[i].0] == pairs[i].1
    &&& forall|k: Seq<char>| m.contains_key(k) ==> exists|i: int| 0 <= i < pairs.len() && #[trigger] pairs[i].0 == k
}

/// Views of a sequence of (key, entry) pairs.
pub open spec fn pair_views(pairs: Seq<(String, CacheEntry)>) -> Seq<(Seq<char>, EntryView)> {
    pairs.map_values(|p: (String, CacheEntry)| (p.0@, p.1@))
}

/// Feature cache: image path to the embedding computed for it.
pub struct ImageFeatureCache {
    keys: Vec<String>,
    entries: Vec<CacheEntry>,
    model: Ghost<Map<Seq<char>, EntryView>>,
}

impl View for ImageFeatureCache {
    type V = Map<Seq<char>, EntryView>;

    closed spec fn view(&self) -> Map<Seq<char>, EntryView> {
        self.model@
    }
}

impl ImageFeatureCache {
    /// The keys are distinct and the stored pairs are exactly the mapping.
    pub closed spec fn wf(&self) -> bool {
        &&& self.keys.len() == self.entries.len()
        &&& forall|i: int, j: int| 0 <= i < j < self.keys.len() ==> self.keys@[i]@ != self.keys@[j]@
        &&& forall|i: int| 0 <= i < self.keys.len() ==> self.model@.contains_key(#[trigger] self.keys@[i]@)
            && self.model@[self.keys@[i]@] == self.entries@[i]@
        &&& forall|k: Seq<char>| self.model@.contains_key(k) ==> exists|i: int| 0 <= i < self.keys.len() && #[trigger] self.keys@[i]@ == k
    }

    /// An empty cache.
    pub fn new() -> (r: ImageFeatureCache)
        ensures
            r.wf(),
            r@ == Map::<Seq<char>, EntryView>::empty(),
    {
        ImageFeatureCache { keys: Vec::new(), entries: Vec::new(), model: Ghost(Map::empty()) }
    }

    /// Number of entries.
    pub fn len(&self) -> (r: usize)
        requires
            self.wf(),
        ensures
            r == self@.dom().len(),
    {
        proof {
            self.lemma_dom_len();
        }
        self.keys.len()
    }

    proof fn lemma_dom_len(&self)
        requires
            self.wf(),
        ensures
            self@.dom().len() == self.keys.len(),
    {
        let ks = self.keys@.map_values(|s: String| s@);
        assert forall|i: int, j: int| 0 <= i < j < ks.len() implies ks[i] != ks[j] by {
            assert(self.keys@[i]@ != self.keys@[j]@);
        }
        assert(ks.no_duplicates());
        assert(ks.to_set() =~= self@.dom()) by {
            assert forall|k: Seq<char>| ks.to_set().contains(k) <==> self@.dom().contains(k) by {
                if self@.dom().contains(k) {
                    let i = choose|i: int| 0 <= i < self.keys.len() && #[trigger] self.keys@[i]@ == k;
                    assert(ks[i] == k);
                }
                if ks.to_set().contains(k) {
                    let i = choose|i: int| 0 <= i < ks.len() && ks[i] == k;
                    assert(self.keys@[i]@ == k);
                }
            }
        }
        ks.unique_seq_to_set();
    }

    /// Index of the slot whose key is `path`, if any.
    fn find(&self, path: &str) -> (r: Option<usize>)
        requires
            self.wf(),
        ensures
            match r {
                Some(i) => i < self.keys.len() && self.keys@[i as int]@ == path@,
                None => !self@.contains_key(path@),
            },
    {
        let mut i: usize = 0;
        while i < self.keys.len()
            invariant
                self.wf(),
                i <= self.keys.len(),
                forall|j: int| 0 <= j < i ==> self.keys@[j]@ != path@,
            decreases self.keys.len() - i,
        {
            if same_text(self.keys[i].as_str(), path) {
                return Some(i);
            }
            i = i + 1;
        }
        None
    }

    /// Inserts `entry` under `key`, replacing any entry the key had.
    pub fn insert_entry(&mut self, key: String, entry: CacheEntry)
        requires
            old(self).wf(),
        ensures
            final(self).wf(),
            final(self)@ == old(self)@.insert(key@, entry@),
    {
        let found = self.find(key.as_str());
        let ghost k = key@;
        let ghost v = entry@;
        match found {
            Some(i) => {
                self.entries.set(i, entry);
                self.model = Ghost(self.model@.insert(k, v));
                assert forall|kk: Seq<char>| self.model@.contains_key(kk) implies exists|j: int| 0 <= j < self.keys.len() && #[trigger] self.keys@[j]@ == kk by {
                    if kk == k {
                        assert(self.keys@[i as int]@ == kk);
                    } else {
                        let j = choose|j: int| 0 <= j < old(self).keys.len() && #[trigger] old(self).keys@[j]@ == kk;
                        assert(self.keys@[j]@ == kk);
                    }
                }
            },
            None => {
                self.keys.push(key);
                self.entries.push(entry);
                self.model = Ghost(self.model@.insert(k, v));
                let ghost n = self.keys.len() - 1;
                assert(self.keys@[n]@ == k);
                assert forall|kk: Seq<char>| self.model@.contains_key(kk) implies exists|j: int| 0 <= j < self.keys.len() && #[trigger] self.keys@[j]@ == kk by {
                    if kk == k {
                        assert(self.keys@[n]@ == kk);
                    } else {
                        let j = choose|j: int| 0 <= j < old(self).keys.len() && #[trigger] old(self).keys@[j]@ == kk;
                        assert(self.keys@[j]@ == kk);
                    }
                }
            },
        }
    }
}

impl ImageFeatureCache {
    /// The stored features for `path` if its entry was computed at
    /// `last_modified` exactly; `None` when absent or stale.
    pub fn lookup(&self, path: &str, last_modified: u64) -> (r: Option<Vec<u32>>)
        requires
            self.wf(),
        ensures
            match r {
                Some(v) => cached_features(self@, path@, last_modified) == Some(v@),
                None => cached_features(self@, path@, last_modified) is None,
            },
    {
        match self.find(path) {
            Some(i) => {
                if self.entries[i].last_modified == last_modified {
                    Some(copy_features(&self.entries[i].features))
                } else {
                    None
                }
            },
            None => None,
        }
    }

    /// The features of `path` as of modification time `last_modified`.
    ///
    /// On a hit (an entry computed at exactly that time) the stored vector is
    /// returned and `compute` is not called. Otherwise `compute` runs; what it
    /// returns is handed back, and on success it is stored for `path` with
    /// that time, replacing any older entry.
    pub fn get_or_compute<F, E>(&mut self, path: &str, last_modified: u64, compute: F) -> (r: Result<Vec<u32>, E>)
        where
            F: FnOnce() -> Result<Vec<u32>, E>,
        requires
            old(self).wf(),
            compute.requires(()),
        ensures
            final(self).wf(),
            match cached_features(old(self)@, path@, last_modified) {
                Some(f) => r matches Ok(v) && v@ == f && final(self)@ == old(self)@,
                None => compute.ensures((), r) && match r {
                    Ok(v) => final(self)@ == stored(old(self)@, path@, v@, last_modified),
                    Err(_) => final(self)@ == old(self)@,
                },
            },
    {
        match self.lookup(path, last_modified) {
            Some(v) => Ok(v),
            None => {
                let r = compute();
                match r {
                    Ok(v) => {
                        let entry = CacheEntry {
                            path: path.to_owned(),
                            features: copy_features(&v),
                            last_modified,
                        };
                        self.insert_entry(path.to_owned(), entry);
                        Ok(v)
                    },
                    Err(e) => Err(e),
                }
            },
        }
    }

    /// Loads a snapshot: each (key, entry) pair in turn inserts or replaces
    /// its key, starting from an empty cache.
    pub fn restore(pairs: &Vec<(String, CacheEntry)>) -> (r: ImageFeatureCache)
        ensures
            r.wf(),
            r@ == snapshot_map(pair_views(pairs@)),
    {
        let ghost all = pair_views(pairs@);
        let mut cache = ImageFeatureCache::new();
        let mut i: usize = 0;
        while i < pairs.len()
            invariant
                i <= pairs.len(),
                all == pair_views(pairs@),
                cache.wf(),
                cache@ == snapshot_map(all.take(i as int)),
            decreases pairs.len() - i,
        {
            let key = pairs[i].0.clone();
            let entry = pairs[i].1.duplicate();
            cache.insert_entry(key, entry);
            assert(all.take(i + 1).drop_last() =~= all.take(i as int));
            i = i + 1;
        }
        assert(all.take(pairs.len() as int) =~= all);
        cache
    }

    /// Every (key, entry) pair of the cache, each key once.
    pub fn persist(&self) -> (r: Vec<(String, CacheEntry)>)
        requires
            self.wf(),
        ensures
            is_snapshot_of(pair_views(r@), self@),
    {
        let mut r: Vec<(String, CacheEntry)> = Vec::new();
        let mut i: usize = 0;
        while i < self.keys.len()
            invariant
                self.wf(),
                i <= self.keys.len(),
                r.len() == i,
                forall|j: int| 0 <= j < i ==> (#[trigger] pair_views(r@)[j]) == (self.keys@[j]@, self.entries@[j]@),
            decreases self.keys.len() - i,
        {
            let key = self.keys[i].clone();
            let entry = self.entries[i].duplicate();
            let ghost before = r@;
            r.push((key, entry));
            assert(r@ == before.push((key, entry)));
            assert forall|j: int| 0 <= j < i + 1 implies (#[trigger] pair_views(r@)[j]) == (self.keys@[j]@, self.entries@[j]@) by {
                if j < i {
                    assert(r@[j] == before[j]);
                    assert(pair_views(before)[j] == (self.keys@[j]@, self.entries@[j]@));
                }
            }
            i = i + 1;
        }
        let ghost pv = pair_views(r@);
        assert forall|k: Seq<char>| self@.contains_key(k) implies exists|j: int| 0 <= j < pv.len() && #[trigger] pv[j].0 == k by {
            let j = choose|j: int| 0 <= j < self.keys.len() && #[trigger] self.keys@[j]@ == k;
            assert(pv[j].0 == k);
        }
        assert forall|a: int| 0 <= a < pv.len() implies self@.contains_key(#[trigger] pv[a].0) && self@[pv[a].0] == pv[a].1 by {
            assert(pv[a] == (self.keys@[a]@, self.entries@[a]@));
        }
        assert forall|a: int, b: int| 0 <= a < b < pv.len() implies pv[a].0 != pv[b].0 by {
            assert(pv[a] == (self.keys@[a]@, self.entries@[a]@));
            assert(pv[b] == (self.keys@[b]@, self.entries@[b]@));
        }
        r
    }
}

/// Features stored for a path at a modification time come back unchanged
/// when the path is asked for again at that same time: a cache hit. A hit
/// leaves the mapping as it was, so every later ask at that time hits too.
pub proof fn lemma_hit_after_store(m: Map<Seq<char>, EntryView>, path: Seq<char>, features: Seq<u32>, last_modified: u64)
    ensures
        cached_features(stored(m, path, features, last_modified), path, last_modified) == Some(features),
{
}

/// A path whose modification time differs from the one its entry was
/// computed at misses, and the recomputed features replace the entry.
pub proof fn lemma_new_time_recomputes(
    m: Map<Seq<char>, EntryView>,
    path: Seq<char>,
    features: Seq<u32>,
    last_modified: u64,
    recomputed: Seq<u32>,
    new_time: u64,
)
    requires
        new_time != last_modified,
    ensures
        cached_features(stored(m, path, features, last_modified), path, new_time) is None,
        stored(stored(m, path, features, last_modified), path, recomputed, new_time)[path] == (path, recomputed, new_time),
        cached_features(stored(stored(m, path, features, last_modified), path, recomputed, new_time), path, new_time) == Some(recomputed),
{
}

/// Loading any snapshot of a mapping, whatever order it lists the keys in,
/// gives back that mapping: same paths, vectors and times.
pub proof fn lemma_round_trip(pairs: Seq<(Seq<char>, EntryView)>, m: Map<Seq<char>, EntryView>)
    requires
        is_snapshot_of(pairs, m),
    ensures
        snapshot_map(pairs) == m,
    decreases pairs.len(),
{
    if pairs.len() == 0 {
        assert(m =~= Map::empty()) by {
            assert forall|k: Seq<char>| !m.contains_key(k) by {
                if m.contains_key(k) {
                    let i = choose|i: int| 0 <= i < pairs.len() && #[trigger] pairs[i].0 == k;
                }
            }
        }
    } else {
        let n = pairs.len() - 1;
        let last = pairs.last();
        let init = pairs.drop_last();
        let rest = m.remove(last.0);
        assert(m.contains_key(pairs[n].0));
        assert forall|i: int| 0 <= i < init.len() implies rest.contains_key(#[trigger] init[i].0) && rest[init[i].0] == init[i].1 by {
            assert(init[i] == pairs[i]);
            assert(m.contains_key(pairs[i].0));
            assert(pairs[i].0 != pairs[n].0);
        }
        assert forall|k: Seq<char>| rest.contains_key(k) implies exists|i: int| 0 <= i < init.len() && #[trigger] init[i].0 == k by {
            let i = choose|i: int| 0 <= i < pairs.len() && #[trigger] pairs[i].0 == k;
            assert(i != n);
            assert(init[i] == pairs[i]);
        }
        assert forall|i: int, j: int| 0 <= i < j < init.len() implies init[i].0 != init[j].0 by {
            assert(init[i] == pairs[i]);
            assert(init[j] == pairs[j]);
        }
        lemma_round_trip(init, rest);
        assert(rest.insert(last.0, last.1) =~= m);
    }
}

/// Whether two strings hold the same characters.
pub fn same_text(a: &str, b: &str) -> (r: bool)
    ensures
        r == (a@ == b@),
{
    let n = a.unicode_len();
    if n != b.unicode_len() {
        return false;
    }
    let mut i: usize = 0;
    while i < n
        invariant
            n == a@.len(),
            n == b@.len(),
            i <= n,
            forall|j: int| 0 <= j < i ==> a@[j] == b@[j],
        decreases n - i,
    {
        if a.get_char(i) != b.get_char(i) {
            return false;
        }
        i = i + 1;
    }
    assert(a@ =~= b@);
    true
}

} // verus!
