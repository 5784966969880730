//! Keys and statistics for caching parsed and laid-out Mermaid diagrams.
//!
//! A key combines the blake3 hash of the diagram source with the rendering
//! parameters that affect layout, already rounded: the font size in half
//! points and the available width in tens of pixels.
use vstd::prelude::*;
use vstd::string::StringSliceAdditionalSpecFns;
use crate::markdown::mermaid::flowchart::{key_index, lemma_key_index, Flowchart};

verus! {

/// The blake3 digest of a byte string; it depends on the bytes alone.
pub uninterp spec fn blake3_digest(data: Seq<u8>) -> Seq<u8>;

/// `blake3::hash`: the 32 bytes of the digest of `data`, named by
/// `blake3_digest`.
#[verifier::external_body]
fn blake3_hash(data: &[u8]) -> (r: [u8; 32])
    ensures
        r@ == blake3_digest(data@),
{
    *blake3::hash(data).as_bytes()
}

/// A cache key for Mermaid diagram rendering: the key is a combination of
/// the source hash and the rendering parameters that affect layout.
#[derive(Debug, Clone, Copy, PartialEq, Eq, Hash)]
pub struct CacheKey {
    /// Blake3 hash of the source code
    pub source_hash: [u8; 32],
    /// Font size rounded to the nearest 0.5, times two
    pub font_size_x2: u32,
    /// Available width rounded to the nearest 10 pixels, divided by ten
    pub width_div10: u32,
}

impl CacheKey {
    /// A key for a diagram source and rounded rendering parameters.
    pub fn new(source: &str, font_size_x2: u32, width_div10: u32) -> (r: Self)
        ensures
            r.source_hash@ == blake3_digest(source.spec_bytes()),
            r.font_size_x2 == font_size_x2,
            r.width_div10 == width_div10,
    {
        let hash = blake3_hash(source.as_bytes());
        CacheKey { source_hash: hash, font_size_x2, width_div10 }
    }

    /// The source hash.
    pub fn source_hash(&self) -> (r: &[u8; 32])
        ensures
            r@ == self.source_hash@,
    {
        &self.source_hash
    }
}

/// Cache statistics for monitoring performance.
#[derive(Debug, Clone)]
pub struct CacheStats {
    /// Number of cache hits
    pub hits: u64,
    /// Number of cache misses
    pub misses: u64,
    /// Number of evictions
    pub evictions: u64,
}

impl Default for CacheStats {
    fn default() -> (r: Self)
        ensures
            r.hits == 0 && r.misses == 0 && r.evictions == 0,
    {
        CacheStats { hits: 0, misses: 0, evictions: 0 }
    }
}

/// Whether two keys are equal: the same hash bytes and parameters.
fn key_eq(a: &CacheKey, b: &CacheKey) -> (r: bool)
    ensures
        r == (*a == *b),
{
    if a.font_size_x2 != b.font_size_x2 || a.width_div10 != b.width_div10 {
        return false;
    }
    let mut i: usize = 0;
    while i < 32
        invariant
            i <= 32,
            forall|j: int| 0 <= j < i ==> a.source_hash[j] == b.source_hash[j],
        decreases 32 - i,
    {
        if a.source_hash[i] != b.source_hash[i] {
            return false;
        }
        i = i + 1;
    }
    proof {
        broadcast use vstd::array::axiom_array_ext_equal;
        assert(a.source_hash =~= b.source_hash);
    }
    true
}

// ──────────────────────────────── the cache ──────────────────────────────────

/// Maximum number of cached flowcharts.
pub const DEFAULT_MAX_ENTRIES: usize = 50;

/// Cached flowchart data: the parsed flowchart, the layout computed for it
/// (of the renderer's layout type `L`) and when it was last used.
#[derive(Debug, Clone)]
pub struct CachedFlowchart<L> {
    /// The parsed flowchart AST
    pub flowchart: Flowchart,
    /// The computed layout
    pub layout: L,
    /// The cache's access count when the entry was last used (for LRU
    /// eviction); later uses have larger counts
    pub last_access: u64,
}

impl<L> CachedFlowchart<L> {
    /// A new entry, used at access count `now`.
    pub fn new(flowchart: Flowchart, layout: L, now: u64) -> (r: Self)
        ensures
            r.flowchart == flowchart,
            r.layout == layout,
            r.last_access == now,
    {
        CachedFlowchart { flowchart, layout, last_access: now }
    }

    /// Mark the entry used at access count `now`.
    pub fn touch(&mut self, now: u64)
        ensures
            final(self).flowchart == old(self).flowchart,
            final(self).layout == old(self).layout,
            final(self).last_access == now,
    {
        self.last_access = now;
    }
}

/// Cache manager for Mermaid diagrams: at most `max_entries` flowcharts
/// (at least one can always be inserted), the least recently used one
/// evicted to make room.
#[derive(Debug)]
pub struct MermaidCacheManager<L> {
    /// Key and cached data, one entry per key
    flowcharts: Vec<(CacheKey, CachedFlowchart<L>)>,
    /// Maximum number of entries
    max_entries: usize,
    /// Cache statistics
    stats: CacheStats,
    /// The number of accesses so far (saturating), which orders uses
    clock: u64,
}

/// Whether no key occurs twice.
pub open spec fn keys_unique<V>(v: Seq<(CacheKey, V)>) -> bool {
    forall|i: int, j: int| 0 <= i < j < v.len() ==> #[trigger] v[i].0 != #[trigger] v[j].0
}

/// The entry for `k`, if any.
pub open spec fn lookup<V>(v: Seq<(CacheKey, V)>, k: CacheKey) -> Option<V> {
    let i = key_index(v, k);
    if i >= 0 {
        Some(v[i].1)
    } else {
        None
    }
}

/// Whether entry `i` was used least recently (the first such in order).
pub open spec fn is_lru<L>(v: Seq<(CacheKey, CachedFlowchart<L>)>, i: int) -> bool {
    &&& 0 <= i < v.len()
    &&& forall|j: int| 0 <= j < v.len() ==> v[i].1.last_access <= #[trigger] v[j].1.last_access
}

impl<L> MermaidCacheManager<L> {
    /// The entries, one per key.
    pub closed spec fn entries(&self) -> Seq<(CacheKey, CachedFlowchart<L>)> {
        self.flowcharts@
    }

    /// The capacity.
    pub closed spec fn capacity(&self) -> usize {
        self.max_entries
    }

    /// The statistics.
    pub closed spec fn spec_stats(&self) -> CacheStats {
        self.stats
    }

    /// The access count.
    pub closed spec fn clock(&self) -> u64 {
        self.clock
    }

    /// The invariant: keys unique; no more entries than the capacity, or
    /// one where the capacity is zero; no entry used after the clock.
    pub closed spec fn wf(&self) -> bool {
        &&& keys_unique(self.flowcharts@)
        &&& self.flowcharts@.len() <= if self.max_entries == 0 {
            1
        } else {
            self.max_entries as int
        }
        &&& forall|i: int| 0 <= i < self.flowcharts@.len() ==> #[trigger] self.flowcharts@[i].1.last_access <= self.clock
    }

    /// Create a new cache manager with default capacity.
    pub fn new() -> (r: Self)
        ensures
            r.wf(),
            r.entries().len() == 0,
            r.capacity() == DEFAULT_MAX_ENTRIES,
            r.spec_stats() == (CacheStats { hits: 0, misses: 0, evictions: 0 }),
    {
        Self::with_capacity(DEFAULT_MAX_ENTRIES)
    }

    /// Create a new cache manager with specified capacity.
    pub fn with_capacity(max_entries: usize) -> (r: Self)
        ensures
            r.wf(),
            r.entries().len() == 0,
            r.capacity() == max_entries,
            r.spec_stats() == (CacheStats { hits: 0, misses: 0, evictions: 0 }),
    {
        MermaidCacheManager { flowcharts: Vec::new(), max_entries, stats: CacheStats::default(), clock: 0 }
    }

    /// The index of the entry for `key`.
    fn find(&self, key: &CacheKey) -> (r: Option<usize>)
        ensures
            match r {
                Some(i) => key_index(self.entries(), *key) == i as int && i < self.entries().len(),
                None => key_index(self.entries(), *key) == -1,
            },
    {
        let ghost v = self.flowcharts@;
        proof {
            lemma_key_index(v, *key);
        }
        let mut i: usize = 0;
        while i < self.flowcharts.len()
            invariant
                i <= v.len(),
                v == self.flowcharts@,
                forall|j: int| 0 <= j < i ==> #[trigger] v[j].0 != *key,
            decreases v.len() - i,
        {
            if key_eq(&self.flowcharts[i].0, key) {
                proof {
                    lemma_key_index(v, *key);
                }
                return Some(i);
            }
            i = i + 1;
        }
        None
    }

    /// Get a cached flowchart if available, counting a hit or a miss; a
    /// hit marks the entry used.
    pub fn get_flowchart(&mut self, key: &CacheKey) -> (r: Option<&CachedFlowchart<L>>)
        requires
            old(self).wf(),
            old(self).spec_stats().hits < u64::MAX,
            old(self).spec_stats().misses < u64::MAX,
        ensures
            get_post(
                *old(self),
                *final(self),
                *key,
                match r {
                    Some(x) => Some(*x),
                    None => None,
                },
            ),
    {
        match self.find(key) {
            Some(i) => {
                self.clock = self.clock.saturating_add(1);
                let now = self.clock;
                let (k, mut entry) = self.flowcharts.remove(i);
                entry.touch(now);
                self.flowcharts.insert(i, (k, entry));
                self.stats.hits = self.stats.hits + 1;
                proof {
                    let v0 = old(self).flowcharts@;
                    let v1 = self.flowcharts@;
                    assert(v1 =~= v0.update(i as int, (k, entry)));
                    lemma_key_index(v0, *key);
                    lemma_update_lookup(v0, i as int, entry);
                }
                Some(&self.flowcharts[i].1)
            },
            None => {
                self.stats.misses = self.stats.misses + 1;
                proof {
                    lemma_key_index(self.flowcharts@, *key);
                }
                None
            },
        }
    }

    /// Evict the least recently used entry, if any.
    fn evict_lru(&mut self)
        requires
            old(self).wf(),
            old(self).spec_stats().evictions < u64::MAX,
        ensures
            final(self).wf(),
            final(self).capacity() == old(self).capacity(),
            final(self).clock() == old(self).clock(),
            old(self).entries().len() == 0 ==> *final(self) == *old(self),
            old(self).entries().len() > 0 ==> exists|i: int| #[trigger] is_lru(old(self).entries(), i)
                && final(self).entries() == old(self).entries().remove(i),
            old(self).entries().len() > 0 ==> final(self).spec_stats() == (CacheStats {
                evictions: (old(self).spec_stats().evictions + 1) as u64,
                ..old(self).spec_stats()
            }),
    {
        if self.flowcharts.len() == 0 {
            return;
        }
        let ghost v = self.flowcharts@;
        let mut best: usize = 0;
        let mut i: usize = 1;
        while i < self.flowcharts.len()
            invariant
                1 <= i <= v.len(),
                v == self.flowcharts@,
                best < i,
                forall|j: int| 0 <= j < i ==> v[best as int].1.last_access <= #[trigger] v[j].1.last_access,
            decreases v.len() - i,
        {
            if self.flowcharts[i].1.last_access < self.flowcharts[best].1.last_access {
                best = i;
            }
            i = i + 1;
        }
        assert(is_lru(v, best as int));
        self.flowcharts.remove(best);
        self.stats.evictions = self.stats.evictions + 1;
        proof {
            let w = self.flowcharts@;
            assert(w =~= v.remove(best as int));
            assert forall|a: int, b: int| 0 <= a < b < w.len() implies #[trigger] w[a].0 != #[trigger] w[b].0 by {
                let a2 = if a < best { a } else { a + 1 };
                let b2 = if b < best { b } else { b + 1 };
                assert(w[a] == v[a2] && w[b] == v[b2]);
            }
            assert forall|a: int| 0 <= a < w.len() implies #[trigger] w[a].1.last_access <= self.clock by {
                let a2 = if a < best { a } else { a + 1 };
                assert(w[a] == v[a2]);
            }
        }
    }

    /// Insert a flowchart into the cache; if the cache is full, the least
    /// recently used entry is evicted first. An entry for the same key is
    /// replaced.
    pub fn insert_flowchart(&mut self, key: CacheKey, flowchart: Flowchart, layout: L)
        requires
            old(self).wf(),
            old(self).spec_stats().evictions < u64::MAX,
        ensures
            insert_post(*old(self), *final(self), key, flowchart, layout),
    {
        let ghost v0 = self.flowcharts@;
        if self.flowcharts.len() >= self.max_entries {
            self.evict_lru();
        }
        let ghost ve = self.flowcharts@;
        proof {
            if v0.len() >= self.max_entries && v0.len() > 0 {
                let i = choose|i: int| #[trigger] is_lru(v0, i) && ve == v0.remove(i);
                lemma_remove_lookup(v0, i);
            }
        }
        self.clock = self.clock.saturating_add(1);
        let entry = CachedFlowchart::new(flowchart, layout, self.clock);
        let ghost v = self.flowcharts@;
        match self.find(&key) {
            Some(i) => {
                self.flowcharts.set(i, (key, entry));
                proof {
                    lemma_key_index(v, key);
                    lemma_update_lookup(v, i as int, entry);
                    let w = self.flowcharts@;
                    assert(w =~= v.update(i as int, (key, entry)));
                    assert forall|a: int, b: int| 0 <= a < b < w.len() implies #[trigger] w[a].0 != #[trigger] w[b].0 by {
                        assert(w[a].0 == v[a].0 && w[b].0 == v[b].0);
                    }
                }
            },
            None => {
                self.flowcharts.push((key, entry));
                proof {
                    lemma_key_index(v, key);
                    lemma_push_lookup(v, key, entry);
                    let w = self.flowcharts@;
                    assert forall|a: int, b: int| 0 <= a < b < w.len() implies #[trigger] w[a].0 != #[trigger] w[b].0 by {
                        if b == v.len() {
                            assert(w[a] == v[a]);
                        } else {
                            assert(w[a] == v[a] && w[b] == v[b]);
                        }
                    }
                }
            },
        }
        proof {
            let w = self.flowcharts@;
            assert forall|a: int| 0 <= a < w.len() implies #[trigger] w[a].1.last_access <= self.clock by {
                if w[a].0 != key {
                    assert(exists|b: int| 0 <= b < v.len() && v[b] == w[a]) by {
                        if a < v.len() {
                            assert(v[a] == w[a]);
                        }
                    }
                }
            }
        }
    }

    /// Clear the entire cache, as when the theme or global settings change.
    pub fn clear(&mut self)
        requires
            old(self).wf(),
        ensures
            final(self).wf(),
            final(self).entries().len() == 0,
            final(self).capacity() == old(self).capacity(),
            final(self).spec_stats() == old(self).spec_stats(),
    {
        self.flowcharts.clear();
    }

    /// Get the number of cached entries.
    pub fn len(&self) -> (n: usize)
        ensures
            n == self.entries().len(),
    {
        self.flowcharts.len()
    }

    /// Check if the cache is empty.
    pub fn is_empty(&self) -> (b: bool)
        ensures
            b == (self.entries().len() == 0),
    {
        self.flowcharts.len() == 0
    }

    /// Get cache statistics.
    pub fn stats(&self) -> (r: &CacheStats)
        ensures
            *r == self.spec_stats(),
    {
        &self.stats
    }
}

/// The access count after one more use: one higher, unless it has reached
/// the largest count.
pub open spec fn next_clock(c: u64) -> u64 {
    if c < u64::MAX {
        (c + 1) as u64
    } else {
        u64::MAX
    }
}

/// The entry for `key` was just used: the clock advanced by one use, the
/// entry's last use is the new clock and, while the clock has not reached
/// the largest count, every other entry was used earlier, so the entry is
/// the most recently used one.
pub open spec fn marked_most_recent<L>(
    c0: MermaidCacheManager<L>,
    c1: MermaidCacheManager<L>,
    key: CacheKey,
) -> bool {
    &&& c1.clock() == next_clock(c0.clock())
    &&& lookup(c1.entries(), key) matches Some(e) && e.last_access == c1.clock()
    &&& c0.clock() < u64::MAX ==> forall|i: int|
        0 <= i < c1.entries().len() && #[trigger] c1.entries()[i].0 != key ==> c1.entries()[i].1.last_access
            < c1.clock()
}

/// What a get does: a hit (the key has an entry) returns that entry,
/// counts a hit and makes the entry the most recently used; a miss returns nothing, counts a
/// miss and changes no entry. Other keys' entries stay as they were.
pub open spec fn get_post<L>(
    c0: MermaidCacheManager<L>,
    c1: MermaidCacheManager<L>,
    key: CacheKey,
    got: Option<CachedFlowchart<L>>,
) -> bool {
    &&& c1.wf()
    &&& c1.capacity() == c0.capacity()
    &&& c1.entries().len() == c0.entries().len()
    &&& match lookup(c0.entries(), key) {
        Some(e) => {
            &&& got matches Some(x) && x.flowchart == e.flowchart && x.layout == e.layout
            &&& c1.spec_stats() == (CacheStats { hits: (c0.spec_stats().hits + 1) as u64, ..c0.spec_stats() })
            &&& lookup(c1.entries(), key) == got
            &&& marked_most_recent(c0, c1, key)
        },
        None => {
            &&& got is None
            &&& c1.spec_stats() == (CacheStats { misses: (c0.spec_stats().misses + 1) as u64, ..c0.spec_stats() })
            &&& c1.entries() == c0.entries()
            &&& c1.clock() == c0.clock()
        },
    }
    &&& forall|k: CacheKey| k != key ==> #[trigger] lookup(c1.entries(), k) == lookup(c0.entries(), k)
}

/// What an insert does: afterwards the key's entry holds the flowchart and
/// layout and is the most recently used; hits and misses are unchanged;
/// when the cache had room (or was empty), no
/// entry is evicted and the other keys' entries stay as they were; when it
/// was full, the least recently used entry is evicted and the entries of
/// the keys other than it and the inserted one stay as they were.
pub open spec fn insert_post<L>(
    c0: MermaidCacheManager<L>,
    c1: MermaidCacheManager<L>,
    key: CacheKey,
    flowchart: Flowchart,
    layout: L,
) -> bool {
    &&& c1.wf()
    &&& c1.capacity() == c0.capacity()
    &&& lookup(c1.entries(), key) matches Some(e) && e.flowchart == flowchart && e.layout == layout
    &&& c1.spec_stats().hits == c0.spec_stats().hits
    &&& c1.spec_stats().misses == c0.spec_stats().misses
    &&& marked_most_recent(c0, c1, key)
    &&& c0.entries().len() < c0.capacity() || c0.entries().len() == 0 ==> {
        &&& c1.spec_stats() == c0.spec_stats()
        &&& forall|k: CacheKey| k != key ==> #[trigger] lookup(c1.entries(), k) == lookup(c0.entries(), k)
    }
    &&& c0.entries().len() >= c0.capacity() && c0.entries().len() > 0 ==> exists|i: int|
        {
            &&& #[trigger] is_lru(c0.entries(), i)
            &&& c1.spec_stats().evictions == c0.spec_stats().evictions + 1
            &&& c0.entries()[i].0 != key ==> lookup(c1.entries(), c0.entries()[i].0) is None
            &&& forall|k: CacheKey|
                k != key && k != c0.entries()[i].0 ==> #[trigger] lookup(c1.entries(), k) == lookup(
                    c0.entries(),
                    k,
                )
        }
}

/// A read gives back what a write wrote: a get after an insert of the same
/// key hits and returns the inserted flowchart and layout.
pub proof fn law_get_after_insert<L>(
    c0: MermaidCacheManager<L>,
    c1: MermaidCacheManager<L>,
    c2: MermaidCacheManager<L>,
    key: CacheKey,
    flowchart: Flowchart,
    layout: L,
    got: Option<CachedFlowchart<L>>,
)
    requires
        insert_post(c0, c1, key, flowchart, layout),
        get_post(c1, c2, key, got),
    ensures
        got matches Some(x) && x.flowchart == flowchart && x.layout == layout,
{
}

/// Least recently used means least recently used: an entry that was just
/// inserted or hit is not the one the next insert of another key evicts,
/// as long as some other entry is cached (and the clock has not reached the
/// largest count).
pub proof fn law_recent_entry_survives_next_insert<L>(
    c0: MermaidCacheManager<L>,
    c1: MermaidCacheManager<L>,
    c2: MermaidCacheManager<L>,
    key: CacheKey,
    other: CacheKey,
    flowchart: Flowchart,
    layout: L,
)
    requires
        c1.wf(),
        marked_most_recent(c0, c1, key),
        c0.clock() < u64::MAX,
        c1.entries().len() >= 2,
        other != key,
        insert_post(c1, c2, other, flowchart, layout),
    ensures
        lookup(c2.entries(), key) == lookup(c1.entries(), key),
{
    let v = c1.entries();
    if v.len() >= c1.capacity() && v.len() > 0 {
        let i = choose|i: int|
            {
                &&& #[trigger] is_lru(v, i)
                &&& c2.spec_stats().evictions == c1.spec_stats().evictions + 1
                &&& v[i].0 != other ==> lookup(c2.entries(), v[i].0) is None
                &&& forall|k: CacheKey|
                    k != other && k != v[i].0 ==> #[trigger] lookup(c2.entries(), k) == lookup(v, k)
            };
        if v[i].0 == key {
            lemma_key_index(v, key);
            let j = key_index(v, key);
            assert(j == i) by {
                if j < i {
                    assert(v[j].0 != v[i].0);
                } else if j > i {
                    assert(v[i].0 != v[j].0);
                }
            }
            let m = if i == 0 { 1int } else { 0int };
            assert(v[m].0 != key) by {
                if m < i {
                    assert(v[m].0 != v[i].0);
                } else {
                    assert(v[i].0 != v[m].0);
                }
            }
            assert(v[m].1.last_access < c1.clock());
            assert(v[i].1.last_access <= v[m].1.last_access);
            assert(false);
        }
    }
}

/// A full cache evicts its least recently used entry: when one entry was
/// used before every other, inserting another key removes it.
pub proof fn law_insert_evicts_least_recent<L>(
    c0: MermaidCacheManager<L>,
    c1: MermaidCacheManager<L>,
    key: CacheKey,
    flowchart: Flowchart,
    layout: L,
    j: int,
)
    requires
        c0.entries().len() >= c0.capacity(),
        0 <= j < c0.entries().len(),
        c0.entries()[j].0 != key,
        forall|i: int|
            0 <= i < c0.entries().len() && i != j ==> c0.entries()[j].1.last_access < #[trigger] c0.entries()[i].1.last_access,
        insert_post(c0, c1, key, flowchart, layout),
    ensures
        lookup(c1.entries(), c0.entries()[j].0) is None,
{
    let v = c0.entries();
    let i = choose|i: int|
        {
            &&& #[trigger] is_lru(v, i)
            &&& c1.spec_stats().evictions == c0.spec_stats().evictions + 1
            &&& v[i].0 != key ==> lookup(c1.entries(), v[i].0) is None
            &&& forall|k: CacheKey|
                k != key && k != v[i].0 ==> #[trigger] lookup(c1.entries(), k) == lookup(v, k)
        };
    if i != j {
        assert(v[i].1.last_access <= v[j].1.last_access);
        assert(v[j].1.last_access < v[i].1.last_access);
    }
}

/// The cache never holds more entries than its capacity (one where the
/// capacity is zero): every operation keeps the invariant, which bounds
/// the number of entries.
pub proof fn law_capacity_bound<L>(c: MermaidCacheManager<L>)
    requires
        c.wf(),
    ensures
        c.entries().len() <= if c.capacity() == 0 { 1 } else { c.capacity() as int },
{
    c.lemma_wf_len();
}

impl<L> MermaidCacheManager<L> {
    proof fn lemma_wf_len(&self)
        requires
            self.wf(),
        ensures
            self.entries().len() <= if self.capacity() == 0 { 1 } else { self.capacity() as int },
    {
    }
}

/// Updating the entry at the index of a key keeps the other keys' entries.
proof fn lemma_update_lookup<V>(v: Seq<(CacheKey, V)>, i: int, e: V)
    requires
        0 <= i < v.len(),
        keys_unique(v),
    ensures
        forall|k: CacheKey| k != v[i].0 ==> #[trigger] lookup(v.update(i, (v[i].0, e)), k) == lookup(v, k),
        lookup(v.update(i, (v[i].0, e)), v[i].0) == Some(e),
{
    let w = v.update(i, (v[i].0, e));
    assert forall|k: CacheKey| k != v[i].0 implies #[trigger] lookup(w, k) == lookup(v, k) by {
        lemma_key_index(v, k);
        lemma_key_index(w, k);
        let a = key_index(v, k);
        let b = key_index(w, k);
        if a >= 0 {
            assert(w[a].0 == k);
        }
        if b >= 0 {
            assert(v[b].0 == w[b].0);
        }
    }
    lemma_key_index(w, v[i].0);
    let b = key_index(w, v[i].0);
    assert(w[i].0 == v[i].0);
    if b >= 0 && b != i {
        assert(w[b].0 == v[b].0);
        if b < i {
            assert(v[b].0 != v[i].0);
        } else {
            assert(v[i].0 != v[b].0);
        }
    }
}

/// Removing the entry at an index drops its key and keeps the other keys'
/// entries.
proof fn lemma_remove_lookup<V>(v: Seq<(CacheKey, V)>, i: int)
    requires
        0 <= i < v.len(),
        keys_unique(v),
    ensures
        lookup(v.remove(i), v[i].0) is None,
        forall|k: CacheKey| k != v[i].0 ==> #[trigger] lookup(v.remove(i), k) == lookup(v, k),
        keys_unique(v.remove(i)),
{
    let w = v.remove(i);
    assert forall|a: int| 0 <= a < w.len() implies #[trigger] w[a] == v[if a < i { a } else { a + 1 }] by {}
    lemma_key_index(w, v[i].0);
    let b = key_index(w, v[i].0);
    if b >= 0 {
        let b2 = if b < i { b } else { b + 1 };
        assert(w[b] == v[b2]);
        if b2 < i {
            assert(v[b2].0 != v[i].0);
        } else {
            assert(v[i].0 != v[b2].0);
        }
    }
    assert forall|k: CacheKey| k != v[i].0 implies #[trigger] lookup(w, k) == lookup(v, k) by {
        lemma_key_index(w, k);
        lemma_key_index(v, k);
        let a = key_index(v, k);
        let c = key_index(w, k);
        if a >= 0 {
            let a1 = if a < i { a } else { a - 1 };
            assert(w[a1] == v[a]);
        }
        if c >= 0 {
            let c2 = if c < i { c } else { c + 1 };
            assert(w[c] == v[c2]);
        }
    }
    assert forall|a: int, b: int| 0 <= a < b < w.len() implies #[trigger] w[a].0 != #[trigger] w[b].0 by {
        let a2 = if a < i { a } else { a + 1 };
        let b2 = if b < i { b } else { b + 1 };
        assert(w[a] == v[a2] && w[b] == v[b2]);
    }
}

/// Appending a new key keeps the other keys' entries.
proof fn lemma_push_lookup<V>(v: Seq<(CacheKey, V)>, k0: CacheKey, e: V)
    requires
        key_index(v, k0) == -1,
    ensures
        forall|k: CacheKey| k != k0 ==> #[trigger] lookup(v.push((k0, e)), k) == lookup(v, k),
        lookup(v.push((k0, e)), k0) == Some(e),
{
    let w = v.push((k0, e));
    assert(w.drop_last() =~= v);
    assert forall|k: CacheKey| k != k0 implies #[trigger] lookup(w, k) == lookup(v, k) by {
        lemma_key_index(v, k);
        let a = key_index(v, k);
        if a >= 0 {
            assert(w[a] == v[a]);
        }
    }
}

} // verus!
