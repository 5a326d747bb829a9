use vstd::prelude::*;

verus! {

/// The mathematical view of a cache key: source path characters, the crop
/// region if any, and the downsample factor's fixed-point value.
pub type KeyView = (Seq<char>, Option<(u32, u32, u32, u32)>, u32);

/// A cache key: the source image path, the requested crop region as
/// `(min_x, min_y, max_x, max_y)` (`None` stands for the whole image), and
/// the downsample factor's fixed-point value.
#[derive(Debug)]
pub struct CacheKey {
    pub image_path: String,
    pub region: Option<(u32, u32, u32, u32)>,
    pub downsample: u32,
}

impl CacheKey {
    /// The key as a mathematical value.
    pub open spec fn spec_key(&self) -> KeyView {
        (self.image_path@, self.region, self.downsample)
    }

    /// Structural key equality.
    pub fn key_eq(&self, other: &CacheKey) -> (r: bool)
        ensures
            r == (self.spec_key() == other.spec_key()),
    {
        let regions_eq = match (self.region, other.region) {
            (None, None) => true,
            (Some(a), Some(b)) => a.0 == b.0 && a.1 == b.1 && a.2 == b.2 && a.3 == b.3,
            _ => false,
        };
        regions_eq && self.downsample == other.downsample && self.image_path == other.image_path
    }
}

/// First value bound to `k`, searching from the most recent end.
pub open spec fn assoc_lookup<K, V>(entries: Seq<(K, V)>, k: K) -> Option<V>
    decreases entries.len(),
{
    if entries.len() == 0 {
        None
    } else if entries.last().0 == k {
        Some(entries.last().1)
    } else {
        assoc_lookup(entries.drop_last(), k)
    }
}

/// No two entries share a key.
pub open spec fn distinct_keys<K, V>(entries: Seq<(K, V)>) -> bool {
    forall|i: int, j: int|
        0 <= i < entries.len() && 0 <= j < entries.len() && i != j ==> (#[trigger] entries[i]).0
            != (#[trigger] entries[j]).0
}

/// Total resident bytes of a byte-valued association list.
pub open spec fn total_bytes<K>(entries: Seq<(K, Seq<u8>)>) -> int
    decreases entries.len(),
{
    if entries.len() == 0 {
        0int
    } else {
        entries[0].1.len() + total_bytes(entries.drop_first())
    }
}

proof fn lemma_lookup_none_iff<K, V>(entries: Seq<(K, V)>, k: K)
    ensures
        assoc_lookup(entries, k) is None <==> forall|i: int|
            0 <= i < entries.len() ==> (#[trigger] entries[i]).0 != k,
    decreases entries.len(),
{
    if entries.len() > 0 {
        let prev = entries.drop_last();
        lemma_lookup_none_iff(prev, k);
        assert(forall|i: int| 0 <= i < prev.len() ==> #[trigger] prev[i] == entries[i]);
        assert(entries[entries.len() - 1] == entries.last());
        if assoc_lookup(entries, k) is None {
            assert forall|i: int| 0 <= i < entries.len() implies (#[trigger] entries[i]).0
                != k by {
                if i < entries.len() - 1 {
                    assert(prev[i] == entries[i]);
                }
            }
        } else {
            if entries.last().0 == k {
                assert(entries[entries.len() - 1].0 == k);
            } else {
                let j = choose|j: int| 0 <= j < prev.len() && (#[trigger] prev[j]).0 == k;
                assert(entries[j].0 == k);
            }
        }
    }
}

proof fn lemma_lookup_found<K, V>(entries: Seq<(K, V)>, i: int)
    requires
        distinct_keys(entries),
        0 <= i < entries.len(),
    ensures
        assoc_lookup(entries, entries[i].0) == Some(entries[i].1),
    decreases entries.len(),
{
    if i < entries.len() - 1 {
        assert(entries[i].0 != entries.last().0);
        assert(distinct_keys(entries.drop_last())) by {
            assert(forall|a: int|
                0 <= a < entries.len() - 1 ==> #[trigger] entries.drop_last()[a] == entries[a]);
        }
        lemma_lookup_found(entries.drop_last(), i);
    }
}

proof fn lemma_lookup_remove<K, V>(entries: Seq<(K, V)>, i: int, k: K)
    requires
        0 <= i < entries.len(),
        entries[i].0 != k,
    ensures
        assoc_lookup(entries.remove(i), k) == assoc_lookup(entries, k),
    decreases entries.len(),
{
    if i == entries.len() - 1 {
        assert(entries.remove(i) =~= entries.drop_last());
    } else {
        assert(entries.remove(i).drop_last() =~= entries.drop_last().remove(i));
        assert(entries.remove(i).last() == entries.last());
        lemma_lookup_remove(entries.drop_last(), i, k);
    }
}

proof fn lemma_total_remove<K>(entries: Seq<(K, Seq<u8>)>, i: int)
    requires
        0 <= i < entries.len(),
    ensures
        total_bytes(entries.remove(i)) == total_bytes(entries) - entries[i].1.len(),
    decreases entries.len(),
{
    if i == 0 {
        assert(entries.remove(0) =~= entries.drop_first());
    } else {
        assert(entries.remove(i).drop_first() =~= entries.drop_first().remove(i - 1));
        assert(entries.remove(i)[0] == entries[0]);
        lemma_total_remove(entries.drop_first(), i - 1);
    }
}

proof fn lemma_total_nonneg<K>(entries: Seq<(K, Seq<u8>)>)
    ensures
        total_bytes(entries) >= 0,
    decreases entries.len(),
{
    if entries.len() > 0 {
        lemma_total_nonneg(entries.drop_first());
    }
}

proof fn lemma_total_push<K>(entries: Seq<(K, Seq<u8>)>, e: (K, Seq<u8>))
    ensures
        total_bytes(entries.push(e)) == total_bytes(entries) + e.1.len(),
    decreases entries.len(),
{
    if entries.len() == 0 {
        assert(entries.push(e)[0] == e);
        assert(entries.push(e).drop_first() =~= Seq::<(K, Seq<u8>)>::empty());
        assert(total_bytes(Seq::<(K, Seq<u8>)>::empty()) == 0);
        assert(total_bytes(entries) == 0);
        assert(total_bytes(entries.push(e)) == e.1.len() + total_bytes(
            entries.push(e).drop_first(),
        ));
    } else {
        assert(entries.push(e).drop_first() =~= entries.drop_first().push(e));
        assert(entries.push(e)[0] == entries[0]);
        lemma_total_push(entries.drop_first(), e);
    }
}

/// Drops least-recently-used entries from the front until `need` more bytes
/// fit within `budget`.
pub open spec fn evict_until_fits<K>(
    entries: Seq<(K, Seq<u8>)>,
    need: int,
    budget: int,
) -> Seq<(K, Seq<u8>)>
    decreases entries.len(),
{
    if total_bytes(entries) + need <= budget || entries.len() == 0 {
        entries
    } else {
        evict_until_fits(entries.drop_first(), need, budget)
    }
}

/// Eviction only ever drops a prefix: what remains is a suffix of the
/// original entry list.
proof fn lemma_evict_suffix<K>(entries: Seq<(K, Seq<u8>)>, need: int, budget: int)
    ensures
        ({
            let r = evict_until_fits(entries, need, budget);
            &&& r.len() <= entries.len()
            &&& forall|i: int|
                0 <= i < r.len() ==> #[trigger] r[i] == entries[entries.len() - r.len() + i]
        }),
    decreases entries.len(),
{
    if !(total_bytes(entries) + need <= budget || entries.len() == 0) {
        lemma_evict_suffix(entries.drop_first(), need, budget);
        assert(forall|i: int|
            0 <= i < entries.len() - 1 ==> #[trigger] entries.drop_first()[i] == entries[i + 1]);
    }
}

fn copy_bytes(v: &Vec<u8>) -> (r: Vec<u8>)
    ensures
        r@ == v@,
{
    let mut r: Vec<u8> = Vec::new();
    let mut i: usize = 0;
    while i < v.len()
        invariant
            0 <= i <= v@.len(),
            r@ == v@.subrange(0, i as int),
        decreases v@.len() - i,
    {
        r.push(v[i]);
        proof {
            assert(v@.subrange(0, i + 1) =~= v@.subrange(0, i as int).push(v@[i as int]));
        }
        i = i + 1;
    }
    proof {
        assert(v@.subrange(0, v@.len() as int) =~= v@);
    }
    r
}

#[derive(Debug)]
struct Entry {
    key: CacheKey,
    data: Vec<u8>,
}

/// A bounded-byte cache from `(path, region, downsample)` keys to decoded or
/// cropped pixel buffers. Entries are kept in least-recently-used order;
/// when an insert would push the total resident bytes over the budget, the
/// least recently used entries are evicted until the new entry fits, and an
/// entry larger than the whole budget is not cached at all.
#[derive(Debug)]
pub struct TextureCache {
    budget: usize,
    total: usize,
    entries: Vec<Entry>,
}

impl TextureCache {
    /// The configured byte budget.
    pub closed spec fn spec_budget(&self) -> int {
        self.budget as int
    }

    /// The resident entries, least recently used first.
    pub closed spec fn spec_entries(&self) -> Seq<(KeyView, Seq<u8>)> {
        self.entries@.map_values(|e: Entry| (e.key.spec_key(), e.data@))
    }

    /// Keys are distinct, the byte counter matches the entries, and the
    /// total never exceeds the budget.
    pub closed spec fn wf(&self) -> bool {
        &&& distinct_keys(self.spec_entries())
        &&& self.total as int == total_bytes(self.spec_entries())
        &&& total_bytes(self.spec_entries()) <= self.spec_budget()
    }

    /// The resident bytes never exceed the budget.
    pub proof fn lemma_within_budget(&self)
        requires
            self.wf(),
        ensures
            total_bytes(self.spec_entries()) <= self.spec_budget(),
    {
    }

    /// An empty cache with the given byte budget.
    pub fn new(budget: usize) -> (r: Self)
        ensures
            r.wf(),
            r.spec_budget() == budget,
            r.spec_entries() =~= Seq::<(KeyView, Seq<u8>)>::empty(),
    {
        let r = TextureCache { budget, total: 0, entries: Vec::new() };
        proof {
            assert(r.spec_entries() =~= Seq::<(KeyView, Seq<u8>)>::empty());
        }
        r
    }

    /// Looks the key up. A hit returns a copy of the cached bytes and marks
    /// the entry most recently used; what every key maps to is unchanged.
    pub fn get(&mut self, key: &CacheKey) -> (r: Option<Vec<u8>>)
        requires
            old(self).wf(),
        ensures
            final(self).wf(),
            final(self).spec_budget() == old(self).spec_budget(),
            r matches Some(d) ==> assoc_lookup(old(self).spec_entries(), key.spec_key()) == Some(
                d@,
            ),
            r is None <==> assoc_lookup(old(self).spec_entries(), key.spec_key()) is None,
            forall|k2: KeyView| #[trigger]
                assoc_lookup(final(self).spec_entries(), k2) == assoc_lookup(
                    old(self).spec_entries(),
                    k2,
                ),
            total_bytes(final(self).spec_entries()) == total_bytes(old(self).spec_entries()),
    {
        let ghost entries0 = self.spec_entries();
        let mut i: usize = 0;
        while i < self.entries.len()
            invariant
                0 <= i <= self.entries@.len(),
                *self == *old(self),
                self.wf(),
                entries0 == self.spec_entries(),
                forall|j: int| 0 <= j < i ==> (#[trigger] entries0[j]).0 != key.spec_key(),
            decreases self.entries@.len() - i,
        {
            if self.entries[i].key.key_eq(key) {
                proof {
                    lemma_lookup_found(entries0, i as int);
                    lemma_total_remove(entries0, i as int);
                }
                let e = self.entries.remove(i);
                let out = copy_bytes(&e.data);
                self.entries.push(e);
                proof {
                    assert(self.spec_entries() =~= entries0.remove(i as int).push(
                        entries0[i as int],
                    ));
                    lemma_total_push(entries0.remove(i as int), entries0[i as int]);
                    assert forall|k2: KeyView| #[trigger]
                        assoc_lookup(self.spec_entries(), k2) == assoc_lookup(
                            entries0,
                            k2,
                        ) by {
                        assert(self.spec_entries().last() == entries0[i as int]);
                        assert(self.spec_entries().drop_last() =~= entries0.remove(i as int));
                        if k2 == entries0[i as int].0 {
                            lemma_lookup_found(entries0, i as int);
                        } else {
                            lemma_lookup_remove(entries0, i as int, k2);
                        }
                    }
                    assert(distinct_keys(self.spec_entries())) by {
                        let cur = self.spec_entries();
                        let n = entries0.len();
                        assert forall|a: int, b: int|
                            0 <= a < cur.len() && 0 <= b < cur.len() && a != b implies (
                        #[trigger] cur[a]).0 != (#[trigger] cur[b]).0 by {
                            let a0: int = if a == n - 1 {
                                i as int
                            } else if a < i {
                                a
                            } else {
                                a + 1
                            };
                            let b0: int = if b == n - 1 {
                                i as int
                            } else if b < i {
                                b
                            } else {
                                b + 1
                            };
                            assert(cur[a] == entries0[a0]);
                            assert(cur[b] == entries0[b0]);
                        }
                    }
                }
                return Some(out);
            }
            i = i + 1;
        }
        proof {
            lemma_lookup_none_iff(entries0, key.spec_key());
        }
        None
    }

    /// Makes the data resident for the key unless it alone exceeds the
    /// budget. A key that is already resident keeps its first result and is
    /// simply reported as cached; otherwise least-recently-used entries are
    /// evicted until the new entry fits. Returns whether the key is resident
    /// afterwards; a `false` return leaves the cache untouched and the data
    /// is served uncached.
    pub fn insert(&mut self, key: CacheKey, data: Vec<u8>) -> (cached: bool)
        requires
            old(self).wf(),
        ensures
            final(self).wf(),
            final(self).spec_budget() == old(self).spec_budget(),
            total_bytes(final(self).spec_entries()) <= final(self).spec_budget(),
            assoc_lookup(old(self).spec_entries(), key.spec_key()) is Some ==> cached && *final(self) == *old(self),
            assoc_lookup(old(self).spec_entries(), key.spec_key()) is None ==> {
                &&& cached <==> data@.len() <= old(self).spec_budget()
                &&& !cached ==> *final(self) == *old(self)
                &&& cached ==> final(self).spec_entries() == evict_until_fits(
                    old(self).spec_entries(),
                    data@.len() as int,
                    old(self).spec_budget(),
                ).push((key.spec_key(), data@))
            },
            cached ==> assoc_lookup(final(self).spec_entries(), key.spec_key()) is Some,
            (assoc_lookup(old(self).spec_entries(), key.spec_key()) is None && cached)
                ==> assoc_lookup(final(self).spec_entries(), key.spec_key()) == Some(data@),
    {
        let ghost entries0 = self.spec_entries();
        let mut i: usize = 0;
        while i < self.entries.len()
            invariant
                0 <= i <= self.entries@.len(),
                *self == *old(self),
                self.wf(),
                entries0 == self.spec_entries(),
                forall|j: int| 0 <= j < i ==> (#[trigger] entries0[j]).0 != key.spec_key(),
            decreases self.entries@.len() - i,
        {
            if self.entries[i].key.key_eq(&key) {
                proof {
                    lemma_lookup_found(entries0, i as int);
                }
                return true;
            }
            i = i + 1;
        }
        proof {
            lemma_lookup_none_iff(entries0, key.spec_key());
        }
        if data.len() > self.budget {
            return false;
        }
        let need = data.len();
        while self.entries.len() > 0 && need > self.budget - self.total
            invariant
                self.budget == old(self).budget,
                self.total as int == total_bytes(self.spec_entries()),
                self.total <= self.budget,
                need == data@.len(),
                distinct_keys(self.spec_entries()),
                forall|j: int|
                    0 <= j < self.spec_entries().len() ==> (#[trigger] self.spec_entries()[j]).0
                        != key.spec_key(),
                evict_until_fits(self.spec_entries(), need as int, self.budget as int)
                    == evict_until_fits(entries0, need as int, old(self).spec_budget()),
            decreases self.entries@.len(),
        {
            let ghost cur = self.spec_entries();
            proof {
                lemma_total_nonneg(cur.drop_first());
            }
            let first_len = self.entries[0].data.len();
            self.entries.remove(0);
            self.total = self.total - first_len;
            proof {
                assert(self.spec_entries() =~= cur.drop_first());
                lemma_total_remove(cur, 0);
                assert(cur.remove(0) =~= cur.drop_first());
                assert(distinct_keys(cur.drop_first())) by {
                    assert(forall|a: int|
                        0 <= a < cur.len() - 1 ==> #[trigger] cur.drop_first()[a] == cur[a + 1]);
                }
            }
        }
        let ghost evicted = self.spec_entries();
        proof {
            assert(evict_until_fits(evicted, need as int, self.budget as int) == evicted);
        }
        self.total = self.total + need;
        self.entries.push(Entry { key, data });
        proof {
            assert(self.spec_entries() =~= evicted.push(
                (self.entries@.last().key.spec_key(), self.entries@.last().data@),
            ));
            lemma_total_push(evicted, self.spec_entries().last());
            lemma_evict_suffix(entries0, need as int, old(self).spec_budget());
            assert(distinct_keys(self.spec_entries())) by {
                let cur = self.spec_entries();
                let n = cur.len();
                assert forall|a: int, b: int|
                    0 <= a < n && 0 <= b < n && a != b implies (#[trigger] cur[a]).0 != (
                #[trigger] cur[b]).0 by {
                    if a < n - 1 && b < n - 1 {
                        assert(cur[a] == evicted[a] && cur[b] == evicted[b]);
                    } else if a == n - 1 {
                        assert(cur[b] == evicted[b]);
                    } else {
                        assert(cur[a] == evicted[a]);
                    }
                }
            }
        }
        true
    }
}

/// A memo of source-image pixel dimensions keyed by path, so that dimension
/// queries do not re-open the file for every conversion.
#[derive(Debug)]
pub struct TextureSizeCache {
    entries: Vec<(String, (u32, u32))>,
}

impl TextureSizeCache {
    /// The recorded `(path, dimensions)` pairs.
    pub closed spec fn spec_entries(&self) -> Seq<(Seq<char>, (u32, u32))> {
        self.entries@.map_values(|e: (String, (u32, u32))| (e.0@, e.1))
    }

    /// Paths are distinct.
    pub closed spec fn wf(&self) -> bool {
        distinct_keys(self.spec_entries())
    }

    /// An empty memo.
    pub fn new() -> (r: Self)
        ensures
            r.wf(),
            r.spec_entries() =~= Seq::<(Seq<char>, (u32, u32))>::empty(),
    {
        let r = TextureSizeCache { entries: Vec::new() };
        proof {
            assert(r.spec_entries() =~= Seq::<(Seq<char>, (u32, u32))>::empty());
        }
        r
    }

    /// The dimensions recorded for the path, if any.
    pub fn get(&self, path: &String) -> (r: Option<(u32, u32)>)
        requires
            self.wf(),
        ensures
            r == assoc_lookup(self.spec_entries(), path@),
    {
        let ghost entries0 = self.spec_entries();
        let mut i: usize = 0;
        while i < self.entries.len()
            invariant
                0 <= i <= self.entries@.len(),
                entries0 == self.spec_entries(),
                self.wf(),
                forall|j: int| 0 <= j < i ==> (#[trigger] entries0[j]).0 != path@,
            decreases self.entries@.len() - i,
        {
            if self.entries[i].0 == *path {
                proof {
                    lemma_lookup_found(entries0, i as int);
                }
                return Some(self.entries[i].1);
            }
            i = i + 1;
        }
        proof {
            lemma_lookup_none_iff(entries0, path@);
        }
        None
    }

    /// Records dimensions for a path; a path already recorded keeps its
    /// first dimensions.
    pub fn insert(&mut self, path: &String, size: (u32, u32))
        requires
            old(self).wf(),
        ensures
            final(self).wf(),
            assoc_lookup(final(self).spec_entries(), path@) is Some,
            assoc_lookup(old(self).spec_entries(), path@) is Some ==> *final(self) == *old(self),
            assoc_lookup(old(self).spec_entries(), path@) is None ==> final(self).spec_entries()
                == old(self).spec_entries().push((path@, size)),
            forall|k2: Seq<char>|
                k2 != path@ ==> #[trigger] assoc_lookup(final(self).spec_entries(), k2)
                    == assoc_lookup(old(self).spec_entries(), k2),
    {
        let ghost entries0 = self.spec_entries();
        match self.get(path) {
            Some(_) => {
            },
            None => {
                proof {
                    lemma_lookup_none_iff(entries0, path@);
                }
                self.entries.push((path.clone(), size));
                proof {
                    assert(self.spec_entries() =~= entries0.push((path@, size)));
                    assert(distinct_keys(self.spec_entries())) by {
                        let cur = self.spec_entries();
                        let n = cur.len();
                        assert forall|a: int, b: int|
                            0 <= a < n && 0 <= b < n && a != b implies (#[trigger] cur[a]).0 != (
                        #[trigger] cur[b]).0 by {
                            if a < n - 1 && b < n - 1 {
                                assert(cur[a] == entries0[a] && cur[b] == entries0[b]);
                            } else if a == n - 1 {
                                assert(cur[b] == entries0[b]);
                            } else {
                                assert(cur[a] == entries0[a]);
                            }
                        }
                    }
                    assert forall|k2: Seq<char>| k2 != path@ implies #[trigger] assoc_lookup(
                        self.spec_entries(),
                        k2,
                    ) == assoc_lookup(entries0, k2) by {
                        assert(self.spec_entries().drop_last() =~= entries0);
                    }
                }
            },
        }
    }
}

} // verus!
