use vstd::prelude::*;

verus! {

use vstd::string::StrSliceExecFns;
use bloom::ASMS;

/// Probabilistic membership over event identifiers: no false
/// negatives, and a positive answer stays positive.
#[verifier::external_body]
pub struct BloomFilter {
    filter: bloom::BloomFilter,
}

/// The identifiers inserted into the filter so far.
pub uninterp spec fn bloom_inserted(b: BloomFilter) -> Set<Seq<u8>>;

/// Whether the filter answers "maybe present" for a key.
pub uninterp spec fn bloom_positive(b: BloomFilter, key: Seq<u8>) -> bool;

impl BloomFilter {
    /// Relies on bloom::BloomFilter::with_size: a fresh filter has all
    /// bits clear, so every probe answers no.
    #[verifier::external_body]
    pub fn with_size(num_bits: usize, num_hashes: u32) -> (r: BloomFilter)
        requires
            num_bits >= 1,
            num_hashes >= 1,
        ensures
            bloom_inserted(r) == Set::<Seq<u8>>::empty(),
            forall|k: Seq<u8>| !bloom_positive(r, k),
    {
        BloomFilter { filter: bloom::BloomFilter::with_size(num_bits, num_hashes) }
    }

    /// Sized for the given expected population at a false-positive
    /// rate of at most one percent: ten bits per item with seven
    /// hashes stays under it.
    pub fn with_capacity(capacity: usize) -> (r: BloomFilter)
        ensures
            bloom_inserted(r) == Set::<Seq<u8>>::empty(),
            forall|k: Seq<u8>| !bloom_positive(r, k),
    {
        let wide: u128 = (capacity as u128) * 959 / 100 + 1;
        let bits: usize = if wide > (usize::MAX as u128) {
            usize::MAX
        } else {
            wide as usize
        };
        BloomFilter::with_size(bits, 7)
    }

    /// The default population: ten million identifiers.
    pub fn new() -> (r: BloomFilter)
        ensures
            bloom_inserted(r) == Set::<Seq<u8>>::empty(),
            forall|k: Seq<u8>| !bloom_positive(r, k),
    {
        BloomFilter::with_capacity(10000000)
    }

    /// Relies on bloom::BloomFilter::contains: an inserted key always
    /// answers yes; the answer is a function of the filter's state.
    #[verifier::external_body]
    pub fn contains(&self, key: &[u8]) -> (r: bool)
        ensures
            r == bloom_positive(*self, key@),
            bloom_inserted(*self).contains(key@) ==> r,
    {
        self.filter.contains(&key)
    }

    /// Relies on bloom::BloomFilter::insert: it only sets bits, so
    /// earlier positives stay positive and the key itself turns
    /// positive.
    #[verifier::external_body]
    pub fn insert(&mut self, key: &[u8])
        ensures
            bloom_inserted(*final(self)) == bloom_inserted(*old(self)).insert(key@),
            bloom_positive(*final(self), key@),
            forall|k: Seq<u8>|
                bloom_positive(*old(self), k) ==> bloom_positive(*final(self), k),
    {
        self.filter.insert(&key);
    }

    /// Relies on bloom::BloomFilter::clear: all bits drop, so every
    /// probe answers no again.
    #[verifier::external_body]
    pub fn clear(&mut self)
        ensures
            bloom_inserted(*final(self)) == Set::<Seq<u8>>::empty(),
            forall|k: Seq<u8>| !bloom_positive(*final(self), k),
    {
        self.filter.clear();
    }
}

/// Bounded exact membership over recent identifiers with
/// least-recently-used eviction.
#[verifier::external_body]
pub struct MemoryCache {
    cache: lru::LruCache<String, ()>,
}

/// The cached identifiers, most recently used first.
pub uninterp spec fn lru_order(c: MemoryCache) -> Seq<Seq<char>>;

/// The bound the cache was created with.
pub uninterp spec fn lru_cap(c: MemoryCache) -> nat;

/// Keep every identifier other than `k`.
pub open spec fn lru_keep(k: Seq<char>) -> spec_fn(Seq<char>) -> bool {
    |x: Seq<char>| x != k
}

/// What a put leaves behind: the key moves to the front, and if a new
/// key pushed the cache over its bound the least recent entry leaves.
pub open spec fn lru_put_spec(order: Seq<Seq<char>>, k: Seq<char>, cap: nat) -> Seq<Seq<char>> {
    let pruned = seq![k] + order.filter(lru_keep(k));
    if pruned.len() <= cap {
        pruned
    } else {
        pruned.take(cap as int)
    }
}

pub proof fn lemma_lru_put_front(order: Seq<Seq<char>>, k: Seq<char>, cap: nat)
    requires
        cap >= 1,
    ensures
        lru_put_spec(order, k, cap).contains(k),
{
    let pruned = seq![k] + order.filter(lru_keep(k));
    assert(pruned[0] == k);
    let res = lru_put_spec(order, k, cap);
    assert(res[0] == k);
    assert(res.len() >= 1);
}

pub proof fn lemma_lru_put_subset(order: Seq<Seq<char>>, k: Seq<char>, cap: nat, x: Seq<char>)
    requires
        lru_put_spec(order, k, cap).contains(x),
    ensures
        x == k || order.contains(x),
{
    let pruned = seq![k] + order.filter(lru_keep(k));
    let res = lru_put_spec(order, k, cap);
    let i = choose|i: int| 0 <= i < res.len() && res[i] == x;
    assert(res[i] == pruned[i]);
    if i == 0 {
        assert(x == k);
    } else {
        let fl = order.filter(lru_keep(k));
        assert(pruned[i] == fl[i - 1]);
        assert(fl.contains(fl[i - 1]));
        order.lemma_filter_contains_rev(lru_keep(k), fl[i - 1]);
    }
}

impl MemoryCache {
    /// Relies on lru::LruCache::new: an empty cache bounded by the
    /// given size.
    #[verifier::external_body]
    fn with_nonzero_capacity(size: usize) -> (r: MemoryCache)
        requires
            size >= 1,
        ensures
            lru_order(r) == Seq::<Seq<char>>::empty(),
            lru_cap(r) == size as nat,
    {
        let capacity = std::num::NonZeroUsize::new(size).unwrap();
        MemoryCache { cache: lru::LruCache::new(capacity) }
    }

    /// An empty cache bounded by the given size, raised to one when
    /// zero is asked for.
    pub fn with_capacity(size: usize) -> (r: MemoryCache)
        ensures
            lru_order(r) == Seq::<Seq<char>>::empty(),
            lru_cap(r) == if size == 0 {
                1nat
            } else {
                size as nat
            },
    {
        if size == 0 {
            MemoryCache::with_nonzero_capacity(1)
        } else {
            MemoryCache::with_nonzero_capacity(size)
        }
    }

    /// The default bound: one hundred thousand identifiers.
    pub fn new() -> (r: MemoryCache)
        ensures
            lru_order(r) == Seq::<Seq<char>>::empty(),
            lru_cap(r) == 100000,
    {
        MemoryCache::with_capacity(100000)
    }

    /// Relies on lru::LruCache::contains, which does not touch
    /// recency.
    #[verifier::external_body]
    pub fn contains(&self, event_id: &str) -> (r: bool)
        ensures
            r == lru_order(*self).contains(event_id@),
    {
        self.cache.contains(event_id)
    }

    /// Relies on lru::LruCache::put: promotes a present key, else
    /// inserts in front and drops the least recent entry when full.
    #[verifier::external_body]
    pub fn put(&mut self, event_id: String)
        ensures
            lru_order(*final(self)) == lru_put_spec(
                lru_order(*old(self)),
                event_id@,
                lru_cap(*old(self)),
            ),
            lru_cap(*final(self)) == lru_cap(*old(self)),
    {
        self.cache.put(event_id, ());
    }

    /// Relies on lru::LruCache::len.
    #[verifier::external_body]
    pub fn len(&self) -> (r: usize)
        ensures
            r == lru_order(*self).len(),
    {
        self.cache.len()
    }
}

/// The concurrent set underneath the hot layer.
#[verifier::external_body]
pub struct DashSetHandle {
    set: dashmap::DashSet<String>,
}

/// The identifiers the set holds.
pub uninterp spec fn dash_view(s: DashSetHandle) -> Set<Seq<char>>;

impl DashSetHandle {
    /// Relies on dashmap::DashSet::with_capacity: starts empty.
    #[verifier::external_body]
    pub fn with_capacity(n: usize) -> (r: DashSetHandle)
        ensures
            dash_view(r) == Set::<Seq<char>>::empty(),
    {
        DashSetHandle { set: dashmap::DashSet::with_capacity(n) }
    }

    /// Relies on dashmap::DashSet::contains.
    #[verifier::external_body]
    pub fn contains(&self, id: &str) -> (r: bool)
        ensures
            r == dash_view(*self).contains(id@),
    {
        self.set.contains(id)
    }

    /// Relies on dashmap::DashSet::insert.
    #[verifier::external_body]
    pub fn insert(&mut self, id: String)
        ensures
            dash_view(*final(self)) == dash_view(*old(self)).insert(id@),
    {
        self.set.insert(id);
    }

    /// Relies on dashmap::DashSet::remove.
    #[verifier::external_body]
    pub fn remove(&mut self, id: &str)
        ensures
            dash_view(*final(self)) == dash_view(*old(self)).remove(id@),
    {
        self.set.remove(id);
    }

    /// Relies on dashmap::DashSet::len.
    #[verifier::external_body]
    pub fn len(&self) -> (r: usize)
        ensures
            dash_view(*self).finite() ==> r == dash_view(*self).len(),
    {
        self.set.len()
    }

    /// Relies on dashmap::DashSet::iter: walks current members, each
    /// at most once, in no promised order; `take` keeps at most `n`.
    #[verifier::external_body]
    pub fn some_keys(&self, n: usize) -> (r: Vec<String>)
        ensures
            forall|i: int| 0 <= i < r@.len() ==> dash_view(*self).contains((#[trigger] r@[i])@),
            forall|i: int, j: int| 0 <= i < j < r@.len() ==> r@[i]@ != r@[j]@,
            dash_view(*self).finite() ==> r@.len() == if n as nat <= dash_view(*self).len() {
                n as nat
            } else {
                dash_view(*self).len()
            },
    {
        self.set.iter().take(n).map(|x| x.clone()).collect()
    }
}

/// Unordered set of very recent identifiers, soft-capped: when the cap
/// is reached, an arbitrary half of the members is dropped in bulk.
pub struct HotSet {
    inner: DashSetHandle,
    capacity: usize,
}

impl View for HotSet {
    type V = Set<Seq<char>>;

    closed spec fn view(&self) -> Set<Seq<char>> {
        dash_view(self.inner)
    }
}

impl HotSet {
    pub closed spec fn cap(self) -> nat {
        self.capacity as nat
    }

    pub closed spec fn wf(self) -> bool {
        dash_view(self.inner).finite() && self.capacity >= 2
    }

    pub fn with_capacity(n: usize) -> (r: HotSet)
        requires
            n >= 2,
        ensures
            r.wf(),
            r@ == Set::<Seq<char>>::empty(),
            r.cap() == n,
    {
        HotSet { inner: DashSetHandle::with_capacity(n), capacity: n }
    }

    pub fn contains(&self, id: &str) -> (r: bool)
        ensures
            r == self@.contains(id@),
    {
        self.inner.contains(id)
    }

    pub fn len(&self) -> (r: usize)
        requires
            self.wf(),
        ensures
            r == self@.len(),
    {
        self.inner.len()
    }

    pub fn capacity(&self) -> (r: usize)
        ensures
            r == self.cap(),
    {
        self.capacity
    }

    pub fn insert(&mut self, id: String)
        requires
            old(self).wf(),
        ensures
            final(self).wf(),
            final(self).cap() == old(self).cap(),
            final(self)@ == old(self)@.insert(id@),
    {
        self.inner.insert(id);
    }

    pub fn remove(&mut self, id: &str)
        requires
            old(self).wf(),
        ensures
            final(self).wf(),
            final(self).cap() == old(self).cap(),
            final(self)@ == old(self)@.remove(id@),
    {
        self.inner.remove(id);
    }

    /// Bulk eviction: if the member count has reached the cap, remove
    /// half the cap's worth of arbitrary members; below the cap
    /// nothing changes.
    pub fn evict_if_full(&mut self)
        requires
            old(self).wf(),
        ensures
            final(self).wf(),
            final(self).cap() == old(self).cap(),
            final(self)@.subset_of(old(self)@),
            old(self)@.len() < old(self).cap() ==> final(self)@ == old(self)@,
            old(self)@.len() >= old(self).cap() ==> final(self)@.len() + old(self).cap() / 2
                == old(self)@.len(),
    {
        let n = self.inner.len();
        if n >= self.capacity {
            let victims = self.inner.some_keys(self.capacity / 2);
            let ghost v0 = self@;
            let mut i: usize = 0;
            while i < victims.len()
                invariant
                    i <= victims@.len(),
                    victims@.len() <= v0.len(),
                    self.capacity == old(self).capacity,
                    dash_view(self.inner).finite(),
                    self.capacity >= 2,
                    forall|a: int, b: int| 0 <= a < b < victims@.len() ==> victims@[a]@ != victims@[b]@,
                    self@.subset_of(v0),
                    self@.len() + i == v0.len(),
                    forall|j: int|
                        i <= j < victims@.len() ==> self@.contains((#[trigger] victims@[j])@),
                decreases victims@.len() - i,
            {
                let ghost before = self@;
                self.inner.remove(victims[i].as_str());
                proof {
                    assert(before.contains(victims@[i as int]@));
                    assert(self@ =~= before.remove(victims@[i as int]@));
                    assert(self@.len() == before.len() - 1);
                    assert forall|j: int| i + 1 <= j < victims@.len() implies self@.contains(
                        (#[trigger] victims@[j])@,
                    ) by {
                        assert(victims@[j]@ != victims@[i as int]@);
                    }
                }
                i = i + 1;
            }
        }
    }
}

} // verus!
