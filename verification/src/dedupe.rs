use vstd::prelude::*;

verus! {

use vstd::string::StrSliceExecFns;
use vstd::string::StringSliceAdditionalSpecFns;
use vstd::utf8::decode_utf8;
use vstd::utf8::encode_utf8;
use vstd::utf8::valid_utf8;
use crate::caches::BloomFilter;
use crate::caches::HotSet;
use crate::caches::MemoryCache;
use crate::caches::bloom_inserted;
use crate::caches::bloom_positive;
use crate::caches::lru_cap;
use crate::caches::lru_order;
use crate::caches::lru_put_spec;
use crate::caches::lemma_lru_put_front;
use crate::caches::lemma_lru_put_subset;
use crate::event::Event;
use crate::event::clone_string;
use crate::hexutil::hex_of;
use crate::hexutil::hex_decode;
use crate::hexutil::lemma_hex_of_injective;
use crate::hexutil::lemma_hex_of_is_lower;
use crate::store::EventStore;
use crate::store::collect_succ_ids;
use crate::store::evt_key;
use crate::store::is_desc_key_enum;
use crate::codec::spec_render;

/// Statistics about the deduplication engine.
pub struct DedupeStats {
    pub bloom_filter_size: usize,
    pub lru_cache_size: usize,
    pub hot_set_size: usize,
    pub rocksdb_approximate_count: u64,
}

/// Multi-layer deduplication: a bloom filter for cheap negatives, a
/// bounded cache of recent identifiers, the durable archive, and a hot
/// set for the very latest ones.
pub struct DeduplicationEngine {
    bloom: BloomFilter,
    lru_cache: MemoryCache,
    store: EventStore,
    hot_set: HotSet,
}

impl DeduplicationEngine {
    /// A hex fingerprint sits in the hot layer.
    pub closed spec fn in_hot(self, id: Seq<char>) -> bool {
        self.hot_set@.contains(id)
    }

    /// A hex fingerprint sits in the recent-identifier cache.
    pub closed spec fn in_lru(self, id: Seq<char>) -> bool {
        lru_order(self.lru_cache).contains(id)
    }

    /// The durable archive holds a payload for this hex fingerprint.
    pub closed spec fn in_archive(self, id: Seq<char>) -> bool {
        self.store@.dom().contains(evt_key(encode_utf8(id)))
    }

    /// The engine has this fingerprint in some exact layer.
    pub open spec fn observed(self, id: Seq<char>) -> bool {
        self.in_hot(id) || self.in_lru(id) || self.in_archive(id)
    }

    pub closed spec fn store_map(self) -> Map<Seq<u8>, Seq<u8>> {
        self.store@
    }

    pub closed spec fn hot_view(self) -> Set<Seq<char>> {
        self.hot_set@
    }

    pub closed spec fn lru_view(self) -> Seq<Seq<char>> {
        lru_order(self.lru_cache)
    }

    /// The bloom layer itself, so its probe answers and inserted keys
    /// can be spoken of in contracts.
    pub closed spec fn bloom_state(self) -> BloomFilter {
        self.bloom
    }

    /// Whether the bloom layer answers "maybe present" for a raw id.
    pub open spec fn bloom_pos(self, raw: Seq<u8>) -> bool {
        bloom_positive(self.bloom_state(), raw)
    }

    /// The hot set's configured soft cap.
    pub closed spec fn hot_capacity(self) -> nat {
        self.hot_set.cap()
    }

    /// The recent-identifier cache's bound.
    pub closed spec fn lru_capacity(self) -> nat {
        lru_cap(self.lru_cache)
    }

    /// Every 32-byte identifier whose hex form the cache remembers
    /// answers positive in the bloom filter, so a cached duplicate is
    /// never mistaken for new; the in-memory layers are exact and the
    /// archive well-formed.
    pub closed spec fn wf(self) -> bool {
        &&& self.store.wf()
        &&& self.hot_set.wf()
        &&& lru_cap(self.lru_cache) >= 1
        &&& forall|raw: Seq<u8>|
            raw.len() == 32 && lru_order(self.lru_cache).contains(#[trigger] hex_of(raw))
                ==> bloom_positive(self.bloom, raw)
    }

    /// An engine over the given archive with default layer sizes.
    pub fn new(store: EventStore) -> (r: DeduplicationEngine)
        requires
            store.wf(),
        ensures
            r.wf(),
            r.store_map() == store@,
            forall|id: Seq<char>| !r.in_hot(id) && !r.in_lru(id),
            r.hot_capacity() == 10000,
            r.lru_capacity() == 100000,
    {
        DeduplicationEngine {
            bloom: BloomFilter::new(),
            lru_cache: MemoryCache::new(),
            store,
            hot_set: HotSet::with_capacity(10000),
        }
    }

    /// An engine with chosen capacities for each in-memory layer.
    pub fn new_with_params(
        store: EventStore,
        hot_set_size: usize,
        bloom_capacity: usize,
        lru_size: usize,
    ) -> (r: DeduplicationEngine)
        requires
            store.wf(),
            hot_set_size >= 2,
        ensures
            r.wf(),
            r.store_map() == store@,
            forall|id: Seq<char>| !r.in_hot(id) && !r.in_lru(id),
            r.hot_capacity() == hot_set_size,
            r.lru_capacity() == (if lru_size == 0 {
                1nat
            } else {
                lru_size as nat
            }),
    {
        DeduplicationEngine {
            bloom: BloomFilter::with_capacity(bloom_capacity),
            lru_cache: MemoryCache::with_capacity(lru_size),
            store,
            hot_set: HotSet::with_capacity(hot_set_size),
        }
    }

    /// Has this event been observed before? `false` admits the event
    /// and records it; `true` stands only on an exact hit in the hot
    /// set, the cache, or the archive — a bloom false positive alone
    /// never rejects an event. No layer gains any identifier but this
    /// event's, and each of the three decision paths leaves exactly
    /// the effects the layering prescribes.
    pub fn is_duplicate(&mut self, event: &Event) -> (r: bool)
        requires
            old(self).wf(),
            event.wf(),
        ensures
            final(self).wf(),
            final(self).hot_capacity() == old(self).hot_capacity(),
            final(self).lru_capacity() == old(self).lru_capacity(),
            r ==> old(self).observed(event.spec_id_hex()),
            old(self).in_hot(event.spec_id_hex()) ==> r,
            old(self).in_lru(event.spec_id_hex()) ==> r,
            !old(self).observed(event.spec_id_hex()) ==> !r,
            !r ==> !old(self).in_hot(event.spec_id_hex()) && (final(self).in_hot(
                event.spec_id_hex(),
            ) || final(self).in_lru(event.spec_id_hex())),
            // No layer gains any identifier but this event's.
            forall|id2: Seq<char>|
                #[trigger] final(self).in_hot(id2) ==> old(self).in_hot(id2) || id2
                    == event.spec_id_hex(),
            forall|id2: Seq<char>|
                #[trigger] final(self).in_lru(id2) ==> old(self).in_lru(id2) || id2
                    == event.spec_id_hex(),
            forall|id2: Seq<char>|
                #[trigger] final(self).in_archive(id2) ==> old(self).in_archive(id2) || id2
                    == event.spec_id_hex(),
            // A duplicate only refreshes the fast layers.
            r ==> final(self).store_map() == old(self).store_map() && final(self).hot_view()
                == old(self).hot_view().insert(event.spec_id_hex()) && final(self).bloom_state()
                == old(self).bloom_state() && (final(self).lru_view() == old(self).lru_view()
                || final(self).lru_view() == lru_put_spec(
                old(self).lru_view(),
                event.spec_id_hex(),
                old(self).lru_capacity(),
            )),
            // Bloom-negative fast path: the bloom learns the raw id and
            // the hot set its hex form; cache and archive untouched.
            !r && !old(self).bloom_pos(event.id@) ==> final(self).store_map() == old(self).store_map() && final(self).lru_view() == old(self).lru_view() && final(self).hot_view() == old(self).hot_view().insert(event.spec_id_hex()) && bloom_inserted(
                final(self).bloom_state(),
            ) == bloom_inserted(old(self).bloom_state()).insert(event.id@) && final(self).bloom_pos(event.id@),
            // Bloom-positive novel path: write-through to the archive,
            // the cache learns the id, and the hot set is soft-capped.
            !r && old(self).bloom_pos(event.id@) ==> final(self).store_map() == old(self).store_map().insert(
                evt_key(encode_utf8(event.spec_id_hex())),
                encode_utf8(spec_render(*event)),
            ) && final(self).lru_view() == lru_put_spec(
                old(self).lru_view(),
                event.spec_id_hex(),
                old(self).lru_capacity(),
            ) && final(self).in_lru(event.spec_id_hex()) && final(self).bloom_state() == old(self).bloom_state() && final(self).hot_view().subset_of(
                old(self).hot_view().insert(event.spec_id_hex()),
            ) && (old(self).hot_view().insert(event.spec_id_hex()).len() < old(self).hot_capacity() ==> final(self).hot_view() == old(self).hot_view().insert(
                event.spec_id_hex(),
            )) && (old(self).hot_view().insert(event.spec_id_hex()).len() >= old(self).hot_capacity() ==> final(self).hot_view().len() + old(self).hot_capacity() / 2 == old(self).hot_view().insert(event.spec_id_hex()).len()),
    {
        let idh = event.id_hex();
        let ghost id_chars = event.spec_id_hex();

        // Hot set: exact membership for the most recent identifiers.
        if self.hot_set.contains(idh.as_str()) {
            proof {
                assert(self.hot_view() =~= old(self).hot_view().insert(id_chars));
            }
            return true;
        }
        // Bloom: absence here is a true negative, so the event is new.
        if !self.bloom.contains(event.id.as_slice()) {
            proof {
                if old(self).in_lru(id_chars) {
                    assert(bloom_positive(old(self).bloom, event.id@));
                }
            }
            self.bloom.insert(event.id.as_slice());
            self.hot_set.insert(idh);
            proof {
                assert forall|raw: Seq<u8>|
                    raw.len() == 32 && lru_order(self.lru_cache).contains(
                        #[trigger] hex_of(raw),
                    ) implies bloom_positive(self.bloom, raw) by {
                    assert(bloom_positive(old(self).bloom, raw));
                }
            }
            return false;
        }
        // Cache of recent identifiers: an exact hit is a duplicate.
        if self.lru_cache.contains(idh.as_str()) {
            self.hot_set.insert(idh);
            return true;
        }
        // The durable archive decides; on a hit the fast layers learn.
        if self.store.contains_event(idh.as_str()) {
            self.lru_cache.put(clone_string(&idh));
            proof {
                self.lemma_wf_after_put(*old(self), id_chars, *event);
                assert forall|id2: Seq<char>| #[trigger] lru_order(self.lru_cache).contains(
                    id2,
                ) implies lru_order(old(self).lru_cache).contains(id2) || id2 == id_chars by {
                    lemma_lru_put_subset(
                        lru_order(old(self).lru_cache),
                        id_chars,
                        lru_cap(old(self).lru_cache),
                        id2,
                    );
                }
            }
            self.hot_set.insert(idh);
            return true;
        }
        // Novel event: archive it and seed the fast layers.
        self.store.store_event(event);
        self.lru_cache.put(clone_string(&idh));
        proof {
            self.lemma_wf_after_put(*old(self), id_chars, *event);
            lemma_lru_put_front(lru_order(old(self).lru_cache), id_chars, lru_cap(old(self).lru_cache));
        }
        self.hot_set.insert(idh);
        self.hot_set.evict_if_full();
        proof {
            assert forall|id2: Seq<char>| #[trigger] lru_order(self.lru_cache).contains(
                id2,
            ) implies lru_order(old(self).lru_cache).contains(id2) || id2 == id_chars by {
                lemma_lru_put_subset(
                    lru_order(old(self).lru_cache),
                    id_chars,
                    lru_cap(old(self).lru_cache),
                    id2,
                );
            }
            broadcast use vstd::utf8::encode_utf8_decode_utf8;

            assert forall|id2: Seq<char>| #[trigger] self.in_archive(id2) implies old(self).in_archive(id2) || id2 == id_chars by {
                if !old(self).in_archive(id2) {
                    assert(evt_key(encode_utf8(id2)) == evt_key(encode_utf8(id_chars)));
                    crate::store::lemma_evt_key_injective(
                        encode_utf8(id2),
                        encode_utf8(id_chars),
                    );
                    assert(decode_utf8(encode_utf8(id2)) == decode_utf8(encode_utf8(id_chars)));
                }
            }
        }
        false
    }

    /// The cache invariant survives a put of this event's fingerprint:
    /// the fingerprint itself is bloom-positive, everything else was
    /// already cached.
    proof fn lemma_wf_after_put(self, prev: DeduplicationEngine, id_chars: Seq<char>, event: Event)
        requires
            prev.wf(),
            event.wf(),
            id_chars == hex_of(event.id@),
            bloom_positive(prev.bloom, event.id@),
            self.bloom == prev.bloom,
            lru_order(self.lru_cache) == lru_put_spec(
                lru_order(prev.lru_cache),
                id_chars,
                lru_cap(prev.lru_cache),
            ),
        ensures
            forall|raw: Seq<u8>|
                raw.len() == 32 && lru_order(self.lru_cache).contains(#[trigger] hex_of(raw))
                    ==> bloom_positive(self.bloom, raw),
    {
        assert forall|raw: Seq<u8>|
            raw.len() == 32 && lru_order(self.lru_cache).contains(
                #[trigger] hex_of(raw),
            ) implies bloom_positive(self.bloom, raw) by {
            lemma_lru_put_subset(
                lru_order(prev.lru_cache),
                id_chars,
                lru_cap(prev.lru_cache),
                hex_of(raw),
            );
            if hex_of(raw) == id_chars {
                lemma_hex_of_injective(raw, event.id@);
            }
        }
    }

    /// Seed the fast layers from the persistent success index so
    /// events delivered in an earlier run are not re-admitted.
    pub fn warm_from_db(&mut self, limit: usize)
        requires
            old(self).wf(),
        ensures
            final(self).wf(),
            final(self).store_map() == old(self).store_map(),
            limit == 0 ==> *final(self) == *old(self),
            limit > 0 ==> exists|ks: Seq<Seq<u8>>|
                #[trigger] is_desc_key_enum(old(self).store_map().dom(), ks) && ({
                    let ids = collect_succ_ids(ks, limit as nat);
                    forall|t: int|
                        0 <= t < ids.len() ==> final(self).in_hot(decode_utf8(#[trigger] ids[t]))
                }),
    {
        if limit == 0 {
            return;
        }
        let ids = self.store.load_recent_success_ids(limit);
        let ghost ks = choose|ks: Seq<Seq<u8>>|
            #[trigger] is_desc_key_enum(self.store@.dom(), ks) && ({
                let idseqs = collect_succ_ids(ks, limit as nat);
                &&& ids@.len() == idseqs.len()
                &&& forall|i: int|
                    0 <= i < idseqs.len() ==> valid_utf8(#[trigger] idseqs[i]) && ids@[i as int]@
                        == decode_utf8(idseqs[i])
            });
        let mut i: usize = 0;
        while i < ids.len()
            invariant
                i <= ids@.len(),
                self.store.wf(),
                self.hot_set.wf(),
                lru_cap(self.lru_cache) >= 1,
                forall|raw: Seq<u8>|
                    raw.len() == 32 && lru_order(self.lru_cache).contains(#[trigger] hex_of(raw))
                        ==> bloom_positive(self.bloom, raw),
                self.store@ == old(self).store@,
                forall|t: int| 0 <= t < i ==> self.hot_set@.contains((#[trigger] ids@[t])@),
            decreases ids@.len() - i,
        {
            let id = &ids[i];
            let ghost prev = *self;
            match hex_decode(id.as_str()) {
                Some(raw) => {
                    if raw.len() == 32 {
                        self.bloom.insert(raw.as_slice());
                        proof {
                            assert forall|r2: Seq<u8>|
                                r2.len() == 32 && lru_order(self.lru_cache).contains(
                                    #[trigger] hex_of(r2),
                                ) implies bloom_positive(self.bloom, r2) by {
                                assert(bloom_positive(prev.bloom, r2));
                            }
                        }
                        self.lru_cache.put(clone_string(id));
                        proof {
                            assert forall|r2: Seq<u8>|
                                r2.len() == 32 && lru_order(self.lru_cache).contains(
                                    #[trigger] hex_of(r2),
                                ) implies bloom_positive(self.bloom, r2) by {
                                lemma_lru_put_subset(
                                    lru_order(prev.lru_cache),
                                    id@,
                                    lru_cap(prev.lru_cache),
                                    hex_of(r2),
                                );
                                if hex_of(r2) == id@ {
                                    lemma_hex_of_injective(r2, raw@);
                                }
                            }
                        }
                    } else {
                        self.lru_cache.put(clone_string(id));
                        proof {
                            assert forall|r2: Seq<u8>|
                                r2.len() == 32 && lru_order(self.lru_cache).contains(
                                    #[trigger] hex_of(r2),
                                ) implies bloom_positive(self.bloom, r2) by {
                                lemma_lru_put_subset(
                                    lru_order(prev.lru_cache),
                                    id@,
                                    lru_cap(prev.lru_cache),
                                    hex_of(r2),
                                );
                                if hex_of(r2) == id@ {
                                    crate::hexutil::lemma_hex_of_is_lower(r2);
                                    assert(hex_of(r2).len() == 64);
                                    assert(hex_of(raw@) == id@);
                                    lemma_hex_of_injective(r2, raw@);
                                }
                            }
                        }
                    }
                },
                None => {
                    self.lru_cache.put(clone_string(id));
                    proof {
                        assert forall|r2: Seq<u8>|
                            r2.len() == 32 && lru_order(self.lru_cache).contains(
                                #[trigger] hex_of(r2),
                            ) implies bloom_positive(self.bloom, r2) by {
                            lemma_lru_put_subset(
                                lru_order(prev.lru_cache),
                                id@,
                                lru_cap(prev.lru_cache),
                                hex_of(r2),
                            );
                            if hex_of(r2) == id@ {
                                lemma_hex_of_is_lower(r2);
                            }
                        }
                    }
                },
            }
            self.hot_set.insert(clone_string(id));
            i = i + 1;
        }
        proof {
            let idseqs = collect_succ_ids(ks, limit as nat);
            assert forall|t: int| 0 <= t < idseqs.len() implies self.in_hot(
                decode_utf8(#[trigger] idseqs[t]),
            ) by {
                assert(ids@[t]@ == decode_utf8(idseqs[t]));
                assert(self.hot_set@.contains(ids@[t]@));
            }
        }
    }

    /// Sizes of each layer; the bloom filter does not report one.
    pub fn get_stats(&self) -> (r: DedupeStats)
        requires
            self.wf(),
        ensures
            r.bloom_filter_size == 0,
            r.lru_cache_size == self.lru_view().len(),
            r.hot_set_size == self.hot_view().len(),
            r.rocksdb_approximate_count == self.store_map().dom().len(),
    {
        DedupeStats {
            bloom_filter_size: 0,
            lru_cache_size: self.lru_cache.len(),
            hot_set_size: self.hot_set.len(),
            rocksdb_approximate_count: self.store.approximate_count(),
        }
    }

    /// Record a successful forward in the shared archive, as the
    /// downstream forwarder does after every endpoint accepted an
    /// event.
    pub fn mark_forward_success(&mut self, event_id: &str)
        requires
            old(self).wf(),
        ensures
            final(self).wf(),
            exists|t: u64|
                final(self).store_map() == old(self).store_map().insert(
                    crate::store::fwd_key(event_id.spec_bytes()),
                    seq![49u8],
                ).insert(crate::store::succ_key(t, event_id.spec_bytes()), Seq::empty()),
            final(self).hot_view() == old(self).hot_view(),
            final(self).lru_view() == old(self).lru_view(),
    {
        self.store.mark_forward_success(event_id);
    }

    /// Has this event been forwarded successfully?
    pub fn is_forward_success(&self, event_id: &str) -> (r: bool)
        requires
            self.wf(),
        ensures
            r == self.store_map().dom().contains(
                crate::store::fwd_key(event_id.spec_bytes()),
            ),
    {
        self.store.is_forward_success(event_id)
    }

    /// The archive inside the engine, for inspection.
    pub fn store_ref(&self) -> (r: &EventStore)
        ensures
            r@ == self.store_map(),
            self.wf() ==> r.wf(),
    {
        &self.store
    }
}

} // verus!
