use relayer::dedupe::DeduplicationEngine;
use relayer::event::Event;
use relayer::router::EventRouter;
use relayer::store::EventStore;

fn mk_event(id_byte: u8, kind: u16, created_at: u64, content: &str) -> Event {
    let mut id = Vec::new();
    let mut i = 0;
    while i < 32 {
        id.push(id_byte);
        i += 1;
    }
    let mut pubkey = String::new();
    for _ in 0..64 {
        pubkey.push('a');
    }
    Event { id, pubkey, kind, created_at, content: String::from(content) }
}

fn mk_event_pk(id_byte: u8, pubkey: &str, kind: u16, created_at: u64, content: &str) -> Event {
    let mut id = Vec::new();
    for _ in 0..32 {
        id.push(id_byte);
    }
    Event { id, pubkey: String::from(pubkey), kind, created_at, content: String::from(content) }
}

fn hex_id(id_byte: u8) -> String {
    let mut v = Vec::new();
    for _ in 0..32 {
        v.push(id_byte);
    }
    relayer::hexutil::hex_encode(&v)
}

#[test]
fn test_store_event_round_trip() {
    let mut store = EventStore::new();
    let e = mk_event(1, 30931, 1000, "hi \"there\"\nback\\slash");
    store.store_event(&e);
    let id = e.id_hex();
    assert!(store.contains_event(id.as_str()));
    let back = store.get_event(id.as_str()).expect("stored event parses back");
    assert_eq!(back.id, e.id);
    assert_eq!(back.pubkey, e.pubkey);
    assert_eq!(back.kind, e.kind);
    assert_eq!(back.created_at, e.created_at);
    assert_eq!(back.content, e.content);
}

#[test]
fn test_store_delete_event() {
    let mut store = EventStore::new();
    let e = mk_event(2, 30931, 1000, "x");
    store.store_event(&e);
    let id = e.id_hex();
    assert!(store.contains_event(id.as_str()));
    store.delete_event(id.as_str());
    assert!(!store.contains_event(id.as_str()));
    assert!(store.get_event(id.as_str()).is_none());
}

#[test]
fn test_mark_forward_success_sets_flag() {
    let mut store = EventStore::new();
    let id = hex_id(3);
    assert!(!store.is_forward_success(id.as_str()));
    store.mark_forward_success(id.as_str());
    assert!(store.is_forward_success(id.as_str()));
}

#[test]
fn test_recent_success_ids_reverse_order() {
    let mut store = EventStore::new();
    let ids = [hex_id(1), hex_id(2), hex_id(3)];
    // Unrelated families must not show up in the success index walk.
    store.store_event(&mk_event(9, 30931, 5, "payload"));
    store.mark_forward_success_at(ids[0].as_str(), 1000);
    store.mark_forward_success_at(ids[1].as_str(), 2000);
    store.mark_forward_success_at(ids[2].as_str(), 3000);
    let recent = store.load_recent_success_ids(3);
    assert_eq!(recent.len(), 3);
    assert_eq!(recent[0], ids[2]);
    assert_eq!(recent[1], ids[1]);
    assert_eq!(recent[2], ids[0]);
    let two = store.load_recent_success_ids(2);
    assert_eq!(two.len(), 2);
    assert_eq!(two[0], ids[2]);
    assert_eq!(two[1], ids[1]);
    assert_eq!(store.load_recent_success_ids(0).len(), 0);
}

#[test]
fn test_approximate_count() {
    let mut store = EventStore::new();
    assert_eq!(store.approximate_count(), 0);
    store.store_event(&mk_event(1, 30931, 1, "a"));
    store.mark_forward_success_at(hex_id(1).as_str(), 500);
    // One event key, one flag key, one index key.
    assert_eq!(store.approximate_count(), 3);
}

#[test]
fn test_dedupe_basic() {
    let mut engine = DeduplicationEngine::new_with_params(EventStore::new(), 16, 1000, 100);
    let e = mk_event(1, 30931, 1000, "hi");
    assert!(!engine.is_duplicate(&e));
    assert!(engine.is_duplicate(&e));
    assert!(engine.is_duplicate(&e));
    let other = mk_event(2, 30931, 1000, "hi");
    assert!(!engine.is_duplicate(&other));
}

#[test]
fn test_dedupe_stats() {
    let mut engine = DeduplicationEngine::new_with_params(EventStore::new(), 16, 1000, 100);
    let e = mk_event(1, 30931, 1000, "hi");
    let _ = engine.is_duplicate(&e);
    let stats = engine.get_stats();
    // A brand-new event takes the bloom-negative fast path: it seeds
    // the bloom filter and the hot set only.
    assert_eq!(stats.bloom_filter_size, 0);
    assert_eq!(stats.lru_cache_size, 0);
    assert_eq!(stats.hot_set_size, 1);
    assert_eq!(stats.rocksdb_approximate_count, 0);
}

#[test]
fn test_warm_prevents_redelivery() {
    // A run marks an event delivered, a fresh engine warms from the
    // same store, and the event is not admitted again.
    let mut store = EventStore::new();
    let e = mk_event(7, 30931, 1000, "delivered");
    store.store_event(&e);
    let id = e.id_hex();
    store.mark_forward_success_at(id.as_str(), 4000);
    let mut engine = DeduplicationEngine::new_with_params(store, 16, 1000, 100);
    engine.warm_from_db(10);
    assert!(engine.is_duplicate(&e));
}

#[test]
fn test_warm_zero_limit_is_noop() {
    let mut store = EventStore::new();
    let e = mk_event(7, 30931, 1000, "delivered");
    store.mark_forward_success_at(e.id_hex().as_str(), 4000);
    let mut engine = DeduplicationEngine::new_with_params(store, 16, 1000, 100);
    engine.warm_from_db(0);
    let stats = engine.get_stats();
    assert_eq!(stats.hot_set_size, 0);
}

#[test]
fn test_hotset_half_eviction() {
    let mut hot = relayer::caches::HotSet::with_capacity(4);
    hot.insert(String::from("a"));
    hot.insert(String::from("b"));
    hot.insert(String::from("c"));
    hot.insert(String::from("d"));
    assert_eq!(hot.len(), 4);
    hot.evict_if_full();
    assert_eq!(hot.len(), 2);
    assert!(hot.len() < hot.capacity());
    // Below the cap nothing changes.
    hot.evict_if_full();
    assert_eq!(hot.len(), 2);
}

#[test]
fn test_bloom_no_false_negatives() {
    let mut bloom = relayer::caches::BloomFilter::with_capacity(1000);
    let key = [5u8; 32];
    assert!(!bloom.contains(&key));
    bloom.insert(&key);
    assert!(bloom.contains(&key));
    bloom.clear();
    assert!(!bloom.contains(&key));
}

#[test]
fn test_lru_eviction_order() {
    let mut lru = relayer::caches::MemoryCache::with_capacity(2);
    lru.put(String::from("one"));
    lru.put(String::from("two"));
    lru.put(String::from("three"));
    assert_eq!(lru.len(), 2);
    assert!(!lru.contains("one"));
    assert!(lru.contains("two"));
    assert!(lru.contains("three"));
}

fn mk_router(batch_size: usize, allowed: Option<Vec<u16>>) -> EventRouter {
    let engine = DeduplicationEngine::new_with_params(EventStore::new(), 16, 1000, 100);
    EventRouter::new(engine, batch_size, 100, allowed)
}

#[test]
fn test_batch_sorted() {
    let mut router = mk_router(3, None);
    assert!(router.ingest(mk_event(1, 30931, 1005, "a")).is_none());
    assert!(router.ingest(mk_event(2, 30931, 1001, "b")).is_none());
    let batch = router.ingest(mk_event(3, 30931, 1003, "c")).expect("third event fills the batch");
    assert_eq!(batch.len(), 3);
    assert_eq!(batch[0].created_at, 1001);
    assert_eq!(batch[1].created_at, 1003);
    assert_eq!(batch[2].created_at, 1005);
    assert_eq!(router.pending_count(), 0);
}

#[test]
fn test_batch_no_duplicates() {
    let mut router = mk_router(3, None);
    assert!(router.ingest(mk_event(1, 30931, 10, "a")).is_none());
    assert!(router.ingest(mk_event(1, 30931, 10, "a")).is_none());
    assert!(router.ingest(mk_event(2, 30931, 5, "b")).is_none());
    let batch = router.ingest(mk_event(3, 30931, 7, "c")).expect("three novel events");
    assert_eq!(batch.len(), 3);
    assert_ne!(batch[0].id, batch[1].id);
    assert_ne!(batch[1].id, batch[2].id);
    assert_ne!(batch[0].id, batch[2].id);
}

#[test]
fn test_final_flush_sorted() {
    let mut router = mk_router(100, None);
    assert!(router.ingest(mk_event(1, 30931, 50, "a")).is_none());
    assert!(router.ingest(mk_event(2, 30931, 20, "b")).is_none());
    assert!(router.ingest(mk_event(3, 30931, 90, "c")).is_none());
    let all = router.flush_all();
    assert_eq!(all.len(), 3);
    assert_eq!(all[0].created_at, 20);
    assert_eq!(all[1].created_at, 50);
    assert_eq!(all[2].created_at, 90);
    assert_eq!(router.pending_count(), 0);
}

#[test]
fn test_empty_flush_is_noop() {
    let mut router = mk_router(10, None);
    let batch = router.flush_batch();
    assert_eq!(batch.len(), 0);
    let all = router.flush_all();
    assert_eq!(all.len(), 0);
}

#[test]
fn test_kind_allowlist() {
    let mut router = mk_router(1, Some(vec![30931, 30932]));
    assert!(router.ingest(mk_event(1, 1, 10, "filtered")).is_none());
    assert_eq!(router.pending_count(), 0);
    let batch = router.ingest(mk_event(2, 30931, 10, "passes")).expect("batch of one");
    assert_eq!(batch.len(), 1);
}

#[test]
fn test_empty_allowlist_passes_all() {
    let mut router = mk_router(1, Some(Vec::new()));
    let batch = router.ingest(mk_event(1, 12345, 10, "anything")).expect("all kinds pass");
    assert_eq!(batch.len(), 1);
}

#[test]
fn test_partial_batch_stays_pending() {
    let mut router = mk_router(5, None);
    assert!(router.ingest(mk_event(1, 30931, 10, "a")).is_none());
    assert!(router.ingest(mk_event(2, 30931, 11, "b")).is_none());
    assert_eq!(router.pending_count(), 2);
    let batch = router.flush_batch();
    assert_eq!(batch.len(), 2);
    assert_eq!(router.pending_count(), 0);
}

#[test]
fn test_router_ignores_pubkey_variation_on_same_id() {
    // Identity is the event id alone: a second copy from another relay
    // with the same id is a duplicate.
    let mut router = mk_router(10, None);
    let mut pk2 = String::new();
    for _ in 0..64 {
        pk2.push('b');
    }
    assert!(router.ingest(mk_event(1, 30931, 10, "a")).is_none());
    assert!(router.ingest(mk_event_pk(1, pk2.as_str(), 30931, 10, "a")).is_none());
    assert_eq!(router.pending_count(), 1);
}
