use ikigai_core::iri::Iri;
use ikigai_core::verb::Verb;
use ikigai_core::{
    CacheBound, CacheKey, CachePolicy, CostAware, EntryFacts, Fifo, Lru, ReprCache, ReprType,
    Representation, Request, Thread, Time,
};
use ikigai_core::cache::CUT_LOG;

fn key(n: u8) -> CacheKey {
    let request = Request::new(Verb::Source, Iri::parse(&format!("urn:test:{n}")).expect("iri"));
    CacheKey::new(request.id(), 0)
}

fn repr(bytes: usize) -> Representation {
    Representation::new(ReprType::new("text/plain"), vec![b'x'; bytes]).cacheable()
}

fn threaded(bytes: usize, thread: &str) -> Representation {
    repr(bytes).depends_on(thread)
}

#[test]
fn what_is_stored_is_served_until_its_thread_is_cut() {
    let mut cache = ReprCache::new(Lru::with_bound(CacheBound::new(16, 1 << 20)));
    let taken = cache.snapshot();
    assert!(cache.store(key(1), "urn:x:1".to_string(), threaded(3, "urn:t:a"), taken, None));
    let served = cache.get(&key(1), None).expect("served");
    assert_eq!(served.bytes, b"xxx");
    assert!(cache.probe(&key(1), None));
    cache.cut(Thread::new("urn:t:a"));
    assert!(!cache.probe(&key(1), None));
    assert!(cache.get(&key(1), None).is_none());
    assert_eq!(cache.len(), 0);
}

#[test]
fn a_cut_after_the_snapshot_declines_the_store() {
    let mut cache = ReprCache::default();
    let taken = cache.snapshot();
    cache.cut(Thread::new("urn:data:state"));
    assert!(
        !cache.store(key(1), "urn:test:a".into(), threaded(8, "urn:data:state"), taken, None),
        "a result predating the cut must not be stored"
    );
    assert_eq!(cache.len(), 0);
}

#[test]
fn a_cut_to_an_unrelated_thread_still_stores() {
    let mut cache = ReprCache::default();
    let taken = cache.snapshot();
    cache.cut(Thread::new("urn:data:elsewhere"));
    assert!(cache.store(key(1), "urn:test:a".into(), threaded(8, "urn:data:state"), taken, None));
    assert_eq!(cache.len(), 1);
}

#[test]
fn a_snapshot_older_than_the_cut_log_declines() {
    let mut cache = ReprCache::default();
    let taken = cache.snapshot();
    for n in 0..(CUT_LOG + 1) {
        cache.cut(Thread::new(&format!("urn:data:{n}")));
    }
    assert!(
        !cache.store(key(1), "urn:test:a".into(), threaded(8, "urn:data:state"), taken, None),
        "cuts it can no longer see must be assumed hostile"
    );
}

#[test]
fn a_thread_free_entry_is_never_raced() {
    let mut cache = ReprCache::default();
    let taken = cache.snapshot();
    cache.cut(Thread::new("urn:data:state"));
    assert!(
        cache.store(key(1), "urn:test:a".into(), repr(8), taken, None),
        "no threads means no cut can invalidate it"
    );
}

#[test]
fn the_entry_bound_evicts() {
    let mut cache = ReprCache::new(Lru::with_bound(CacheBound::new(2, 1 << 20)));
    for n in 0..4u8 {
        let taken = cache.snapshot();
        assert!(cache.store(key(n), format!("urn:test:{n}"), repr(8), taken, None));
    }
    assert_eq!(cache.len(), 2, "the bound is enforced on every store");
}

#[test]
fn the_byte_bound_evicts_and_refuses_the_oversized() {
    let mut cache = ReprCache::new(Lru::with_bound(CacheBound::new(16, 64)));
    let taken = cache.snapshot();
    assert!(cache.store(key(1), "urn:test:a".into(), repr(40), taken, None));
    let taken = cache.snapshot();
    assert!(cache.store(key(2), "urn:test:b".into(), repr(40), taken, None));
    assert_eq!(cache.len(), 1, "80 bytes does not fit in 64");
    let taken = cache.snapshot();
    assert!(
        !cache.store(key(3), "urn:test:c".into(), repr(65), taken, None),
        "an entry larger than the whole budget is refused, not admitted-then-evicted"
    );
}

#[test]
fn lru_evicts_the_least_recently_served() {
    let mut cache = ReprCache::new(Lru::with_bound(CacheBound::new(2, 1 << 20)));
    let taken = cache.snapshot();
    cache.store(key(1), "a".into(), repr(8), taken, None);
    let taken = cache.snapshot();
    cache.store(key(2), "b".into(), repr(8), taken, None);
    assert!(cache.get(&key(1), None).is_some());
    let taken = cache.snapshot();
    cache.store(key(3), "c".into(), repr(8), taken, None);
    assert!(cache.probe(&key(1), None), "recently served survives");
    assert!(!cache.probe(&key(2), None), "least recently served is evicted");
}

#[test]
fn fifo_evicts_the_oldest_however_recently_served() {
    let mut cache = ReprCache::new(Fifo::with_bound(CacheBound::new(2, 1 << 20)));
    let taken = cache.snapshot();
    cache.store(key(1), "a".into(), repr(8), taken, None);
    let taken = cache.snapshot();
    cache.store(key(2), "b".into(), repr(8), taken, None);
    assert!(cache.get(&key(1), None).is_some());
    let taken = cache.snapshot();
    cache.store(key(3), "c".into(), repr(8), taken, None);
    assert!(!cache.probe(&key(1), None), "oldest goes, hits notwithstanding");
    assert!(cache.probe(&key(2), None));
}

#[test]
fn cost_aware_keeps_the_expensive_and_compact() {
    let mut cache = ReprCache::new(CostAware::with_bound(CacheBound::new(2, 1 << 20)));
    let taken = cache.snapshot();
    cache.store(key(1), "cheap".into(), repr(64), taken, Some(1));
    let taken = cache.snapshot();
    cache.store(key(2), "dear".into(), repr(8), taken, Some(900));
    let taken = cache.snapshot();
    cache.store(key(3), "new".into(), repr(8), taken, Some(500));
    assert!(!cache.probe(&key(1), None), "cheap-per-byte is evicted first");
    assert!(cache.probe(&key(2), None));
}

#[test]
fn cost_aware_without_a_clock_falls_back_to_recency() {
    let mut cache = ReprCache::new(CostAware::with_bound(CacheBound::new(2, 1 << 20)));
    let taken = cache.snapshot();
    cache.store(key(1), "a".into(), repr(8), taken, None);
    let taken = cache.snapshot();
    cache.store(key(2), "b".into(), repr(8), taken, None);
    assert!(cache.get(&key(1), None).is_some());
    let taken = cache.snapshot();
    cache.store(key(3), "c".into(), repr(8), taken, None);
    assert!(cache.probe(&key(1), None), "unmeasured cost is not zero cost");
    assert!(!cache.probe(&key(2), None));
}

#[test]
fn a_cut_invalidates_and_the_lookup_evicts() {
    let mut cache = ReprCache::default();
    let taken = cache.snapshot();
    assert!(cache.store(key(1), "a".into(), threaded(8, "urn:data:state"), taken, None));
    cache.cut(Thread::new("urn:data:state"));
    assert!(!cache.probe(&key(1), None), "a cut entry is not served");
    assert_eq!(cache.len(), 1, "the probe does not evict");
    assert!(cache.get(&key(1), None).is_none());
    assert_eq!(cache.len(), 0, "the serving path evicts what it found stale");
}

#[test]
fn generations_are_swept_once_nothing_pins_them() {
    let mut cache = ReprCache::new(Lru::with_bound(CacheBound::new(4, 1 << 20)));
    cache.cut(Thread::new("urn:data:pinned"));
    let taken = cache.snapshot();
    assert!(cache.store(key(1), "a".into(), threaded(8, "urn:data:pinned"), taken, None));
    for n in 0..2100 {
        cache.cut(Thread::new(&format!("urn:data:flood:{n}")));
    }
    assert!(
        cache.generation_rows().len() > 2000,
        "the sweep is driven by a store, not by the cut itself"
    );
    let taken = cache.snapshot();
    assert!(cache.store(key(2), "b".into(), repr(8), taken, None));
    let rows = cache.generation_rows();
    assert_eq!(rows.len(), 1, "only pinned threads survive the sweep");
    assert_eq!(rows[0], ("urn:data:pinned".to_string(), 1));
    assert!(cache.probe(&key(1), None));
}

struct KeepEverything;

impl CachePolicy for KeepEverything {
    // The model the contracts read: its bound, and that it never names a victim.
    fn spec_capacity(&self) -> CacheBound {
        CacheBound::new(1, 1)
    }
    fn names_victims(&self) -> bool {
        false
    }
    fn capacity(&self) -> CacheBound {
        CacheBound::new(1, 1)
    }
    fn admits(&self, _candidate: &EntryFacts<'_>) -> bool {
        true
    }
    fn victim(&self, _resident: &[EntryFacts<'_>]) -> Option<usize> {
        None
    }
}

#[test]
fn a_policy_declining_to_name_a_victim_leaves_the_cache_over_its_bound() {
    let mut cache = ReprCache::new(KeepEverything);
    for n in 0..5u8 {
        let taken = cache.snapshot();
        assert!(cache.store(key(n), "a".into(), repr(8), taken, None));
    }
    assert_eq!(cache.len(), 5);
}

#[test]
fn a_deadline_is_honoured_and_a_clockless_kernel_assumes_the_worst() {
    let mut cache = ReprCache::default();
    let repr = Representation::new(ReprType::new("text/plain"), b"x".to_vec())
        .cacheable_until(Time::from_millis(100));
    let taken = cache.snapshot();
    assert!(cache.store(key(1), "a".into(), repr, taken, None));
    assert!(cache.probe(&key(1), Some(Time::from_millis(99))));
    assert!(!cache.probe(&key(1), Some(Time::from_millis(100))));
    assert!(!cache.probe(&key(1), None), "no clock means it cannot claim unexpired");
}
