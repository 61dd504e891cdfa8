//! The representation cache: what the kernel keeps, how long it stays valid,
//! and what it is willing to forget.
//!
//! Validity (golden-thread generations and deadlines) decides whether an entry
//! may be served; a [`CachePolicy`] decides only what is worth keeping, and is
//! consulted on the way in and on the way out, never when serving. A cut takes
//! the next number from one counter and is logged, so that a store whose
//! snapshot predates a cut of a thread it depends on is declined.

use vstd::prelude::*;

use crate::repr::{Expiry, Representation, Thread, Time};
use crate::request::RequestId;
use crate::sorted::{
    insert_sorted, keys_sorted, kv_get, kv_insert, kv_view, lemma_insert_sorted, lemma_lookup_some_iff,
    lookup, StrSet,
};
use crate::text::{seq_less, str_eq};

verus! {

/// How many recent cuts the race check remembers.
pub const CUT_LOG: usize = 4096;

/// A cached representation's key: the content-addressed request, the
/// fingerprint of the capability it ran under, and that of the resolution
/// chain it was resolved in (`0` for the empty chain).
#[derive(Clone, Copy, PartialEq, Eq, Hash, Debug)]
pub struct CacheKey {
    /// The content-addressed identity of the request that produced the entry.
    pub request: RequestId,
    /// A stable fingerprint of the capability the request was issued under.
    pub capability: u64,
    /// A stable fingerprint of the resolution chain; `0` for the empty chain.
    pub scope: u64,
}

/// A key as the specification compares it.
pub open spec fn key_view(k: CacheKey) -> (Seq<u8>, u64, u64) {
    (k.request@, k.capability, k.scope)
}

impl CacheKey {
    /// A key over a request id and a capability fingerprint, in the empty
    /// resolution chain.
    pub fn new(request: RequestId, capability: u64) -> (r: CacheKey)
        ensures
            r.request@ == request@,
            r.capability == capability,
            r.scope == 0,
    {
        CacheKey { request, capability, scope: 0 }
    }

    /// The same key in the resolution chain `scope` fingerprints (builder).
    pub fn in_scope(self, scope: u64) -> (r: CacheKey)
        ensures
            r.request@ == self.request@,
            r.capability == self.capability,
            r.scope == scope,
    {
        CacheKey { request: self.request, capability: self.capability, scope }
    }

    /// Whether two keys name the same entry.
    pub fn same(&self, other: &CacheKey) -> (r: bool)
        ensures
            r == (key_view(*self) == key_view(*other)),
    {
        self.request.same(&other.request) && self.capability == other.capability && self.scope
            == other.scope
    }
}

/// A cached representation plus the golden-thread edges that keep it valid:
/// each `(thread, generation)` pins the generation the thread held when the
/// entry was stored.
#[derive(Debug)]
pub struct CacheEntry {
    /// The IRI of the request that produced this entry.
    pub target: String,
    /// The cached representation itself.
    pub representation: Representation,
    /// The golden threads this entry depends on, each pinned to a generation.
    pub edges: Vec<(Thread, u64)>,
    /// What it cost to produce, in milliseconds, when there was a clock.
    pub cost_millis: Option<u64>,
    /// How many times this entry has been served since it was stored.
    pub hits: u64,
    /// The cache tick at which it was stored.
    pub stored_tick: u64,
    /// The cache tick at which it was last served.
    pub last_used_tick: u64,
}

/// The edges of an entry, as names and generations.
pub open spec fn edges_view(e: &CacheEntry) -> Seq<(Seq<char>, u64)> {
    e.edges@.map_values(|p: (Thread, u64)| (p.0@, p.1))
}

/// What a policy sees of an entry, as the specification reads it.
pub struct FactsView {
    /// The IRI the entry was resolved from.
    pub target: Seq<char>,
    /// The representation's media type.
    pub media_type: Seq<char>,
    /// The payload size in bytes.
    pub bytes: usize,
    /// What it cost to produce, when measured.
    pub cost_millis: Option<u64>,
    /// How many times it has been served.
    pub hits: u64,
    /// How many golden threads it depends on.
    pub threads: usize,
    /// The tick at which it was stored.
    pub stored_tick: u64,
    /// The tick at which it was last served.
    pub last_used_tick: u64,
}

/// What a policy sees of an entry: everything but the payload and whose it is.
pub open spec fn facts_of(e: &CacheEntry) -> FactsView {
    FactsView {
        target: e.target@,
        media_type: e.representation.repr_type.spec_media_type(),
        bytes: e.representation.bytes@.len() as usize,
        cost_millis: e.cost_millis,
        hits: e.hits,
        threads: e.edges@.len() as usize,
        stored_tick: e.stored_tick,
        last_used_tick: e.last_used_tick,
    }
}

/// What a policy sees of the entry `store` is about to file for
/// `representation`, resolved from `target`, stamped with `tick`.
pub open spec fn candidate_facts(
    target: Seq<char>,
    representation: Representation,
    cost_millis: Option<u64>,
    tick: u64,
) -> FactsView {
    FactsView {
        target,
        media_type: representation.repr_type.spec_media_type(),
        bytes: representation.bytes@.len() as usize,
        cost_millis,
        hits: 0,
        threads: representation.threads.elems().len() as usize,
        stored_tick: tick,
        last_used_tick: tick,
    }
}

impl CacheEntry {
    /// The entry's size in bytes: the representation's payload.
    pub fn bytes(&self) -> (r: usize)
        ensures
            r == self.representation.bytes@.len(),
    {
        self.representation.bytes.len()
    }

    /// What a policy may see about this entry.
    pub fn facts(&self) -> (r: EntryFacts<'_>)
        ensures
            r@ == facts_of(self),
    {
        EntryFacts {
            target: self.target.as_str(),
            media_type: self.representation.repr_type.media_type(),
            bytes: self.bytes(),
            cost_millis: self.cost_millis,
            hits: self.hits,
            threads: self.edges.len(),
            stored_tick: self.stored_tick,
            last_used_tick: self.last_used_tick,
        }
    }
}

/// What a [`CachePolicy`] may see about one entry, resident or candidate.
#[derive(Clone, Copy, Debug)]
#[non_exhaustive]
pub struct EntryFacts<'a> {
    /// The IRI the entry was resolved from.
    pub target: &'a str,
    /// The representation's media type.
    pub media_type: &'a str,
    /// The entry's payload size in bytes.
    pub bytes: usize,
    /// What it cost to produce, in milliseconds, when there was a clock.
    pub cost_millis: Option<u64>,
    /// How many times it has been served since being stored.
    pub hits: u64,
    /// How many golden threads it depends on.
    pub threads: usize,
    /// The cache tick at which it was stored.
    pub stored_tick: u64,
    /// The cache tick at which it was last served, or stored if never served.
    pub last_used_tick: u64,
}

impl View for EntryFacts<'_> {
    type V = FactsView;

    open spec fn view(&self) -> FactsView {
        FactsView {
            target: self.target@,
            media_type: self.media_type@,
            bytes: self.bytes,
            cost_millis: self.cost_millis,
            hits: self.hits,
            threads: self.threads,
            stored_tick: self.stored_tick,
            last_used_tick: self.last_used_tick,
        }
    }
}

/// The ceiling a policy enforces: a count and a byte budget.
#[derive(Clone, Copy, Debug, PartialEq, Eq, Structural)]
pub struct CacheBound {
    /// The most entries the cache may hold.
    pub max_entries: usize,
    /// The most bytes of cached representations it may hold in total.
    pub max_bytes: usize,
}

impl CacheBound {
    /// A bound of `max_entries` entries and `max_bytes` bytes.
    pub fn new(max_entries: usize, max_bytes: usize) -> (r: CacheBound)
        ensures
            r.max_entries == max_entries,
            r.max_bytes == max_bytes,
    {
        CacheBound { max_entries, max_bytes }
    }
}

impl Default for CacheBound {
    /// The default bound: 4096 entries and 64 MiB.
    fn default() -> (r: CacheBound)
        ensures
            r.max_entries == 4096,
            r.max_bytes == 67108864,
    {
        CacheBound::new(4096, 67108864)
    }
}

/// Admission and eviction, never validity.
///
/// The cache consults a policy when it is about to store an entry
/// ([`admits`](CachePolicy::admits)) and, while it is over its
/// [`capacity`](CachePolicy::capacity), for a [`victim`](CachePolicy::victim)
/// to evict. It is never consulted when serving.
pub trait CachePolicy {
    /// The ceiling this policy enforces, as the specification sees it.
    spec fn spec_capacity(&self) -> CacheBound;

    /// Whether this policy always names a resident entry when asked for a
    /// victim (one that returns `None` leaves the cache over its bound).
    spec fn names_victims(&self) -> bool;

    /// The ceiling this policy enforces.
    fn capacity(&self) -> (r: CacheBound)
        ensures
            r == self.spec_capacity(),
    ;

    /// Whether this policy stores a candidate with these facts. Unless a
    /// policy says otherwise, it refuses a single entry larger than the whole
    /// byte budget.
    open spec fn spec_admits(&self, candidate: FactsView) -> bool {
        candidate.bytes <= self.spec_capacity().max_bytes
    }

    /// Whether to store a candidate at all.
    fn admits(&self, candidate: &EntryFacts<'_>) -> (r: bool)
        ensures
            r == self.spec_admits(candidate@),
    ;

    /// Which resident entry this policy evicts, by position, as the
    /// specification sees it. A policy that does not say names none.
    open spec fn spec_victim(&self, resident: Seq<FactsView>) -> Option<int> {
        None
    }

    /// The resident entry to evict, as an index into `resident`; `None` leaves
    /// the cache over its bound.
    fn victim(&self, resident: &[EntryFacts<'_>]) -> (r: Option<usize>)
        ensures
            self.names_victims() && resident@.len() > 0 ==> r is Some && r->0 < resident@.len(),
            match r {
                Some(i) => self.spec_victim(views(resident@)) == Some(i as int),
                None => self.spec_victim(views(resident@)) is None,
            },
    ;
}

/// What a policy sees of each of `resident`.
pub open spec fn views(resident: Seq<EntryFacts>) -> Seq<FactsView> {
    resident.map_values(|f: EntryFacts| f@)
}

/// The first position holding the least of `scores`, if there is one.
pub open spec fn least_first(scores: Seq<int>) -> Option<int> {
    if scores.len() == 0 {
        None
    } else {
        Some(choose|i: int| first_least(scores, i))
    }
}

/// Whether `i` is the first position holding the least `score`.
pub open spec fn first_least(scores: Seq<int>, i: int) -> bool {
    &&& 0 <= i < scores.len()
    &&& forall|j: int| 0 <= j < scores.len() ==> scores[i] <= #[trigger] scores[j]
    &&& forall|j: int| 0 <= j < i ==> scores[i] < #[trigger] scores[j]
}

/// The recency score: the tick an entry was last served at.
pub open spec fn recency_scores(resident: Seq<FactsView>) -> Seq<int> {
    resident.map_values(|f: FactsView| f.last_used_tick as int)
}

/// The insertion score: the tick an entry was stored at.
pub open spec fn age_scores(resident: Seq<FactsView>) -> Seq<int> {
    resident.map_values(|f: FactsView| f.stored_tick as int)
}

/// `a * b`, saturating at `u64::MAX`.
pub open spec fn sat_mul(a: u64, b: u64) -> u64 {
    if a * b > u64::MAX {
        u64::MAX
    } else {
        (a * b) as u64
    }
}

/// Value per byte: cost times one plus the hit count, per KiB held.
pub open spec fn density(f: FactsView) -> u64 {
    let cost = match f.cost_millis {
        Some(c) => c,
        None => 0,
    };
    let hits1: u64 = if f.hits == u64::MAX {
        u64::MAX
    } else {
        (f.hits + 1) as u64
    };
    let held: u64 = if f.bytes == 0 {
        1
    } else {
        f.bytes as u64
    };
    (sat_mul(sat_mul(cost, 1024), hits1) / held) as u64
}

/// The cost-aware score: density first, then recency, as one number ordered
/// like the pair.
pub open spec fn cost_scores(resident: Seq<FactsView>) -> Seq<int> {
    resident.map_values(
        |f: FactsView| density(f) as int * 0x1_0000_0000_0000_0000 + f.last_used_tick as int,
    )
}

/// Whether no resident entry carries a measured cost.
pub open spec fn none_measured(resident: Seq<FactsView>) -> bool {
    forall|j: int| 0 <= j < resident.len() ==> (#[trigger] resident[j]).cost_millis is None
}

/// The first position holding the least score, or `None` when there is none.
fn argmin(scores: &Vec<u128>) -> (r: Option<usize>)
    ensures
        match r {
            None => scores@.len() == 0,
            Some(i) => first_least(scores@.map_values(|x: u128| x as int), i as int),
        },
{
    if scores.len() == 0 {
        return None;
    }
    let ghost s = scores@.map_values(|x: u128| x as int);
    let mut best: usize = 0;
    let mut i: usize = 1;
    while i < scores.len()
        invariant
            1 <= i <= scores@.len(),
            s == scores@.map_values(|x: u128| x as int),
            best < i,
            forall|j: int| 0 <= j < i ==> s[best as int] <= #[trigger] s[j],
            forall|j: int| 0 <= j < best ==> s[best as int] < #[trigger] s[j],
        decreases scores@.len() - i,
    {
        if scores[i] < scores[best] {
            best = i;
        }
        i = i + 1;
    }
    Some(best)
}

fn sat_mul_u64(a: u64, b: u64) -> (r: u64)
    ensures
        r == sat_mul(a, b),
{
    match a.checked_mul(b) {
        Some(p) => p,
        None => u64::MAX,
    }
}

/// At most one position is the first holding the least score, so
/// `least_first` names it.
pub proof fn lemma_least_first(scores: Seq<int>, i: int)
    requires
        first_least(scores, i),
    ensures
        least_first(scores) == Some(i),
{
    let c = choose|c: int| first_least(scores, c);
    assert(first_least(scores, c));
    if c < i {
        assert(scores[i] < scores[c]);
    } else if c > i {
        assert(scores[c] < scores[i]);
    }
}

/// Evict the least recently served entry. The default policy.
#[derive(Clone, Copy, Debug)]
pub struct Lru(pub CacheBound);

impl Default for Lru {
    fn default() -> (r: Lru)
        ensures
            r.0.max_entries == 4096,
            r.0.max_bytes == 67108864,
    {
        Lru(CacheBound::default())
    }
}

impl Lru {
    /// An LRU policy with a non-default bound.
    pub fn with_bound(bound: CacheBound) -> (r: Lru)
        ensures
            r.0 == bound,
    {
        Lru(bound)
    }

    /// The victim: the first entry with the oldest last-served tick.
    pub fn pick(resident: &[EntryFacts<'_>]) -> (r: Option<usize>)
        ensures
            match r {
                None => resident@.len() == 0,
                Some(i) => first_least(recency_scores(views(resident@)), i as int),
            },
    {
        let mut scores: Vec<u128> = Vec::new();
        let mut i: usize = 0;
        while i < resident.len()
            invariant
                i <= resident@.len(),
                scores@.len() == i,
                forall|k: int| 0 <= k < i ==> (#[trigger] scores@[k]) as int == recency_scores(views(resident@))[k],
            decreases resident@.len() - i,
        {
            let ghost before = scores@;
            scores.push(resident[i].last_used_tick as u128);
            proof {
                assert(scores@ == before.push(resident@[i as int].last_used_tick as u128));
                assert(recency_scores(views(resident@))[i as int] == resident@[i as int].last_used_tick as int);
            }
            i = i + 1;
        }
        proof {
            assert(scores@.map_values(|x: u128| x as int) =~= recency_scores(views(resident@)));
        }
        argmin(&scores)
    }
}

impl CachePolicy for Lru {
    open spec fn spec_capacity(&self) -> CacheBound {
        self.0
    }

    open spec fn spec_victim(&self, resident: Seq<FactsView>) -> Option<int> {
        least_first(recency_scores(resident))
    }

    open spec fn names_victims(&self) -> bool {
        true
    }

    fn capacity(&self) -> (r: CacheBound)
        ensures
            r == self.0,
    {
        assert(self.spec_capacity() == self.0);
        self.0
    }

    fn admits(&self, candidate: &EntryFacts<'_>) -> (r: bool) {
        candidate.bytes <= self.0.max_bytes
    }

    fn victim(&self, resident: &[EntryFacts<'_>]) -> (r: Option<usize>)
        ensures
            match r {
                None => resident@.len() == 0,
                Some(i) => first_least(recency_scores(views(resident@)), i as int),
            },
    {
        let r = Lru::pick(resident);
        proof {
            if let Some(i) = r {
                lemma_least_first(recency_scores(views(resident@)), i as int);
            }
        }
        r
    }
}

/// Evict the oldest entry, however recently it was served.
#[derive(Clone, Copy, Debug)]
pub struct Fifo(pub CacheBound);

impl Default for Fifo {
    fn default() -> (r: Fifo)
        ensures
            r.0.max_entries == 4096,
            r.0.max_bytes == 67108864,
    {
        Fifo(CacheBound::default())
    }
}

impl Fifo {
    /// A FIFO policy with a non-default bound.
    pub fn with_bound(bound: CacheBound) -> (r: Fifo)
        ensures
            r.0 == bound,
    {
        Fifo(bound)
    }
}

impl CachePolicy for Fifo {
    open spec fn spec_capacity(&self) -> CacheBound {
        self.0
    }

    open spec fn spec_victim(&self, resident: Seq<FactsView>) -> Option<int> {
        least_first(age_scores(resident))
    }

    open spec fn names_victims(&self) -> bool {
        true
    }

    fn capacity(&self) -> (r: CacheBound)
        ensures
            r == self.0,
    {
        assert(self.spec_capacity() == self.0);
        self.0
    }

    fn admits(&self, candidate: &EntryFacts<'_>) -> (r: bool) {
        candidate.bytes <= self.0.max_bytes
    }

    fn victim(&self, resident: &[EntryFacts<'_>]) -> (r: Option<usize>)
        ensures
            match r {
                None => resident@.len() == 0,
                Some(i) => first_least(age_scores(views(resident@)), i as int),
            },
    {
        let mut scores: Vec<u128> = Vec::new();
        let mut i: usize = 0;
        while i < resident.len()
            invariant
                i <= resident@.len(),
                scores@.len() == i,
                forall|k: int| 0 <= k < i ==> (#[trigger] scores@[k]) as int == age_scores(views(resident@))[k],
            decreases resident@.len() - i,
        {
            let ghost before = scores@;
            scores.push(resident[i].stored_tick as u128);
            proof {
                assert(scores@ == before.push(resident@[i as int].stored_tick as u128));
                assert(age_scores(views(resident@))[i as int] == resident@[i as int].stored_tick as int);
            }
            i = i + 1;
        }
        proof {
            assert(scores@.map_values(|x: u128| x as int) =~= age_scores(views(resident@)));
        }
        let r = argmin(&scores);
        proof {
            if let Some(i) = r {
                lemma_least_first(age_scores(views(resident@)), i as int);
            }
        }
        r
    }
}

/// Evict the entry with the least value per byte: what it cost to recompute,
/// times how often it has been wanted, divided by what it occupies. With no
/// measured cost anywhere it falls back to recency.
#[derive(Clone, Copy, Debug)]
pub struct CostAware(pub CacheBound);

impl Default for CostAware {
    fn default() -> (r: CostAware)
        ensures
            r.0.max_entries == 4096,
            r.0.max_bytes == 67108864,
    {
        CostAware(CacheBound::default())
    }
}

impl CostAware {
    /// A cost-versus-size policy with a non-default bound.
    pub fn with_bound(bound: CacheBound) -> (r: CostAware)
        ensures
            r.0 == bound,
    {
        CostAware(bound)
    }
}

fn density_of(f: &EntryFacts<'_>) -> (r: u64)
    ensures
        r == density(f@),
{
    let cost: u64 = match f.cost_millis {
        Some(c) => c,
        None => 0,
    };
    let hits1 = f.hits.saturating_add(1);
    let held: u64 = if f.bytes == 0 {
        1
    } else {
        f.bytes as u64
    };
    sat_mul_u64(sat_mul_u64(cost, 1024), hits1) / held
}

impl CachePolicy for CostAware {
    open spec fn spec_capacity(&self) -> CacheBound {
        self.0
    }

    open spec fn spec_victim(&self, resident: Seq<FactsView>) -> Option<int> {
        if none_measured(resident) {
            least_first(recency_scores(resident))
        } else {
            least_first(cost_scores(resident))
        }
    }

    open spec fn names_victims(&self) -> bool {
        true
    }

    fn capacity(&self) -> (r: CacheBound)
        ensures
            r == self.0,
    {
        assert(self.spec_capacity() == self.0);
        self.0
    }

    fn admits(&self, candidate: &EntryFacts<'_>) -> (r: bool) {
        candidate.bytes <= self.0.max_bytes
    }

    fn victim(&self, resident: &[EntryFacts<'_>]) -> (r: Option<usize>)
        ensures
            match r {
                None => resident@.len() == 0,
                Some(i) => if none_measured(views(resident@)) {
                    first_least(recency_scores(views(resident@)), i as int)
                } else {
                    first_least(cost_scores(views(resident@)), i as int)
                },
            },
    {
        let mut measured = false;
        let mut k: usize = 0;
        while k < resident.len()
            invariant
                k <= resident@.len(),
                measured == !forall|j: int| 0 <= j < k ==> (#[trigger] resident@[j]).cost_millis is None,
            decreases resident@.len() - k,
        {
            if resident[k].cost_millis.is_some() {
                measured = true;
            }
            k = k + 1;
        }
        if !measured {
            let r = Lru::pick(resident);
            proof {
                assert(none_measured(views(resident@)));
                if let Some(i) = r {
                    lemma_least_first(recency_scores(views(resident@)), i as int);
                }
            }
            return r;
        }
        let mut scores: Vec<u128> = Vec::new();
        let mut i: usize = 0;
        while i < resident.len()
            invariant
                i <= resident@.len(),
                scores@.len() == i,
                forall|k: int| 0 <= k < i ==> (#[trigger] scores@[k]) as int == cost_scores(views(resident@))[k],
            decreases resident@.len() - i,
        {
            let d = density_of(&resident[i]);
            let s: u128 = (d as u128) * 0x1_0000_0000_0000_0000u128 + resident[i].last_used_tick as u128;
            let ghost before = scores@;
            scores.push(s);
            proof {
                assert(scores@ == before.push(s));
                assert(cost_scores(views(resident@))[i as int] == s as int);
            }
            i = i + 1;
        }
        proof {
            assert(scores@.map_values(|x: u128| x as int) =~= cost_scores(views(resident@)));
        }
        let r = argmin(&scores);
        proof {
            let j = choose|j: int| 0 <= j < resident@.len() && !((#[trigger] resident@[j]).cost_millis is None);
            assert(views(resident@)[j] == resident@[j]@);
            assert(!none_measured(views(resident@)));
            if let Some(i) = r {
                lemma_least_first(cost_scores(views(resident@)), i as int);
            }
        }
        r
    }
}

/// A non-empty sequence of scores has a first least position.
pub proof fn lemma_first_least_exists(scores: Seq<int>)
    requires
        scores.len() > 0,
    ensures
        exists|i: int| first_least(scores, i),
    decreases scores.len(),
{
    if scores.len() == 1 {
        assert(first_least(scores, 0));
    } else {
        let p = scores.drop_last();
        lemma_first_least_exists(p);
        let k = choose|k: int| first_least(p, k);
        let n = scores.len() - 1;
        if scores[n] < scores[k] {
            assert forall|j: int| 0 <= j < scores.len() implies scores[n] <= #[trigger] scores[j] by {
                if j < n {
                    assert(p[j] == scores[j]);
                    assert(p[k] <= p[j]);
                }
            }
            assert forall|j: int| 0 <= j < n implies scores[n] < #[trigger] scores[j] by {
                assert(p[j] == scores[j]);
                assert(p[k] <= p[j]);
            }
            assert(first_least(scores, n));
        } else {
            assert forall|j: int| 0 <= j < scores.len() implies scores[k] <= #[trigger] scores[j] by {
                if j < n {
                    assert(p[j] == scores[j]);
                }
            }
            assert forall|j: int| 0 <= j < k implies scores[k] < #[trigger] scores[j] by {
                assert(p[j] == scores[j]);
            }
            assert(first_least(scores, k));
        }
    }
}

/// Value per byte as a plain quotient: with a measured cost `c`, a size of
/// `b > 0` bytes and no saturation, an entry's density is
/// `c * 1024 * (hits + 1) / b`.
pub proof fn lemma_density_is_value_per_byte(f: FactsView, c: u64)
    requires
        f.cost_millis == Some(c),
        f.bytes > 0,
        c * 1024 * (f.hits + 1) <= u64::MAX,
    ensures
        density(f) == c * 1024 * (f.hits + 1) / (f.bytes as int),
{
    let k: int = c * 1024;
    let x: int = k * (f.hits + 1);
    assert(x == c * 1024 * (f.hits + 1));
    assert(k <= x) by (nonlinear_arith)
        requires
            k >= 0,
            f.hits >= 0,
            x == k * (f.hits + 1),
    ;
    assert(sat_mul(c, 1024) == k);
    if c == 0 {
        assert(x == 0) by (nonlinear_arith)
            requires
                k == 0,
                x == k * (f.hits + 1),
        ;
        assert(sat_mul(sat_mul(c, 1024), 1) == 0);
        let h1: u64 = if f.hits == u64::MAX {
            u64::MAX
        } else {
            (f.hits + 1) as u64
        };
        assert(0u64 * h1 == 0);
        assert(sat_mul(0u64, h1) == 0);
    } else {
        assert(x >= f.hits + 1) by (nonlinear_arith)
            requires
                k >= 1,
                f.hits >= 0,
                x == k * (f.hits + 1),
        ;
        assert(f.hits < u64::MAX);
        let h1: u64 = (f.hits + 1) as u64;
        assert(h1 == f.hits + 1);
        assert((k as u64) * h1 == x);
        assert(sat_mul(k as u64, h1) == x);
    }
}

/// The cost-aware policy keeps the more valuable of two entries of the same
/// size `b > 0`: when `cost * 1024 * (hits + 1)` of one exceeds the other's by
/// at least `b`, so that its value per byte is strictly larger, it is never
/// the victim.
pub proof fn lemma_cost_aware_keeps_the_more_valuable(
    policy: CostAware,
    resident: Seq<FactsView>,
    i: int,
    j: int,
    ci: u64,
    cj: u64,
)
    requires
        0 <= i < resident.len(),
        0 <= j < resident.len(),
        resident[i].cost_millis == Some(ci),
        resident[j].cost_millis == Some(cj),
        resident[i].bytes == resident[j].bytes,
        resident[i].bytes > 0,
        ci * 1024 * (resident[i].hits + 1) <= u64::MAX,
        cj * 1024 * (resident[j].hits + 1) + resident[i].bytes <= ci * 1024 * (
        resident[i].hits + 1),
    ensures
        policy.spec_victim(resident) != Some(i),
{
    let fi = resident[i];
    let fj = resident[j];
    let b = fi.bytes as int;
    let xi = ci * 1024 * (fi.hits + 1);
    let xj = cj * 1024 * (fj.hits + 1);
    lemma_density_is_value_per_byte(fi, ci);
    lemma_density_is_value_per_byte(fj, cj);
    assert(xj / b < xi / b) by (nonlinear_arith)
        requires
            xj + b <= xi,
            b > 0,
            xj >= 0,
    {
        assert((xj + b) / b == xj / b + 1);
        assert((xj + b) / b <= xi / b);
    }
    assert(density(fj) < density(fi));
    assert(!none_measured(resident));
    let scores = cost_scores(resident);
    assert(scores[j] < scores[i]);
    lemma_first_least_exists(scores);
    let m = choose|m: int| first_least(scores, m);
    assert(scores[m] <= scores[j]);
}

/// The cost-aware policy keeps what is wanted: of two resident entries of
/// the same size, with the same measured cost `c > 0` and a size of at most
/// `c` KiB, the one served more often is never the victim.
pub proof fn lemma_cost_aware_keeps_the_more_wanted(
    policy: CostAware,
    resident: Seq<FactsView>,
    i: int,
    j: int,
    c: u64,
)
    requires
        0 <= i < resident.len(),
        0 <= j < resident.len(),
        c > 0,
        resident[i].cost_millis == Some(c),
        resident[j].cost_millis == Some(c),
        resident[i].bytes == resident[j].bytes,
        0 < resident[i].bytes <= c * 1024,
        resident[i].hits > resident[j].hits,
        c * 1024 * (resident[i].hits + 1) <= u64::MAX,
    ensures
        policy.spec_victim(resident) != Some(i),
{
    let hi = resident[i].hits as int;
    let hj = resident[j].hits as int;
    let k = c * 1024;
    assert(k * (hj + 1) + k <= k * (hi + 1)) by (nonlinear_arith)
        requires
            hj + 1 <= hi,
            k > 0,
    ;
    assert(c * 1024 * (hj + 1) == k * (hj + 1));
    assert(c * 1024 * (hi + 1) == k * (hi + 1));
    lemma_cost_aware_keeps_the_more_valuable(policy, resident, i, j, c, c);
}

/// A point in the cut history, taken before a request invokes anything.
#[derive(Clone, Copy, Debug, PartialEq, Eq, Structural)]
pub struct CutSnapshot(u64);

impl CutSnapshot {
    /// The cut sequence number this snapshot saw.
    pub closed spec fn position(&self) -> u64 {
        self.0
    }
}

/// The generation of thread `t`: absent means zero.
pub open spec fn generation_in(gens: Seq<(Seq<char>, u64)>, t: Seq<char>) -> u64 {
    match lookup(gens, t) {
        Some(g) => g,
        None => 0,
    }
}

/// Whether an entry may be served: every golden thread it pins is still at the
/// pinned generation, and any deadline is still ahead of `now` (a clock-free
/// caller, `None`, is never ahead of a deadline).
pub open spec fn entry_valid(gens: Seq<(Seq<char>, u64)>, e: CacheEntry, now: Option<Time>) -> bool {
    &&& forall|i: int|
        0 <= i < e.edges@.len() ==> generation_in(gens, (#[trigger] e.edges@[i]).0@) == e.edges@[i].1
    &&& match e.representation.expiry {
        Expiry::At(d) => match now {
            Some(n) => n.0 < d.0,
            None => false,
        },
        _ => true,
    }
}

/// The first position at or after `from` whose key is `k`.
pub open spec fn index_of_key(entries: Seq<(CacheKey, CacheEntry)>, k: CacheKey, from: int) -> Option<int>
    decreases entries.len() - from,
{
    if from < 0 || from >= entries.len() {
        None
    } else if key_view(entries[from].0) == key_view(k) {
        Some(from)
    } else {
        index_of_key(entries, k, from + 1)
    }
}

/// Whether a cut logged after `taken` hit one of `threads`, reading the log
/// from its newest end for as long as the cuts are newer than `taken`.
pub open spec fn cut_in_log(cuts: Seq<(Seq<char>, u64)>, threads: Set<Seq<char>>, taken: u64) -> bool
    decreases cuts.len(),
{
    if cuts.len() == 0 {
        false
    } else if cuts.last().1 > taken {
        threads.contains(cuts.last().0) || cut_in_log(cuts.drop_last(), threads, taken)
    } else {
        false
    }
}

/// The race check: a representation with threads is declined when the log
/// can no longer see back to `taken`, or saw a cut to one of its threads
/// since.
pub open spec fn raced(
    horizon: u64,
    cuts: Seq<(Seq<char>, u64)>,
    threads: Set<Seq<char>>,
    nthreads: nat,
    taken: u64,
) -> bool {
    nthreads > 0 && (taken < horizon || cut_in_log(cuts, threads, taken))
}

/// The payload bytes of the entries, in total.
pub open spec fn total_bytes(entries: Seq<(CacheKey, CacheEntry)>) -> nat
    decreases entries.len(),
{
    if entries.len() == 0 {
        0
    } else {
        total_bytes(entries.drop_last()) + entries.last().1.representation.bytes@.len()
    }
}

/// A byte count as the cache reports it: saturating at `usize::MAX`.
pub open spec fn sat_usize(x: nat) -> usize {
    if x > usize::MAX {
        usize::MAX
    } else {
        x as usize
    }
}

/// Whether the entries fit within `b`.
pub open spec fn within(entries: Seq<(CacheKey, CacheEntry)>, b: CacheBound) -> bool {
    entries.len() <= b.max_entries && sat_usize(total_bytes(entries)) <= b.max_bytes
}

/// Whether some entry pins thread `t`.
#[verifier::opaque]
pub open spec fn pinned(entries: Seq<(CacheKey, CacheEntry)>, t: Seq<char>) -> bool {
    exists|i: int, j: int|
        0 <= i < entries.len() && 0 <= j < entries[i].1.edges@.len() && (
        #[trigger] entries[i].1.edges@[j]).0@ == t
}

/// The pairs of `gens` whose thread `keep` accepts, in order.
pub open spec fn retain_by(gens: Seq<(Seq<char>, u64)>, keep: spec_fn(Seq<char>) -> bool) -> Seq<
    (Seq<char>, u64),
>
    decreases gens.len(),
{
    if gens.len() == 0 {
        gens
    } else {
        let p = retain_by(gens.drop_last(), keep);
        if keep(gens.last().0) {
            p.push(gens.last())
        } else {
            p
        }
    }
}

/// The generations of the threads some entry pins.
pub open spec fn retain_pinned(gens: Seq<(Seq<char>, u64)>, entries: Seq<(CacheKey, CacheEntry)>) -> Seq<
    (Seq<char>, u64),
> {
    retain_by(gens, |t: Seq<char>| pinned(entries, t))
}

/// The generation-map size above which unpinned threads are forgotten.
pub open spec fn watermark(max_entries: usize) -> int {
    let doubled = if max_entries * 2 > usize::MAX {
        usize::MAX as int
    } else {
        max_entries * 2
    };
    if doubled < 1024 {
        1024
    } else {
        doubled
    }
}

/// Whether an entry under `key` would be served at `now`: one is resident
/// and valid. The serving path and the read-only probe both answer by this,
/// so they never disagree.
pub open spec fn serves_now(
    resident: Seq<(CacheKey, CacheEntry)>,
    gens: Seq<(Seq<char>, u64)>,
    key: CacheKey,
    now: Option<Time>,
) -> bool {
    match index_of_key(resident, key, 0) {
        Some(i) => entry_valid(gens, resident[i].1, now),
        None => false,
    }
}

/// The kernel's representation cache: valid entries, thread generations, and
/// the bounded cut log that makes the race check possible.
pub struct ReprCache<P> {
    entries: Vec<(CacheKey, CacheEntry)>,
    generations: Vec<(String, u64)>,
    cuts: Vec<(String, u64)>,
    horizon: u64,
    seq: u64,
    tick: u64,
    policy: P,
}

/// Whether no key occurs twice.
pub open spec fn keys_unique(entries: Seq<(CacheKey, CacheEntry)>) -> bool {
    forall|i: int, j: int|
        0 <= i < j < entries.len() ==> key_view((#[trigger] entries[i]).0) != key_view(
            (#[trigger] entries[j]).0,
        )
}

impl<P> ReprCache<P> {
    #[verifier::type_invariant]
    spec fn inv(&self) -> bool {
        &&& keys_unique(self.entries@)
        &&& keys_sorted(kv_view(self.generations@))
        &&& log_ok(kv_view(self.cuts@), self.horizon, self.seq)
    }

    /// The resident entries, with their keys.
    pub closed spec fn resident(&self) -> Seq<(CacheKey, CacheEntry)> {
        self.entries@
    }

    /// The current generation of each tracked thread.
    pub closed spec fn gens(&self) -> Seq<(Seq<char>, u64)> {
        kv_view(self.generations@)
    }

    /// The retained cuts, oldest first, with their sequence numbers.
    pub closed spec fn cut_log(&self) -> Seq<(Seq<char>, u64)> {
        kv_view(self.cuts@)
    }

    /// The newest sequence number no longer in the log.
    pub closed spec fn spec_horizon(&self) -> u64 {
        self.horizon
    }

    /// The cut counter.
    pub closed spec fn spec_seq(&self) -> u64 {
        self.seq
    }

    /// The store-and-hit counter.
    pub closed spec fn spec_tick(&self) -> u64 {
        self.tick
    }

    /// The policy in force.
    pub closed spec fn spec_policy(&self) -> P {
        self.policy
    }
}

impl<P: CachePolicy> ReprCache<P> {
    /// An empty cache under `policy`.
    pub fn new(policy: P) -> (r: ReprCache<P>)
        ensures
            r.resident().len() == 0,
            r.gens().len() == 0,
            r.cut_log().len() == 0,
            r.spec_horizon() == 0,
            r.spec_seq() == 0,
            r.spec_tick() == 0,
            r.spec_policy() == policy,
    {
        let r = ReprCache {
            entries: Vec::new(),
            generations: Vec::new(),
            cuts: Vec::new(),
            horizon: 0,
            seq: 0,
            tick: 0,
            policy,
        };
        assert(kv_view(r.generations@) =~= Seq::<(Seq<char>, u64)>::empty());
        r
    }

    /// The cut history as of now: take it before invoking, hand it to
    /// [`store`](Self::store).
    pub fn snapshot(&self) -> (r: CutSnapshot)
        ensures
            r.position() == self.spec_seq(),
            log_ok(self.cut_log(), self.spec_horizon(), self.spec_seq()),
    {
        proof {
            use_type_invariant(self);
        }
        CutSnapshot(self.seq)
    }

    fn find(&self, key: &CacheKey) -> (r: Option<usize>)
        ensures
            match r {
                Some(i) => index_of_key(self.resident(), *key, 0) == Some(i as int) && i
                    < self.resident().len(),
                None => index_of_key(self.resident(), *key, 0) is None,
            },
    {
        let mut i: usize = 0;
        while i < self.entries.len()
            invariant
                i <= self.entries@.len(),
                index_of_key(self.entries@, *key, 0) == index_of_key(self.entries@, *key, i as int),
            decreases self.entries@.len() - i,
        {
            if self.entries[i].0.same(key) {
                return Some(i);
            }
            i = i + 1;
        }
        None
    }

    fn generation_of(&self, thread: &str) -> (r: u64)
        ensures
            r == generation_in(self.gens(), thread@),
    {
        match kv_get(&self.generations, thread) {
            Some(g) => *g,
            None => 0,
        }
    }

    fn is_valid(&self, entry: &CacheEntry, now: Option<Time>) -> (r: bool)
        ensures
            r == entry_valid(self.gens(), *entry, now),
    {
        let mut i: usize = 0;
        while i < entry.edges.len()
            invariant
                i <= entry.edges@.len(),
                forall|k: int|
                    0 <= k < i ==> generation_in(self.gens(), (#[trigger] entry.edges@[k]).0@)
                        == entry.edges@[k].1,
            decreases entry.edges@.len() - i,
        {
            if self.generation_of(entry.edges[i].0.as_str()) != entry.edges[i].1 {
                return false;
            }
            i = i + 1;
        }
        match entry.representation.expiry {
            Expiry::At(deadline) => match now {
                Some(n) => n.0 < deadline.0,
                None => false,
            },
            _ => true,
        }
    }

    /// Whether `key` would be served right now. Read-only: it neither evicts
    /// a stale entry nor counts as a hit.
    pub fn probe(&self, key: &CacheKey, now: Option<Time>) -> (r: bool)
        ensures
            r == serves_now(self.resident(), self.gens(), *key, now),
    {
        match self.find(key) {
            Some(i) => self.is_valid(&self.entries[i].1, now),
            None => false,
        }
    }

    /// Serve `key` if a valid entry exists, evicting it if it has gone stale.
    /// A served entry counts a hit and is stamped with the next tick.
    pub fn get(&mut self, key: &CacheKey, now: Option<Time>) -> (r: Option<Representation>)
        ensures
            r is Some <==> serves_now(old(self).resident(), old(self).gens(), *key, now),
            final(self).gens() == old(self).gens(),
            final(self).cut_log() == old(self).cut_log(),
            final(self).spec_horizon() == old(self).spec_horizon(),
            final(self).spec_seq() == old(self).spec_seq(),
            final(self).spec_policy() == old(self).spec_policy(),
            match index_of_key(old(self).resident(), *key, 0) {
                None => r is None && final(self).resident() == old(self).resident() && final(self).spec_tick() == old(self).spec_tick(),
                Some(i) => if entry_valid(old(self).gens(), old(self).resident()[i].1, now) {
                    let e = old(self).resident()[i].1;
                    &&& r is Some
                    &&& r->0.bytes@ == e.representation.bytes@
                    &&& r->0.expiry == e.representation.expiry
                    &&& r->0.spec_threads() == e.representation.spec_threads()
                    &&& r->0.repr_type.spec_media_type() == e.representation.repr_type.spec_media_type()
                    &&& r->0.repr_type.spec_params() == e.representation.repr_type.spec_params()
                    &&& final(self).spec_tick() == vstd::wrapping::u64_specs::wrapping_add(
                        old(self).spec_tick(),
                        1,
                    )
                    &&& final(self).resident().len() == old(self).resident().len()
                    &&& forall|j: int|
                        0 <= j < old(self).resident().len() && j != i ==> #[trigger] final(self).resident()[j] == old(self).resident()[j]
                    &&& final(self).resident()[i] == (
                        old(self).resident()[i].0,
                        CacheEntry {
                            hits: vstd::wrapping::u64_specs::wrapping_add(e.hits, 1),
                            last_used_tick: final(self).spec_tick(),
                            ..e
                        },
                    )
                } else {
                    &&& r is None
                    &&& final(self).resident() == old(self).resident().remove(i)
                    &&& final(self).spec_tick() == old(self).spec_tick()
                },
            },
    {
        proof {
            use_type_invariant(&*self);
        }
        match self.find(key) {
            None => None,
            Some(i) => {
                if !self.is_valid(&self.entries[i].1, now) {
                    let ghost before = self.entries@;
                    let mut entries: Vec<(CacheKey, CacheEntry)> = Vec::new();
                    std::mem::swap(&mut entries, &mut self.entries);
                    let _evicted = entries.remove(i);
                    proof {
                        assert forall|a: int, b: int|
                            0 <= a < b < entries@.len() implies key_view((#[trigger] entries@[a]).0)
                            != key_view((#[trigger] entries@[b]).0) by {
                            let oa = if a < i {
                                a
                            } else {
                                a + 1
                            };
                            let ob = if b < i {
                                b
                            } else {
                                b + 1
                            };
                            assert(entries@[a] == before[oa]);
                            assert(entries@[b] == before[ob]);
                        }
                    }
                    self.entries = entries;
                    None
                } else {
                    let tick = self.tick.wrapping_add(1);
                    self.tick = tick;
                    let mut entries: Vec<(CacheKey, CacheEntry)> = Vec::new();
                    std::mem::swap(&mut entries, &mut self.entries);
                    let ghost before = entries@;
                    let h = entries[i].1.hits.wrapping_add(1);
                    entries[i].1.hits = h;
                    entries[i].1.last_used_tick = tick;
                    let served = entries[i].1.representation.duplicate();
                    proof {
                        assert forall|j: int| 0 <= j < entries@.len() implies (#[trigger] entries@[j]).0
                            == before[j].0 by {}
                        assert forall|a: int, b: int|
                            0 <= a < b < entries@.len() implies key_view((#[trigger] entries@[a]).0)
                            != key_view((#[trigger] entries@[b]).0) by {
                            assert(entries@[a].0 == before[a].0);
                            assert(entries@[b].0 == before[b].0);
                        }
                    }
                    self.entries = entries;
                    Some(served)
                }
            },
        }
    }
}

/// In a key-sorted association, a listed pair is what `lookup` finds.
pub proof fn lemma_sorted_lookup(s: Seq<(Seq<char>, u64)>, i: int)
    requires
        keys_sorted(s),
        0 <= i < s.len(),
    ensures
        lookup(s, s[i].0) == Some(s[i].1),
{
    lemma_lookup_some_iff(s, s[i].0);
    let j = choose|j: int| 0 <= j < s.len() && s[j] == (s[i].0, lookup(s, s[i].0).unwrap());
    if j < i {
        crate::text::lemma_seq_less_irreflexive(s[i].0);
        assert(seq_less(s[j].0, s[i].0));
    } else if j > i {
        crate::text::lemma_seq_less_irreflexive(s[i].0);
        assert(seq_less(s[i].0, s[j].0));
    }
}

/// Filtering keeps only listed pairs.
proof fn lemma_retain_drawn(gens: Seq<(Seq<char>, u64)>, keep: spec_fn(Seq<char>) -> bool, k: int)
    requires
        0 <= k < retain_by(gens, keep).len(),
    ensures
        exists|m: int| 0 <= m < gens.len() && retain_by(gens, keep)[k] == #[trigger] gens[m],
    decreases gens.len(),
{
    if gens.len() > 0 {
        let g2 = gens.drop_last();
        let p = retain_by(g2, keep);
        if k < p.len() {
            lemma_retain_drawn(g2, keep, k);
            let m = choose|m: int| 0 <= m < g2.len() && p[k] == #[trigger] g2[m];
            assert(gens[m] == g2[m]);
        } else {
            assert(retain_by(gens, keep)[k] == gens[gens.len() - 1]);
        }
    }
}

/// Filtering keeps every accepted pair.
proof fn lemma_retain_keeps(gens: Seq<(Seq<char>, u64)>, keep: spec_fn(Seq<char>) -> bool, m: int)
    requires
        0 <= m < gens.len(),
        keep(gens[m].0),
    ensures
        exists|k: int| 0 <= k < retain_by(gens, keep).len() && #[trigger] retain_by(gens, keep)[k] == gens[m],
    decreases gens.len(),
{
    let g2 = gens.drop_last();
    let p = retain_by(g2, keep);
    if m < g2.len() {
        assert(g2[m] == gens[m]);
        lemma_retain_keeps(g2, keep, m);
        let k = choose|k: int| 0 <= k < p.len() && #[trigger] p[k] == g2[m];
        assert(retain_by(gens, keep)[k] == p[k]);
    } else {
        assert(retain_by(gens, keep)[p.len() as int] == gens[m]);
    }
}

/// Filtering a key-sorted association keeps it sorted.
proof fn lemma_retain_sorted(gens: Seq<(Seq<char>, u64)>, keep: spec_fn(Seq<char>) -> bool)
    requires
        keys_sorted(gens),
    ensures
        keys_sorted(retain_by(gens, keep)),
    decreases gens.len(),
{
    if gens.len() > 0 {
        let g2 = gens.drop_last();
        assert(keys_sorted(g2)) by {
            assert forall|i: int, j: int| 0 <= i < j < g2.len() implies seq_less(
                #[trigger] g2[i].0,
                #[trigger] g2[j].0,
            ) by {
                assert(g2[i] == gens[i] && g2[j] == gens[j]);
            }
        }
        lemma_retain_sorted(g2, keep);
        let p = retain_by(g2, keep);
        let r = retain_by(gens, keep);
        if keep(gens.last().0) {
            assert forall|i: int, j: int| 0 <= i < j < r.len() implies seq_less(
                #[trigger] r[i].0,
                #[trigger] r[j].0,
            ) by {
                if j == p.len() {
                    lemma_retain_drawn(g2, keep, i);
                    let m = choose|m: int| 0 <= m < g2.len() && p[i] == #[trigger] g2[m];
                    assert(gens[m] == g2[m]);
                    assert(seq_less(gens[m].0, gens[gens.len() - 1].0));
                } else {
                    assert(r[i] == p[i] && r[j] == p[j]);
                }
            }
        }
    }
}

/// Forgetting unpinned threads never changes the generation of a thread an
/// entry pins, so it never changes whether a resident entry is valid.
pub proof fn lemma_sweep_keeps_pins(
    gens: Seq<(Seq<char>, u64)>,
    entries: Seq<(CacheKey, CacheEntry)>,
    t: Seq<char>,
)
    requires
        keys_sorted(gens),
        pinned(entries, t),
    ensures
        generation_in(retain_pinned(gens, entries), t) == generation_in(gens, t),
{
    let keep = |x: Seq<char>| pinned(entries, x);
    let r = retain_by(gens, keep);
    lemma_retain_sorted(gens, keep);
    lemma_lookup_some_iff(gens, t);
    lemma_lookup_some_iff(r, t);
    if lookup(gens, t) is Some {
        let m = choose|m: int| 0 <= m < gens.len() && gens[m] == (t, lookup(gens, t).unwrap());
        assert(keep(gens[m].0));
        lemma_retain_keeps(gens, keep, m);
        let k = choose|k: int| 0 <= k < r.len() && #[trigger] r[k] == gens[m];
        lemma_sorted_lookup(r, k);
    } else {
        if lookup(r, t) is Some {
            let k = choose|k: int| 0 <= k < r.len() && r[k].0 == t;
            lemma_retain_drawn(gens, keep, k);
            let m = choose|m: int| 0 <= m < gens.len() && r[k] == #[trigger] gens[m];
            assert(gens[m].0 == t);
        }
    }
}

/// Cutting a thread invalidates every entry that was valid and pinned it: the
/// thread's generation moves past the pin.
pub proof fn lemma_cut_invalidates(
    gens: Seq<(Seq<char>, u64)>,
    t: Seq<char>,
    e: CacheEntry,
    before: Option<Time>,
    after: Option<Time>,
)
    requires
        keys_sorted(gens),
        entry_valid(gens, e, before),
        exists|i: int| 0 <= i < e.edges@.len() && (#[trigger] e.edges@[i]).0@ == t,
    ensures
        !entry_valid(
            insert_sorted(gens, t, vstd::wrapping::u64_specs::wrapping_add(generation_in(gens, t), 1)),
            e,
            after,
        ),
{
    let g = generation_in(gens, t);
    let ng = vstd::wrapping::u64_specs::wrapping_add(g, 1);
    lemma_insert_sorted(gens, t, ng);
    let i = choose|i: int| 0 <= i < e.edges@.len() && (#[trigger] e.edges@[i]).0@ == t;
    assert(e.edges@[i].1 == g);
    assert(generation_in(insert_sorted(gens, t, ng), e.edges@[i].0@) == ng);
}

/// A cut made after a snapshot is seen by the race check: a later store of
/// anything that depends on the cut thread is declined.
pub proof fn lemma_cut_after_snapshot_declines(
    cuts: Seq<(Seq<char>, u64)>,
    horizon: u64,
    taken: u64,
    t: Seq<char>,
    threads: Set<Seq<char>>,
    n: nat,
)
    requires
        taken < u64::MAX,
        threads.contains(t),
        n > 0,
    ensures
        raced(horizon, cuts.push((t, (taken + 1) as u64)), threads, n, taken),
{
    assert(cuts.push((t, (taken + 1) as u64)).drop_last() =~= cuts);
}

/// The cut log, horizon and counter after one cut of `t`.
pub open spec fn log_after(
    log: Seq<(Seq<char>, u64)>,
    horizon: u64,
    seq: u64,
    t: Seq<char>,
) -> (Seq<(Seq<char>, u64)>, u64, u64) {
    let next = vstd::wrapping::u64_specs::wrapping_add(seq, 1);
    if log.len() >= CUT_LOG {
        (log.drop_first().push((t, next)), log[0].1, next)
    } else {
        (log.push((t, next)), horizon, next)
    }
}

/// The cut log, horizon and counter after cutting each of `cuts`, in order.
pub open spec fn log_after_cuts(
    log: Seq<(Seq<char>, u64)>,
    horizon: u64,
    seq: u64,
    cuts: Seq<Seq<char>>,
) -> (Seq<(Seq<char>, u64)>, u64, u64)
    decreases cuts.len(),
{
    if cuts.len() == 0 {
        (log, horizon, seq)
    } else {
        let prev = log_after_cuts(log, horizon, seq, cuts.drop_last());
        log_after(prev.0, prev.1, prev.2, cuts.last())
    }
}

/// A well-kept cut log: at most `CUT_LOG` cuts, their sequence numbers
/// rising, each after the horizon and none after the counter.
pub open spec fn log_ok(log: Seq<(Seq<char>, u64)>, horizon: u64, seq: u64) -> bool {
    &&& log.len() <= CUT_LOG
    &&& horizon <= seq
    &&& forall|i: int, j: int| 0 <= i < j < log.len() ==> (#[trigger] log[i]).1 < (#[trigger] log[j]).1
    &&& forall|i: int| 0 <= i < log.len() ==> horizon < (#[trigger] log[i]).1 <= seq
}

/// The cuts made after a counter reading of `seq`, numbered from `seq + 1`.
pub open spec fn numbered(cuts: Seq<Seq<char>>, seq: u64) -> Seq<(Seq<char>, u64)> {
    Seq::new(cuts.len(), |i: int| (cuts[i], (seq + i + 1) as u64))
}

/// How many of `n` cuts the log has had to forget.
pub open spec fn forgotten(n: nat) -> nat {
    if n > CUT_LOG {
        (n - CUT_LOG) as nat
    } else {
        0
    }
}

proof fn lemma_log_after_cuts_form(
    log: Seq<(Seq<char>, u64)>,
    horizon: u64,
    seq: u64,
    cuts: Seq<Seq<char>>,
)
    requires
        log.len() <= CUT_LOG,
        seq + cuts.len() <= u64::MAX,
    ensures
        ({
            let r = log_after_cuts(log, horizon, seq, cuts);
            let all = log + numbered(cuts, seq);
            let d = forgotten(all.len());
            &&& r.2 == seq + cuts.len()
            &&& r.0 == all.skip(d as int)
            &&& r.1 == (if d == 0 {
                horizon
            } else {
                all[d - 1].1
            })
        }),
    decreases cuts.len(),
{
    if cuts.len() == 0 {
        assert(log + numbered(cuts, seq) =~= log);
        assert(log.skip(0) =~= log);
    } else {
        let c2 = cuts.drop_last();
        lemma_log_after_cuts_form(log, horizon, seq, c2);
        let prev = log_after_cuts(log, horizon, seq, c2);
        let all2 = log + numbered(c2, seq);
        let all = log + numbered(cuts, seq);
        let d2 = forgotten(all2.len());
        let t = cuts.last();
        let next = (seq + cuts.len()) as u64;
        assert(all =~= all2.push((t, next)));
        assert(prev.0 == all2.skip(d2 as int));
        assert(vstd::wrapping::u64_specs::wrapping_add(prev.2, 1) == next);
        if prev.0.len() >= CUT_LOG {
            assert(forgotten(all.len()) == d2 + 1);
            assert(prev.0[0] == all2[d2 as int]);
            assert(prev.0.drop_first().push((t, next)) =~= all.skip(d2 + 1 as int));
            assert(all[d2 as int] == all2[d2 as int]);
        } else {
            assert(d2 == 0);
            assert(forgotten(all.len()) == 0);
            assert(all2.skip(0) =~= all2);
            assert(all.skip(0) =~= all);
        }
    }
}

proof fn lemma_cut_in_log_rising(cuts: Seq<(Seq<char>, u64)>, threads: Set<Seq<char>>, taken: u64)
    requires
        forall|i: int, j: int| 0 <= i < j < cuts.len() ==> (#[trigger] cuts[i]).1 < (#[trigger] cuts[j]).1,
    ensures
        cut_in_log(cuts, threads, taken) <==> exists|i: int|
            0 <= i < cuts.len() && (#[trigger] cuts[i]).1 > taken && threads.contains(cuts[i].0),
    decreases cuts.len(),
{
    if cuts.len() > 0 {
        let p = cuts.drop_last();
        lemma_cut_in_log_rising(p, threads, taken);
        if exists|i: int| 0 <= i < cuts.len() && (#[trigger] cuts[i]).1 > taken && threads.contains(cuts[i].0) {
            let i = choose|i: int| 0 <= i < cuts.len() && (#[trigger] cuts[i]).1 > taken && threads.contains(cuts[i].0);
            if i < cuts.len() - 1 {
                assert(p[i] == cuts[i]);
                assert(cuts[i].1 < cuts[cuts.len() - 1].1);
            }
        }
        if cut_in_log(p, threads, taken) && cuts.last().1 > taken {
            let i = choose|i: int| 0 <= i < p.len() && (#[trigger] p[i]).1 > taken && threads.contains(p[i].0);
            assert(cuts[i] == p[i]);
        }
    }
}

/// What the race check sees of the cuts made since a snapshot. With the
/// snapshot taken at counter `seq`, and `cuts` cut in order after it: while
/// the log still holds them all, a store of a representation with threads is
/// declined exactly when one of them named one of its threads, so a cut to
/// any other thread never costs the store; once more were cut than the log
/// remembers, a store with threads is declined whatever they named; and a
/// store without threads is never raced.
pub proof fn lemma_cuts_since_snapshot(
    log: Seq<(Seq<char>, u64)>,
    horizon: u64,
    seq: u64,
    cuts: Seq<Seq<char>>,
    threads: Set<Seq<char>>,
    n: nat,
)
    requires
        log_ok(log, horizon, seq),
        seq + cuts.len() <= u64::MAX,
    ensures
        ({
            let r = log_after_cuts(log, horizon, seq, cuts);
            &&& cuts.len() <= CUT_LOG ==> (raced(r.1, r.0, threads, n, seq) <==> (n > 0 && exists|i: int|
                0 <= i < cuts.len() && threads.contains(#[trigger] cuts[i])))
            &&& cuts.len() > CUT_LOG ==> (raced(r.1, r.0, threads, n, seq) <==> n > 0)
        }),
{
    lemma_log_after_cuts_form(log, horizon, seq, cuts);
    let r = log_after_cuts(log, horizon, seq, cuts);
    let nb = numbered(cuts, seq);
    let all = log + nb;
    let d = forgotten(all.len());
    assert forall|i: int, j: int| 0 <= i < j < all.len() implies (#[trigger] all[i]).1 < (#[trigger] all[j]).1 by {
        if j < log.len() {
        } else if i < log.len() {
            assert(all[i] == log[i]);
            assert(all[j] == nb[j - log.len()]);
        } else {
            assert(all[i] == nb[i - log.len()]);
            assert(all[j] == nb[j - log.len()]);
        }
    }
    let l2 = r.0;
    assert forall|i: int, j: int| 0 <= i < j < l2.len() implies (#[trigger] l2[i]).1 < (#[trigger] l2[j]).1 by {
        assert(l2[i] == all[i + d]);
        assert(l2[j] == all[j + d]);
    }
    lemma_cut_in_log_rising(l2, threads, seq);
    if cuts.len() <= CUT_LOG {
        assert(d <= log.len());
        if d > 0 {
            assert(all[d - 1] == log[d - 1]);
        }
        assert(r.1 <= seq);
        if exists|i: int| 0 <= i < l2.len() && (#[trigger] l2[i]).1 > seq && threads.contains(l2[i].0) {
            let i = choose|i: int| 0 <= i < l2.len() && (#[trigger] l2[i]).1 > seq && threads.contains(l2[i].0);
            assert(l2[i] == all[i + d]);
            if i + d < log.len() {
                assert(all[i + d] == log[i + d]);
            } else {
                assert(all[i + d] == nb[i + d - log.len()]);
                assert(threads.contains(cuts[i + d - log.len()]));
            }
        }
        if exists|k: int| 0 <= k < cuts.len() && threads.contains(#[trigger] cuts[k]) {
            let k = choose|k: int| 0 <= k < cuts.len() && threads.contains(#[trigger] cuts[k]);
            let i = log.len() + k - d;
            assert(all[log.len() + k] == nb[k]);
            assert(l2[i] == all[i + d]);
            assert(l2[i].1 > seq && threads.contains(l2[i].0));
        }
    } else {
        assert(d > log.len());
        assert(all[d - 1] == nb[d - 1 - log.len()]);
        assert(r.1 > seq);
    }
}

/// Whether a store succeeds after cuts made since its snapshot. Take the
/// snapshot at counter `seq` with the cut log `log` and `horizon` (the
/// snapshot guarantees `log_ok`), then cut each of `cuts` in order (each
/// `cut` moves the log by `log_after`), then store a representation with
/// `n` golden threads `threads` that the policy would admit exactly when
/// `admitted`. `store` declines a raced store and otherwise stores exactly
/// what is admitted; so:
/// - while the log still holds every cut since the snapshot, the store
///   succeeds exactly when it is admitted and no cut named one of its
///   threads;
/// - once more were cut than the log remembers, a store with threads fails;
/// - a store without threads is never raced: it succeeds when admitted.
pub proof fn lemma_store_after_cuts(
    log: Seq<(Seq<char>, u64)>,
    horizon: u64,
    seq: u64,
    cuts: Seq<Seq<char>>,
    threads: Set<Seq<char>>,
    n: nat,
    admitted: bool,
    stored: bool,
)
    requires
        log_ok(log, horizon, seq),
        seq + cuts.len() <= u64::MAX,
        ({
            let r = log_after_cuts(log, horizon, seq, cuts);
            &&& raced(r.1, r.0, threads, n, seq) ==> !stored
            &&& !raced(r.1, r.0, threads, n, seq) ==> (stored == admitted)
        }),
    ensures
        cuts.len() <= CUT_LOG ==> (stored == (admitted && (n == 0 || forall|i: int|
            0 <= i < cuts.len() ==> !threads.contains(#[trigger] cuts[i])))),
        cuts.len() > CUT_LOG && n > 0 ==> !stored,
        n == 0 ==> stored == admitted,
{
    lemma_cuts_since_snapshot(log, horizon, seq, cuts, threads, n);
}

/// What `store` files: the representation, its threads pinned at their
/// current generations, no hits yet, stamped with `tick`.
pub open spec fn fresh_entry(
    e: CacheEntry,
    target: Seq<char>,
    representation: Representation,
    gens: Seq<(Seq<char>, u64)>,
    cost_millis: Option<u64>,
    tick: u64,
) -> bool {
    &&& e.target@ == target
    &&& e.representation == representation
    &&& edges_view(&e) == representation.threads.elems().map_values(
        |t: Seq<char>| (t, generation_in(gens, t)),
    )
    &&& e.cost_millis == cost_millis
    &&& e.hits == 0
    &&& e.stored_tick == tick
    &&& e.last_used_tick == tick
}

/// The entries with `(k, e)` put in: replacing the entry under `k`, or added
/// at the end.
pub open spec fn placed(entries: Seq<(CacheKey, CacheEntry)>, k: CacheKey, e: CacheEntry) -> Seq<
    (CacheKey, CacheEntry),
> {
    match index_of_key(entries, k, 0) {
        Some(i) => entries.update(i, (k, e)),
        None => entries.push((k, e)),
    }
}

/// Whether every entry of `sub` is one of `sup`.
pub open spec fn drawn_from(sub: Seq<(CacheKey, CacheEntry)>, sup: Seq<(CacheKey, CacheEntry)>) -> bool {
    forall|j: int| 0 <= j < sub.len() ==> sup.contains(#[trigger] sub[j])
}

/// The payload bytes of `entries`, saturating.
fn sum_bytes(entries: &Vec<(CacheKey, CacheEntry)>) -> (r: usize)
    ensures
        r == sat_usize(total_bytes(entries@)),
{
    let mut acc: usize = 0;
    let mut i: usize = 0;
    while i < entries.len()
        invariant
            i <= entries@.len(),
            acc == sat_usize(total_bytes(entries@.take(i as int))),
        decreases entries@.len() - i,
    {
        proof {
            assert(entries@.take(i + 1).drop_last() =~= entries@.take(i as int));
            assert(entries@.take(i + 1).last() == entries@[i as int]);
            assert(total_bytes(entries@.take(i + 1)) == total_bytes(entries@.take(i as int))
                + entries@[i as int].1.representation.bytes@.len());
        }
        let b = entries[i].1.bytes();
        let ghost t = total_bytes(entries@.take(i as int));
        assert(b == entries@[i as int].1.representation.bytes@.len());
        let ghost a0 = acc;
        acc = acc.saturating_add(b);
        proof {
            if t > usize::MAX {
                assert(a0 == usize::MAX);
                assert(acc == usize::MAX);
            } else {
                assert(a0 == t);
            }
        }
        assert(acc == sat_usize((t + b) as nat));
        i = i + 1;
    }
    proof {
        assert(entries@.take(entries@.len() as int) =~= entries@);
    }
    acc
}

/// Whether some entry pins `t`, computed.
fn is_pinned(entries: &Vec<(CacheKey, CacheEntry)>, t: &str) -> (r: bool)
    ensures
        r == pinned(entries@, t@),
{
    let mut i: usize = 0;
    while i < entries.len()
        invariant
            i <= entries@.len(),
            forall|a: int, b: int|
                0 <= a < i && 0 <= b < entries@[a].1.edges@.len() ==> (
                #[trigger] entries@[a].1.edges@[b]).0@ != t@,
        decreases entries@.len() - i,
    {
        let edges = &entries[i].1.edges;
        let mut j: usize = 0;
        while j < edges.len()
            invariant
                i < entries@.len(),
                j <= edges@.len(),
                edges@ == entries@[i as int].1.edges@,
                forall|b: int| 0 <= b < j ==> (#[trigger] edges@[b]).0@ != t@,
            decreases edges@.len() - j,
        {
            if str_eq(edges[j].0.as_str(), t) {
                assert(pinned(entries@, t@)) by {
                    reveal(pinned);
                    assert(entries@[i as int].1.edges@[j as int].0@ == t@);
                }
                return true;
            }
            j = j + 1;
        }
        i = i + 1;
    }
    assert(!pinned(entries@, t@)) by {
        reveal(pinned);
    }
    false
}

/// What the policy sees of each resident entry, in order.
pub open spec fn entry_facts(entries: Seq<(CacheKey, CacheEntry)>) -> Seq<FactsView> {
    entries.map_values(|p: (CacheKey, CacheEntry)| facts_of(&p.1))
}

/// The entries left once `policy` has evicted its victims, one at a time,
/// for as long as they exceed `cap` and it names a resident one.
pub open spec fn evicted<P: CachePolicy>(
    policy: P,
    entries: Seq<(CacheKey, CacheEntry)>,
    cap: CacheBound,
) -> Seq<(CacheKey, CacheEntry)>
    decreases entries.len(),
{
    if within(entries, cap) {
        entries
    } else {
        match policy.spec_victim(entry_facts(entries)) {
            Some(i) => if 0 <= i < entries.len() {
                evicted(policy, entries.remove(i), cap)
            } else {
                entries
            },
            None => entries,
        }
    }
}

/// Nothing is evicted from entries that fit the bound.
pub proof fn lemma_within_bound_evicts_nothing<P: CachePolicy>(
    policy: P,
    entries: Seq<(CacheKey, CacheEntry)>,
    cap: CacheBound,
)
    requires
        within(entries, cap),
    ensures
        evicted(policy, entries, cap) == entries,
{
}

/// Evict until `cap` is met, or until the policy declines to name a resident
/// victim.
fn evict<P: CachePolicy>(policy: &P, entries: &mut Vec<(CacheKey, CacheEntry)>, cap: CacheBound)
    requires
        keys_unique(old(entries)@),
    ensures
        keys_unique(final(entries)@),
        drawn_from(final(entries)@, old(entries)@),
        final(entries)@ == evicted(*policy, old(entries)@, cap),
        policy.names_victims() ==> within(final(entries)@, cap),
{
    let ghost start = entries@;
    proof {
        assert forall|j: int| 0 <= j < entries@.len() implies start.contains(
            #[trigger] entries@[j],
        ) by {
            assert(entries@[j] == start[j]);
        }
    }
    loop
        invariant
            keys_unique(entries@),
            drawn_from(entries@, start),
            evicted(*policy, entries@, cap) == evicted(*policy, start, cap),
        ensures
            keys_unique(entries@),
            drawn_from(entries@, start),
            entries@ == evicted(*policy, start, cap),
            policy.names_victims() ==> within(entries@, cap),
        decreases entries@.len(),
    {
        let total = sum_bytes(entries);
        if entries.len() <= cap.max_entries && total <= cap.max_bytes {
            break ;
        }
        let mut facts: Vec<EntryFacts<'_>> = Vec::new();
        let mut i: usize = 0;
        while i < entries.len()
            invariant
                i <= entries@.len(),
                facts@.len() == i,
                forall|k: int| 0 <= k < i ==> (#[trigger] facts@[k])@ == facts_of(&entries@[k].1),
            decreases entries@.len() - i,
        {
            facts.push(entries[i].1.facts());
            i = i + 1;
        }
        proof {
            if entries@.len() == 0 {
                assert(total_bytes(entries@) == 0);
            }
            assert(views(facts@) =~= entry_facts(entries@));
            assert(!within(entries@, cap));
        }
        match policy.victim(facts.as_slice()) {
            None => {
                break ;
            },
            Some(ix) => {
                if ix >= entries.len() {
                    break ;
                }
                let ghost before = entries@;
                entries.remove(ix);
                proof {
                    assert forall|a: int| 0 <= a < entries@.len() implies #[trigger] entries@[a]
                        == before[if a < ix {
                        a
                    } else {
                        a + 1
                    }] by {}
                    assert forall|j: int| 0 <= j < entries@.len() implies start.contains(
                        #[trigger] entries@[j],
                    ) by {
                        let o = if j < ix {
                            j
                        } else {
                            j + 1
                        };
                        assert(entries@[j] == before[o]);
                        assert(before.contains(before[o]));
                    }
                    assert forall|a: int, b: int|
                        0 <= a < b < entries@.len() implies key_view((#[trigger] entries@[a]).0)
                        != key_view((#[trigger] entries@[b]).0) by {
                        let oa = if a < ix {
                            a
                        } else {
                            a + 1
                        };
                        let ob = if b < ix {
                            b
                        } else {
                            b + 1
                        };
                        assert(entries@[a] == before[oa]);
                        assert(entries@[b] == before[ob]);
                    }
                }
            },
        }
    }
}

impl<P: CachePolicy> ReprCache<P> {
    /// Cut a golden thread: bump its generation, invalidating every entry
    /// pinned to an earlier one, and log the cut with the next sequence
    /// number (forgetting the oldest logged cut once the log is full).
    pub fn cut(&mut self, thread: Thread)
        requires
            old(self).spec_seq() < u64::MAX,
        ensures
            final(self).resident() == old(self).resident(),
            final(self).spec_tick() == old(self).spec_tick(),
            final(self).spec_policy() == old(self).spec_policy(),
            final(self).gens() == insert_sorted(
                old(self).gens(),
                thread@,
                vstd::wrapping::u64_specs::wrapping_add(generation_in(old(self).gens(), thread@), 1),
            ),
            final(self).spec_seq() == vstd::wrapping::u64_specs::wrapping_add(old(self).spec_seq(), 1),
            old(self).cut_log().len() >= CUT_LOG ==> final(self).spec_horizon() == old(
                self,
            ).cut_log()[0].1 && final(self).cut_log() == old(self).cut_log().drop_first().push(
                (thread@, final(self).spec_seq()),
            ),
            old(self).cut_log().len() < CUT_LOG ==> final(self).spec_horizon() == old(
                self,
            ).spec_horizon() && final(self).cut_log() == old(self).cut_log().push(
                (thread@, final(self).spec_seq()),
            ),
            (final(self).cut_log(), final(self).spec_horizon(), final(self).spec_seq()) == log_after(
                old(self).cut_log(),
                old(self).spec_horizon(),
                old(self).spec_seq(),
                thread@,
            ),
    {
        proof {
            use_type_invariant(&*self);
        }
        let name = crate::text::copy_str(thread.as_str());
        let g = self.generation_of(thread.as_str());
        let mut gens: Vec<(String, u64)> = Vec::new();
        std::mem::swap(&mut gens, &mut self.generations);
        kv_insert(&mut gens, crate::text::copy_str(thread.as_str()), g.wrapping_add(1));
        self.generations = gens;
        let seq = self.seq.wrapping_add(1);
        self.seq = seq;
        let mut cuts: Vec<(String, u64)> = Vec::new();
        std::mem::swap(&mut cuts, &mut self.cuts);
        let ghost old_log = kv_view(cuts@);
        if cuts.len() >= CUT_LOG {
            let ghost before = cuts@;
            let (_, forgotten) = cuts.remove(0);
            proof {
                assert(forgotten == before[0].1);
                assert(old_log[0] == (before[0].0@, before[0].1));
                assert(forgotten <= seq);
            }
            self.horizon = forgotten;
            proof {
                assert(kv_view(cuts@) =~= old_log.drop_first());
            }
        }
        let ghost mid = kv_view(cuts@);
        cuts.push((name, seq));
        proof {
            assert(kv_view(cuts@) =~= mid.push((thread@, seq)));
            let l = kv_view(cuts@);
            if old_log.len() >= CUT_LOG {
                assert forall|i: int| 0 <= i < mid.len() implies (#[trigger] mid[i]) == old_log[i + 1] by {}
                assert(old_log[0].1 < old_log[1].1);
            }
            assert forall|i: int, j: int| 0 <= i < j < l.len() implies (#[trigger] l[i]).1 < (#[trigger] l[j]).1 by {
                if j < l.len() - 1 {
                    assert(l[i] == mid[i] && l[j] == mid[j]);
                    if old_log.len() >= CUT_LOG {
                        assert(mid[i] == old_log[i + 1] && mid[j] == old_log[j + 1]);
                    }
                } else {
                    assert(l[i] == mid[i]);
                    if old_log.len() >= CUT_LOG {
                        assert(mid[i] == old_log[i + 1]);
                    }
                }
            }
            assert forall|i: int| 0 <= i < l.len() implies self.horizon < (#[trigger] l[i]).1 <= seq by {
                if i < l.len() - 1 {
                    assert(l[i] == mid[i]);
                    if old_log.len() >= CUT_LOG {
                        assert(mid[i] == old_log[i + 1]);
                        assert(old_log[0].1 < old_log[i + 1].1);
                    }
                }
            }
        }
        self.cuts = cuts;
    }

    fn sweep_generations(&mut self, max_entries: usize)
        ensures
            final(self).resident() == old(self).resident(),
            final(self).cut_log() == old(self).cut_log(),
            final(self).spec_horizon() == old(self).spec_horizon(),
            final(self).spec_seq() == old(self).spec_seq(),
            final(self).spec_tick() == old(self).spec_tick(),
            final(self).spec_policy() == old(self).spec_policy(),
            final(self).gens() == (if old(self).gens().len() > watermark(max_entries) {
                retain_pinned(old(self).gens(), old(self).resident())
            } else {
                old(self).gens()
            }),
    {
        proof {
            use_type_invariant(&*self);
        }
        let doubled: usize = match max_entries.checked_mul(2) {
            Some(d) => d,
            None => usize::MAX,
        };
        let mark: usize = if doubled < 1024 {
            1024
        } else {
            doubled
        };
        if self.generations.len() <= mark {
            return ;
        }
        let ghost g = kv_view(self.generations@);
        let mut kept: Vec<(String, u64)> = Vec::new();
        let mut i: usize = 0;
        while i < self.generations.len()
            invariant
                i <= self.generations@.len(),
                g == kv_view(self.generations@),
                kv_view(kept@) == retain_pinned(g.take(i as int), self.entries@),
            decreases self.generations@.len() - i,
        {
            proof {
                assert(g.take(i + 1).drop_last() =~= g.take(i as int));
            }
            let keep = is_pinned(&self.entries, self.generations[i].0.as_str());
            if keep {
                let ghost before = kv_view(kept@);
                kept.push((crate::text::copy_str(self.generations[i].0.as_str()), self.generations[i].1));
                proof {
                    assert(kv_view(kept@) =~= before.push(g[i as int]));
                }
            }
            i = i + 1;
        }
        proof {
            assert(g.take(g.len() as int) =~= g);
            lemma_retain_sorted(g, |t: Seq<char>| pinned(self.entries@, t));
        }
        self.generations = kept;
    }

    /// Store a computed representation, unless a thread it depends on was cut
    /// since `taken` (the lost-cut race) or the policy declines to admit it.
    /// Returns whether it was stored; then the bound is enforced and, past
    /// the watermark, threads no entry pins are forgotten.
    pub fn store(
        &mut self,
        key: CacheKey,
        target: String,
        representation: Representation,
        taken: CutSnapshot,
        cost_millis: Option<u64>,
    ) -> (r: bool)
        ensures
            final(self).cut_log() == old(self).cut_log(),
            final(self).spec_horizon() == old(self).spec_horizon(),
            final(self).spec_seq() == old(self).spec_seq(),
            final(self).spec_policy() == old(self).spec_policy(),
            raced(
                old(self).spec_horizon(),
                old(self).cut_log(),
                representation.spec_threads(),
                representation.threads.elems().len(),
                taken.position(),
            ) ==> !r && final(self).resident() == old(self).resident() && final(self).gens() == old(
                self,
            ).gens() && final(self).spec_tick() == old(self).spec_tick(),
            !raced(
                old(self).spec_horizon(),
                old(self).cut_log(),
                representation.spec_threads(),
                representation.threads.elems().len(),
                taken.position(),
            ) ==> final(self).spec_tick() == vstd::wrapping::u64_specs::wrapping_add(
                old(self).spec_tick(),
                1,
            ),
            !raced(
                old(self).spec_horizon(),
                old(self).cut_log(),
                representation.spec_threads(),
                representation.threads.elems().len(),
                taken.position(),
            ) ==> (r <==> old(self).spec_policy().spec_admits(
                candidate_facts(target@, representation, cost_millis, final(self).spec_tick()),
            )),
            !r ==> final(self).resident() == old(self).resident() && final(self).gens() == old(
                self,
            ).gens(),
            r ==> exists|e: CacheEntry|
                {
                    &&& fresh_entry(
                        e,
                        target@,
                        representation,
                        old(self).gens(),
                        cost_millis,
                        final(self).spec_tick(),
                    )
                    &&& drawn_from(final(self).resident(), placed(old(self).resident(), key, e))
                    &&& final(self).resident() == evicted(
                        old(self).spec_policy(),
                        placed(old(self).resident(), key, e),
                        old(self).spec_policy().spec_capacity(),
                    )
                },
            r && old(self).spec_policy().names_victims() ==> within(
                final(self).resident(),
                old(self).spec_policy().spec_capacity(),
            ),
            r ==> final(self).gens() == (if old(self).gens().len() > watermark(
                old(self).spec_policy().spec_capacity().max_entries,
            ) {
                retain_pinned(old(self).gens(), final(self).resident())
            } else {
                old(self).gens()
            }),
    {
        proof {
            use_type_invariant(&*self);
        }
        // the race check: a thread this result depends on cut since `taken`
        if self.cut_since(&representation.threads, taken) {
            return false;
        }
        // pin each thread at its current generation
        let names = representation.threads.to_vec();
        let mut edges: Vec<(Thread, u64)> = Vec::new();
        let mut i: usize = 0;
        while i < names.len()
            invariant
                i <= names@.len(),
                names@.map_values(|x: String| x@) == representation.threads.elems(),
                edges@.len() == i,
                forall|j: int|
                    0 <= j < i ==> (#[trigger] edges@[j]).0@ == names@[j]@ && edges@[j].1
                        == generation_in(self.gens(), names@[j]@),
            decreases names@.len() - i,
        {
            let g = self.generation_of(names[i].as_str());
            edges.push((Thread::new(names[i].as_str()), g));
            i = i + 1;
        }
        let tick = self.tick.wrapping_add(1);
        self.tick = tick;
        let entry = CacheEntry {
            target,
            representation,
            edges,
            cost_millis,
            hits: 0,
            stored_tick: tick,
            last_used_tick: tick,
        };
        proof {
            assert(edges_view(&entry) =~= entry.representation.threads.elems().map_values(
                |t: Seq<char>| (t, generation_in(self.gens(), t)),
            )) by {
                assert forall|j: int| 0 <= j < edges_view(&entry).len() implies edges_view(&entry)[j]
                    == entry.representation.threads.elems().map_values(
                    |t: Seq<char>| (t, generation_in(self.gens(), t)),
                )[j] by {
                    assert(names@.map_values(|x: String| x@)[j] == names@[j]@);
                }
            }
        }
        let facts = entry.facts();
        assert(facts@ == candidate_facts(target@, representation, cost_millis, tick));
        if !self.policy.admits(&facts) {
            return false;
        }
        let ghost e = entry;
        let mut entries: Vec<(CacheKey, CacheEntry)> = Vec::new();
        std::mem::swap(&mut entries, &mut self.entries);
        let ghost before = entries@;
        match self.find_in(&entries, &key) {
            Some(ix) => {
                entries.set(ix, (key, entry));
            },
            None => {
                entries.push((key, entry));
            },
        }
        proof {
            assert(entries@ == placed(before, key, e));
            assert forall|a: int, b: int|
                0 <= a < b < entries@.len() implies key_view((#[trigger] entries@[a]).0) != key_view(
                (#[trigger] entries@[b]).0,
            ) by {
                match index_of_key(before, key, 0) {
                    Some(ix) => {
                        lemma_index_of_key(before, key, 0);
                        if a != ix && b != ix {
                            assert(entries@[a] == before[a] && entries@[b] == before[b]);
                        } else if a == ix {
                            assert(entries@[b] == before[b]);
                            assert(key_view(before[ix].0) == key_view(key));
                        } else {
                            assert(entries@[a] == before[a]);
                            assert(key_view(before[ix].0) == key_view(key));
                        }
                    },
                    None => {
                        lemma_index_of_key(before, key, 0);
                        if b == before.len() {
                            assert(entries@[a] == before[a]);
                        } else {
                            assert(entries@[a] == before[a] && entries@[b] == before[b]);
                        }
                    },
                }
            }
        }
        let cap = self.policy.capacity();
        let ghost placed_entries = entries@;
        evict(&self.policy, &mut entries, cap);
        self.entries = entries;
        self.sweep_generations(cap.max_entries);
        proof {
            assert(fresh_entry(e, target@, representation, old(self).gens(), cost_millis, tick));
            assert(drawn_from(self.resident(), placed(old(self).resident(), key, e)));
            assert(self.resident() == evicted(
                old(self).spec_policy(),
                placed(old(self).resident(), key, e),
                old(self).spec_policy().spec_capacity(),
            ));
        }
        true
    }

    /// Whether any of `threads` was cut after `taken`, or the log can no
    /// longer tell.
    fn cut_since(&self, threads: &StrSet, taken: CutSnapshot) -> (r: bool)
        ensures
            r == raced(
                self.spec_horizon(),
                self.cut_log(),
                threads@,
                threads.elems().len(),
                taken.position(),
            ),
    {
        if threads.len() == 0 {
            return false;
        }
        if taken.0 < self.horizon {
            return true;
        }
        let ghost log = kv_view(self.cuts@);
        let mut k: usize = self.cuts.len();
        proof {
            assert(log.take(log.len() as int) =~= log);
        }
        while k > 0
            invariant
                k <= self.cuts@.len(),
                log == kv_view(self.cuts@),
                threads.elems().len() > 0,
                taken.0 >= self.horizon,
                cut_in_log(log, threads@, taken.0) == cut_in_log(log.take(k as int), threads@, taken.0),
            decreases k,
        {
            proof {
                assert(log.take(k as int).drop_last() =~= log.take(k - 1));
                assert(log.take(k as int).last() == log[k - 1]);
                assert(log[k - 1] == (self.cuts@[k - 1].0@, self.cuts@[k - 1].1));
            }
            if self.cuts[k - 1].1 <= taken.0 {
                return false;
            }
            if threads.contains(self.cuts[k - 1].0.as_str()) {
                return true;
            }
            k = k - 1;
        }
        proof {
            assert(log.take(0) =~= Seq::<(Seq<char>, u64)>::empty());
        }
        false
    }

    fn find_in(&self, entries: &Vec<(CacheKey, CacheEntry)>, key: &CacheKey) -> (r: Option<usize>)
        ensures
            match r {
                Some(i) => index_of_key(entries@, *key, 0) == Some(i as int) && i < entries@.len(),
                None => index_of_key(entries@, *key, 0) is None,
            },
    {
        let mut i: usize = 0;
        while i < entries.len()
            invariant
                i <= entries@.len(),
                index_of_key(entries@, *key, 0) == index_of_key(entries@, *key, i as int),
            decreases entries@.len() - i,
        {
            if entries[i].0.same(key) {
                return Some(i);
            }
            i = i + 1;
        }
        None
    }

    /// The number of entries currently held.
    pub fn len(&self) -> (r: usize)
        ensures
            r == self.resident().len(),
    {
        self.entries.len()
    }

    /// Whether the cache is empty.
    pub fn is_empty(&self) -> (r: bool)
        ensures
            r == (self.resident().len() == 0),
    {
        self.entries.len() == 0
    }

    /// Total payload bytes currently held (saturating).
    pub fn bytes(&self) -> (r: usize)
        ensures
            r == sat_usize(total_bytes(self.resident())),
    {
        sum_bytes(&self.entries)
    }

    /// The bound in force.
    pub fn bound(&self) -> (r: CacheBound)
        ensures
            r == self.spec_policy().spec_capacity(),
    {
        self.policy.capacity()
    }

    /// One row per entry: the IRI it was resolved from, its media type, its
    /// size in bytes, and how many golden threads it depends on.
    pub fn rows(&self) -> (r: Vec<(String, String, usize, usize)>)
        ensures
            r@.len() == self.resident().len(),
            forall|i: int|
                0 <= i < r@.len() ==> {
                    let e = self.resident()[i].1;
                    &&& (#[trigger] r@[i]).0@ == e.target@
                    &&& r@[i].1@ == e.representation.repr_type.spec_media_type()
                    &&& r@[i].2 == e.representation.bytes@.len()
                    &&& r@[i].3 == e.edges@.len()
                },
    {
        let mut out: Vec<(String, String, usize, usize)> = Vec::new();
        let mut i: usize = 0;
        while i < self.entries.len()
            invariant
                i <= self.entries@.len(),
                out@.len() == i,
                forall|k: int|
                    0 <= k < i ==> {
                        let e = self.entries@[k].1;
                        &&& (#[trigger] out@[k]).0@ == e.target@
                        &&& out@[k].1@ == e.representation.repr_type.spec_media_type()
                        &&& out@[k].2 == e.representation.bytes@.len()
                        &&& out@[k].3 == e.edges@.len()
                    },
            decreases self.entries@.len() - i,
        {
            let e = &self.entries[i].1;
            out.push(
                (
                    crate::text::copy_str(e.target.as_str()),
                    crate::text::copy_str(e.representation.repr_type.media_type()),
                    e.bytes(),
                    e.edges.len(),
                ),
            );
            i = i + 1;
        }
        out
    }

    /// One row per tracked thread: its name and its generation.
    pub fn generation_rows(&self) -> (r: Vec<(String, u64)>)
        ensures
            kv_view(r@) == self.gens(),
    {
        let mut out: Vec<(String, u64)> = Vec::new();
        let mut i: usize = 0;
        while i < self.generations.len()
            invariant
                i <= self.generations@.len(),
                kv_view(out@) == kv_view(self.generations@).take(i as int),
            decreases self.generations@.len() - i,
        {
            let ghost before = kv_view(out@);
            out.push((crate::text::copy_str(self.generations[i].0.as_str()), self.generations[i].1));
            proof {
                assert(kv_view(out@) =~= before.push(kv_view(self.generations@)[i as int]));
                assert(kv_view(self.generations@).take(i + 1) =~= kv_view(self.generations@).take(
                    i as int,
                ).push(kv_view(self.generations@)[i as int]));
            }
            i = i + 1;
        }
        proof {
            assert(kv_view(self.generations@).take(self.generations@.len() as int) =~= kv_view(
                self.generations@,
            ));
        }
        out
    }
}

/// What `index_of_key` finds: the first entry under `k`.
pub proof fn lemma_index_of_key(entries: Seq<(CacheKey, CacheEntry)>, k: CacheKey, from: int)
    requires
        0 <= from,
    ensures
        match index_of_key(entries, k, from) {
            Some(i) => from <= i < entries.len() && key_view(entries[i].0) == key_view(k) && forall|j: int|
                from <= j < i ==> key_view(#[trigger] entries[j].0) != key_view(k),
            None => forall|j: int| from <= j < entries.len() ==> key_view(#[trigger] entries[j].0) != key_view(k),
        },
    decreases entries.len() - from,
{
    if from < entries.len() && key_view(entries[from].0) != key_view(k) {
        lemma_index_of_key(entries, k, from + 1);
    }
}

/// What is stored is what is served: after `store` put the fresh entry `e`
/// under `key`, the entry found under `key` (unless the bound evicted it) is
/// `e`, and it is valid for as long as every thread it pinned stands at the
/// generation it was stored under and its deadline, if any, is ahead.
pub proof fn lemma_stored_is_served(
    resident: Seq<(CacheKey, CacheEntry)>,
    after: Seq<(CacheKey, CacheEntry)>,
    key: CacheKey,
    e: CacheEntry,
    target: Seq<char>,
    representation: Representation,
    gens: Seq<(Seq<char>, u64)>,
    cost_millis: Option<u64>,
    tick: u64,
    now: Option<Time>,
    i: int,
)
    requires
        keys_unique(resident),
        fresh_entry(e, target, representation, gens, cost_millis, tick),
        drawn_from(after, placed(resident, key, e)),
        0 <= i < after.len(),
        key_view(after[i].0) == key_view(key),
        match representation.expiry {
            Expiry::At(d) => now matches Some(n) && n.0 < d.0,
            _ => true,
        },
    ensures
        after[i].1 == e,
        entry_valid(gens, after[i].1, now),
{
    let p = placed(resident, key, e);
    lemma_index_of_key(resident, key, 0);
    assert(p.contains(after[i]));
    let j = choose|j: int| 0 <= j < p.len() && p[j] == after[i];
    match index_of_key(resident, key, 0) {
        Some(q) => {
            if j != q {
                assert(p[j] == resident[j]);
                if j < q {
                    assert(key_view(resident[j].0) != key_view(resident[q].0));
                } else {
                    assert(key_view(resident[q].0) != key_view(resident[j].0));
                }
            }
        },
        None => {
            if j < resident.len() {
                assert(p[j] == resident[j]);
            }
        },
    }
    assert(after[i].1 == e);
    assert forall|k: int| 0 <= k < e.edges@.len() implies generation_in(
        gens,
        (#[trigger] e.edges@[k]).0@,
    ) == e.edges@[k].1 by {
        let m = representation.threads.elems().map_values(
            |t: Seq<char>| (t, generation_in(gens, t)),
        );
        assert(edges_view(&e).len() == e.edges@.len());
        assert(edges_view(&e)[k] == (e.edges@[k].0@, e.edges@[k].1));
        assert(m[k] == (representation.threads.elems()[k], generation_in(
            gens,
            representation.threads.elems()[k],
        )));
    }
}

/// While the cache is within its bound, what is stored is served: when the
/// resident entries with the fresh entry `e` placed under `key` fit the
/// policy's bound, `store` evicts nothing, and `e` is served under `key` for
/// as long as the threads it pinned stand and its deadline, if any, is ahead.
pub proof fn lemma_stored_is_served_within_bound<P: CachePolicy>(
    policy: P,
    resident: Seq<(CacheKey, CacheEntry)>,
    key: CacheKey,
    e: CacheEntry,
    target: Seq<char>,
    representation: Representation,
    gens: Seq<(Seq<char>, u64)>,
    cost_millis: Option<u64>,
    tick: u64,
    now: Option<Time>,
)
    requires
        keys_unique(resident),
        fresh_entry(e, target, representation, gens, cost_millis, tick),
        within(placed(resident, key, e), policy.spec_capacity()),
        match representation.expiry {
            Expiry::At(d) => now matches Some(n) && n.0 < d.0,
            _ => true,
        },
    ensures
        evicted(policy, placed(resident, key, e), policy.spec_capacity()) == placed(resident, key, e),
        serves_now(evicted(policy, placed(resident, key, e), policy.spec_capacity()), gens, key, now),
{
    let p = placed(resident, key, e);
    lemma_index_of_key(resident, key, 0);
    lemma_index_of_key(p, key, 0);
    match index_of_key(resident, key, 0) {
        Some(q) => {
            assert(key_view(p[q].0) == key_view(key));
        },
        None => {
            assert(key_view(p[resident.len() as int].0) == key_view(key));
        },
    }
    let i = index_of_key(p, key, 0).unwrap();
    assert(drawn_from(p, p)) by {
        assert forall|j: int| 0 <= j < p.len() implies p.contains(#[trigger] p[j]) by {}
    }
    lemma_stored_is_served(resident, p, key, e, target, representation, gens, cost_millis, tick, now, i);
}

impl Default for ReprCache<Lru> {
    /// An empty cache under the default LRU policy.
    fn default() -> (r: ReprCache<Lru>)
        ensures
            r.resident().len() == 0,
            r.gens().len() == 0,
            r.cut_log().len() == 0,
            r.spec_seq() == 0,
            r.spec_tick() == 0,
            r.spec_policy().0.max_entries == 4096,
            r.spec_policy().0.max_bytes == 67108864,
    {
        ReprCache::new(Lru::default())
    }
}

} // verus!
