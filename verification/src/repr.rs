//! Representations: typed values, their cache validity, and the golden threads
//! they depend on.

use vstd::prelude::*;

use crate::content::ContentId;
use crate::hashing::{blake3_digest, enc_bytes, enc_str, feed_bytes, feed_str};
use crate::sorted::{insert_sorted, keys_sorted, kv_insert, kv_view, lemma_insert_sorted, StrSet};
use crate::text::copy_str;

verus! {

/// A golden thread: a named validity token a cached representation can depend
/// on. Cutting a thread invalidates every cached representation depending on it.
#[derive(Clone, Debug)]
pub struct Thread(String);

impl View for Thread {
    type V = Seq<char>;

    closed spec fn view(&self) -> Seq<char> {
        self.0@
    }
}

impl Thread {
    /// A thread with the given name.
    pub fn new(name: &str) -> (r: Thread)
        ensures
            r@ == name@,
    {
        Thread(name.to_owned())
    }

    /// The thread's name.
    pub fn as_str(&self) -> (r: &str)
        ensures
            r@ == self@,
    {
        self.0.as_str()
    }
}

/// The canonical form `media/type;k=v;...` of a type, parameters in key order.
pub open spec fn canonical_params(params: Seq<(Seq<char>, Seq<char>)>) -> Seq<char>
    decreases params.len(),
{
    if params.len() == 0 {
        Seq::empty()
    } else {
        canonical_params(params.drop_last()) + seq![';'] + params.last().0 + seq!['=']
            + params.last().1
    }
}

/// A representation type: a media type plus canonicalized (key-sorted) parameters.
#[derive(Debug)]
pub struct ReprType {
    media_type: String,
    params: Vec<(String, String)>,
}

impl ReprType {
    /// Parameters are held sorted by key, each key once.
    #[verifier::type_invariant]
    spec fn params_sorted(&self) -> bool {
        keys_sorted(kv_view(self.params@))
    }

    /// The parameters, in key order.
    pub closed spec fn spec_params(&self) -> Seq<(Seq<char>, Seq<char>)> {
        kv_view(self.params@)
    }

    /// The media type, e.g. `text/turtle`.
    pub closed spec fn spec_media_type(&self) -> Seq<char> {
        self.media_type@
    }

    /// The canonical string of this type.
    pub open spec fn spec_canonical(&self) -> Seq<char> {
        self.spec_media_type() + canonical_params(self.spec_params())
    }

    /// The media type, e.g. `text/turtle`.
    pub fn media_type(&self) -> (r: &str)
        ensures
            r@ == self.spec_media_type(),
    {
        self.media_type.as_str()
    }

    /// A representation type with no parameters.
    pub fn new(media_type: &str) -> (r: ReprType)
        ensures
            r.spec_media_type() == media_type@,
            r.spec_params().len() == 0,
    {
        ReprType { media_type: media_type.to_owned(), params: Vec::new() }
    }

    /// Add or replace a parameter (builder style).
    pub fn with_param(self, key: &str, value: &str) -> (r: ReprType)
        ensures
            r.spec_media_type() == self.spec_media_type(),
            r.spec_params() == insert_sorted(self.spec_params(), key@, value@),
    {
        proof {
            use_type_invariant(&self);
            lemma_insert_sorted(self.spec_params(), key@, value@);
        }
        let ReprType { media_type, mut params } = self;
        kv_insert(&mut params, key.to_owned(), value.to_owned());
        ReprType { media_type, params }
    }

    /// The parameters, in key order.
    pub fn params(&self) -> (r: &Vec<(String, String)>)
        ensures
            kv_view(r@) == self.spec_params(),
    {
        &self.params
    }

    /// The canonical string form: `media/type;k=v;...` with sorted params.
    pub fn canonical(&self) -> (r: String)
        ensures
            r@ == self.spec_canonical(),
    {
        let mut s = copy_str(self.media_type.as_str());
        let mut i: usize = 0;
        while i < self.params.len()
            invariant
                i <= self.params@.len(),
                s@ == self.media_type@ + canonical_params(self.spec_params().subrange(0, i as int)),
            decreases self.params@.len() - i,
        {
            s.push(';');
            s.append(self.params[i].0.as_str());
            s.push('=');
            s.append(self.params[i].1.as_str());
            proof {
                let sub = self.spec_params().subrange(0, i + 1);
                assert(sub.drop_last() =~= self.spec_params().subrange(0, i as int));
                assert(sub.last() == (self.params@[i as int].0@, self.params@[i as int].1@));
                assert(s@ =~= self.media_type@ + canonical_params(sub));
            }
            i = i + 1;
        }
        assert(self.spec_params().subrange(0, i as int) =~= self.spec_params());
        s
    }

    /// A copy of this type.
    pub fn duplicate(&self) -> (r: ReprType)
        ensures
            r.spec_media_type() == self.spec_media_type(),
            r.spec_params() == self.spec_params(),
    {
        proof {
            use_type_invariant(self);
        }
        let mut params: Vec<(String, String)> = Vec::new();
        let mut i: usize = 0;
        while i < self.params.len()
            invariant
                i <= self.params@.len(),
                params@.len() == i,
                kv_view(params@) == kv_view(self.params@).subrange(0, i as int),
            decreases self.params@.len() - i,
        {
            let ghost prev = params@;
            params.push((self.params[i].0.clone(), self.params[i].1.clone()));
            assert(params@ == prev.push(params@[i as int]));
            assert(kv_view(params@)[i as int] == kv_view(self.params@)[i as int]);
            assert(kv_view(params@) =~= kv_view(self.params@).subrange(0, i + 1));
            i = i + 1;
        }
        assert(kv_view(params@) =~= kv_view(self.params@));
        ReprType { media_type: self.media_type.clone(), params }
    }
}

/// An absolute instant, milliseconds since the Unix epoch.
#[derive(Clone, Copy, PartialEq, Eq, Structural, PartialOrd, Ord, Hash, Debug, Default)]
pub struct Time(pub u64);

impl Time {
    /// A time from milliseconds since the Unix epoch.
    pub fn from_millis(millis: u64) -> (r: Time)
        ensures
            r.0 == millis,
    {
        Time(millis)
    }

    /// Milliseconds since the Unix epoch.
    pub fn as_millis(self) -> (r: u64)
        ensures
            r == self.0,
    {
        self.0
    }

    /// This time advanced by `millis`, saturating at the largest instant.
    pub fn plus_millis(self, millis: u64) -> (r: Time)
        ensures
            r.0 == if self.0 + millis > u64::MAX {
                u64::MAX as int
            } else {
                self.0 + millis
            },
    {
        Time(self.0.saturating_add(millis))
    }
}

/// How long a representation stays valid in the cache: a lattice from most-
/// to least-volatile — `Always` (never cached), `At` (cached until a
/// deadline), `Never` (permanently cacheable).
#[derive(Clone, Copy, PartialEq, Eq, Structural, Debug)]
pub enum Expiry {
    /// Always expired — never cached. The safe default.
    Always,
    /// Cached until an absolute deadline.
    At(Time),
    /// Never expires — permanently cacheable.
    Never,
}

/// The cache *meet* of two expiries: the more restrictive (sooner-expiring) one.
pub open spec fn meet(a: Expiry, b: Expiry) -> Expiry {
    match (a, b) {
        (Expiry::Always, _) => Expiry::Always,
        (_, Expiry::Always) => Expiry::Always,
        (Expiry::At(x), Expiry::At(y)) => Expiry::At(
            if x.0 <= y.0 {
                x
            } else {
                y
            },
        ),
        (Expiry::At(t), Expiry::Never) => Expiry::At(t),
        (Expiry::Never, Expiry::At(t)) => Expiry::At(t),
        (Expiry::Never, Expiry::Never) => Expiry::Never,
    }
}

impl Expiry {
    /// The default: never cached.
    pub fn default_expiry() -> (r: Expiry)
        ensures
            r == Expiry::Always,
    {
        Expiry::Always
    }

    /// The more restrictive (sooner-expiring) of two expiries — the cache meet.
    /// `Always` dominates; a deadline beats `Never`; two deadlines take the earlier.
    pub fn most_restrictive(self, other: Expiry) -> (r: Expiry)
        ensures
            r == meet(self, other),
    {
        match (self, other) {
            (Expiry::Always, _) | (_, Expiry::Always) => Expiry::Always,
            (Expiry::At(a), Expiry::At(b)) => Expiry::At(
                if a.0 <= b.0 {
                    a
                } else {
                    b
                },
            ),
            (Expiry::At(t), Expiry::Never) | (Expiry::Never, Expiry::At(t)) => Expiry::At(t),
            (Expiry::Never, Expiry::Never) => Expiry::Never,
        }
    }
}

/// The meet is a semilattice operation: commutative, associative and
/// idempotent, with `Never` as identity and `Always` absorbing — so a composite
/// is never fresher than its most volatile part, whatever order parts combine in.
pub proof fn lemma_meet_is_a_semilattice(a: Expiry, b: Expiry, c: Expiry)
    ensures
        meet(a, b) == meet(b, a),
        meet(meet(a, b), c) == meet(a, meet(b, c)),
        meet(a, a) == a,
        meet(a, Expiry::Never) == a,
        meet(a, Expiry::Always) == Expiry::Always,
{
}

/// The meet never makes anything fresher: its deadline, if any, is no later
/// than either side's.
pub proof fn lemma_meet_is_no_fresher(a: Expiry, b: Expiry)
    ensures
        (a is Always || b is Always) <==> meet(a, b) is Always,
        meet(a, b) is Never <==> (a is Never && b is Never),
        meet(a, b) matches Expiry::At(t) ==> ((a matches Expiry::At(x) ==> t.0 <= x.0) && (
        b matches Expiry::At(y) ==> t.0 <= y.0)),
{
}

/// The cache provenance an upstream pipe stage hands to the next: the expiry
/// and golden threads of whatever produced this request's input.
pub struct Provenance {
    /// The upstream representation's expiry.
    pub expiry: Expiry,
    /// The upstream representation's golden threads.
    pub threads: StrSet,
}

impl Provenance {
    /// The provenance of an upstream representation: its expiry and threads.
    pub fn new(expiry: Expiry, threads: StrSet) -> (r: Provenance)
        ensures
            r.expiry == expiry,
            r.threads@ == threads@,
    {
        Provenance { expiry, threads }
    }
}

/// The content-address encoding of a representation: its canonical type and bytes.
pub open spec fn repr_encoding(canonical_type: Seq<char>, bytes: Seq<u8>) -> Seq<u8> {
    enc_str("ikigai.repr.v0"@) + enc_str(canonical_type) + enc_bytes(bytes)
}

/// The type is part of a representation's identity: the encoding its content
/// address digests determines both the canonical type and the bytes, so the
/// same bytes under two types (a UTF-8 and a Latin-1 reading, say) encode
/// differently.
pub proof fn lemma_encoding_determines_type_and_bytes(
    t1: Seq<char>,
    b1: Seq<u8>,
    t2: Seq<char>,
    b2: Seq<u8>,
)
    requires
        vstd::utf8::encode_utf8(t1).len() < crate::hashing::prefix_range(),
        vstd::utf8::encode_utf8(t2).len() < crate::hashing::prefix_range(),
        b1.len() < crate::hashing::prefix_range(),
        b2.len() < crate::hashing::prefix_range(),
        repr_encoding(t1, b1) == repr_encoding(t2, b2),
    ensures
        t1 == t2,
        b1 == b2,
{
    let h = enc_str("ikigai.repr.v0"@);
    let r1 = enc_str(t1) + enc_bytes(b1);
    let r2 = enc_str(t2) + enc_bytes(b2);
    assert(repr_encoding(t1, b1) =~= h + r1);
    assert(repr_encoding(t2, b2) =~= h + r2);
    assert(r1 =~= (h + r1).subrange(h.len() as int, (h + r1).len() as int));
    assert(r2 =~= (h + r2).subrange(h.len() as int, (h + r2).len() as int));
    crate::hashing::lemma_enc_str_unambiguous(t1, t2, enc_bytes(b1), enc_bytes(b2));
    assert(enc_bytes(b1) + Seq::<u8>::empty() =~= enc_bytes(b1));
    assert(enc_bytes(b2) + Seq::<u8>::empty() =~= enc_bytes(b2));
    crate::hashing::lemma_enc_bytes_unambiguous(b1, b2, Seq::empty(), Seq::empty());
}

/// A typed value produced by an endpoint, with its cache validity and the
/// golden threads it depends on.
#[derive(Debug)]
pub struct Representation {
    /// The representation type.
    pub repr_type: ReprType,
    /// The representation's bytes.
    pub bytes: Vec<u8>,
    /// Cache validity; defaults to [`Expiry::Always`] (uncacheable).
    pub expiry: Expiry,
    /// The golden threads this representation depends on.
    pub threads: StrSet,
}

impl Representation {
    /// The golden threads this representation depends on.
    pub open spec fn spec_threads(&self) -> Set<Seq<char>> {
        self.threads@
    }

    /// Build a representation from a type and bytes (uncacheable by default).
    pub fn new(repr_type: ReprType, bytes: Vec<u8>) -> (r: Representation)
        ensures
            r.repr_type == repr_type,
            r.bytes@ == bytes@,
            r.expiry == Expiry::Always,
            r.spec_threads() == Set::<Seq<char>>::empty(),
    {
        Representation { repr_type, bytes, expiry: Expiry::Always, threads: StrSet::new() }
    }

    /// Mark this representation permanently cacheable.
    pub fn cacheable(self) -> (r: Representation)
        ensures
            r.expiry == Expiry::Never,
            r.repr_type == self.repr_type,
            r.bytes@ == self.bytes@,
            r.spec_threads() == self.spec_threads(),
    {
        let mut r = self;
        r.expiry = Expiry::Never;
        r
    }

    /// Mark this representation cacheable until an absolute deadline.
    pub fn cacheable_until(self, deadline: Time) -> (r: Representation)
        ensures
            r.expiry == Expiry::At(deadline),
            r.repr_type == self.repr_type,
            r.bytes@ == self.bytes@,
            r.spec_threads() == self.spec_threads(),
    {
        let mut r = self;
        r.expiry = Expiry::At(deadline);
        r
    }

    /// Set the expiry explicitly (builder).
    pub fn with_expiry(self, expiry: Expiry) -> (r: Representation)
        ensures
            r.expiry == expiry,
            r.repr_type == self.repr_type,
            r.bytes@ == self.bytes@,
            r.spec_threads() == self.spec_threads(),
    {
        let mut r = self;
        r.expiry = expiry;
        r
    }

    /// Declare that this representation depends on a golden thread (builder).
    pub fn depends_on(self, thread: &str) -> (r: Representation)
        ensures
            r.expiry == self.expiry,
            r.repr_type == self.repr_type,
            r.bytes@ == self.bytes@,
            r.spec_threads() == self.spec_threads().insert(thread@),
    {
        let mut r = self;
        r.threads.insert(thread);
        r
    }

    /// The golden threads this representation depends on.
    pub fn threads(&self) -> (r: &StrSet)
        ensures
            r@ == self.spec_threads(),
    {
        &self.threads
    }

    /// Replace the thread set (builder).
    pub fn with_threads(self, threads: StrSet) -> (r: Representation)
        ensures
            r.expiry == self.expiry,
            r.repr_type == self.repr_type,
            r.bytes@ == self.bytes@,
            r.spec_threads() == threads@,
    {
        let mut r = self;
        r.threads = threads;
        r
    }

    /// The content address of this representation (its type and bytes together).
    pub fn content_id(&self) -> (r: ContentId)
        ensures
            r@ == blake3_digest(repr_encoding(self.repr_type.spec_canonical(), self.bytes@)),
    {
        let mut enc: Vec<u8> = Vec::new();
        feed_str(&mut enc, "ikigai.repr.v0");
        let canonical = self.repr_type.canonical();
        feed_str(&mut enc, canonical.as_str());
        feed_bytes(&mut enc, self.bytes.as_slice());
        assert(enc@ =~= repr_encoding(self.repr_type.spec_canonical(), self.bytes@));
        ContentId::of(enc.as_slice())
    }

    /// Whether two representations are the same content: the same type,
    /// bytes and expiry (golden threads are provenance, not content).
    pub fn same_content(&self, other: &Representation) -> (r: bool)
        ensures
            r == (self.repr_type.spec_media_type() == other.repr_type.spec_media_type()
                && self.repr_type.spec_params() == other.repr_type.spec_params() && self.bytes@
                == other.bytes@ && self.expiry == other.expiry),
    {
        if !crate::text::str_eq(self.repr_type.media_type(), other.repr_type.media_type()) {
            return false;
        }
        let a = self.repr_type.params();
        let b = other.repr_type.params();
        if a.len() != b.len() {
            assert(kv_view(a@).len() != kv_view(b@).len());
            return false;
        }
        let mut i: usize = 0;
        while i < a.len()
            invariant
                i <= a@.len(),
                a@.len() == b@.len(),
                kv_view(a@) == self.repr_type.spec_params(),
                kv_view(b@) == other.repr_type.spec_params(),
                forall|k: int| 0 <= k < i ==> (#[trigger] kv_view(a@)[k]) == kv_view(b@)[k],
            decreases a@.len() - i,
        {
            if !crate::text::str_eq(a[i].0.as_str(), b[i].0.as_str()) || !crate::text::str_eq(
                a[i].1.as_str(),
                b[i].1.as_str(),
            ) {
                assert(kv_view(a@)[i as int] != kv_view(b@)[i as int]);
                return false;
            }
            assert(kv_view(a@)[i as int] == kv_view(b@)[i as int]);
            i = i + 1;
        }
        assert(kv_view(a@) =~= kv_view(b@));
        if self.bytes.len() != other.bytes.len() {
            return false;
        }
        let mut j: usize = 0;
        while j < self.bytes.len()
            invariant
                j <= self.bytes@.len(),
                self.bytes@.len() == other.bytes@.len(),
                forall|k: int| 0 <= k < j ==> self.bytes@[k] == other.bytes@[k],
            decreases self.bytes@.len() - j,
        {
            if self.bytes[j] != other.bytes[j] {
                return false;
            }
            j = j + 1;
        }
        assert(self.bytes@ =~= other.bytes@);
        self.expiry == other.expiry
    }

    /// A copy of this representation, threads included.
    pub fn duplicate(&self) -> (r: Representation)
        ensures
            r.repr_type.spec_media_type() == self.repr_type.spec_media_type(),
            r.repr_type.spec_params() == self.repr_type.spec_params(),
            r.bytes@ == self.bytes@,
            r.expiry == self.expiry,
            r.spec_threads() == self.spec_threads(),
    {
        Representation {
            repr_type: self.repr_type.duplicate(),
            bytes: self.bytes.clone(),
            expiry: self.expiry,
            threads: self.threads.duplicate(),
        }
    }
}

} // verus!
