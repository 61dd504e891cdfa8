//! What a resolution chain is, as data: the bindings a space lists for
//! enumeration, and the identity of a chain of injected corridors — whether
//! the root is still on the end of it, and each corridor's name — from which
//! its cache fingerprint and its text form are computed.

use vstd::prelude::*;

use crate::hashing::{blake3_digest, blake3_hash, enc_str, feed_str, feed_u8, le_bytes, push_all, u64_le};
use crate::iri::Iri;
use crate::text::{concat_str, copy_str};

verus! {

/// One binding in a space, for enumeration: the grammar's pattern and the
/// name of the endpoint it resolves to, and where it came from when it was
/// surfaced from a mounted remote.
#[derive(Debug, PartialEq, Eq)]
pub struct SpaceEntry {
    /// The grammar's pattern (an exact IRI, or a template).
    pub pattern: String,
    /// The bound endpoint's name.
    pub endpoint: String,
    /// `None` for this kernel's own spaces; a mount's label otherwise.
    pub origin: Option<String>,
}

impl SpaceEntry {
    /// A binding from this kernel's own space.
    pub fn new(pattern: &str, endpoint: &str) -> (r: SpaceEntry)
        ensures
            r.pattern@ == pattern@,
            r.endpoint@ == endpoint@,
            r.origin is None,
    {
        SpaceEntry { pattern: copy_str(pattern), endpoint: copy_str(endpoint), origin: None }
    }

    /// Stamp the entry's origin (builder).
    pub fn with_origin(self, origin: &str) -> (r: SpaceEntry)
        ensures
            r.pattern@ == self.pattern@,
            r.endpoint@ == self.endpoint@,
            r.origin matches Some(o) && o@ == origin@,
    {
        SpaceEntry { origin: Some(copy_str(origin)), ..self }
    }

    /// A copy of this entry.
    pub fn duplicate(&self) -> (r: SpaceEntry)
        ensures
            r.pattern@ == self.pattern@,
            r.endpoint@ == self.endpoint@,
            crate::describe::opt_view(r.origin) == crate::describe::opt_view(self.origin),
    {
        SpaceEntry {
            pattern: copy_str(self.pattern.as_str()),
            endpoint: copy_str(self.endpoint.as_str()),
            origin: match &self.origin {
                Some(o) => Some(copy_str(o.as_str())),
                None => None,
            },
        }
    }
}

/// The entries of members tried in order, as a fallback lists them: every
/// enumerable member's entries concatenated; `None` only when no member can
/// enumerate.
pub open spec fn combined(parts: Seq<Option<Seq<SpaceEntry>>>) -> Option<Seq<SpaceEntry>>
    decreases parts.len(),
{
    if parts.len() == 0 {
        None
    } else {
        match (combined(parts.drop_last()), parts.last()) {
            (None, None) => None,
            (Some(a), None) => Some(a),
            (None, Some(b)) => Some(b),
            (Some(a), Some(b)) => Some(a + b),
        }
    }
}

/// Concatenate the entries of every member that can enumerate, in order;
/// `None` only if no member supports enumeration at all.
pub fn combine_entries(parts: Vec<Option<Vec<SpaceEntry>>>) -> (r: Option<Vec<SpaceEntry>>)
    ensures
        match combined(parts@.map_values(|p: Option<Vec<SpaceEntry>>| match p {
            Some(v) => Some(v@),
            None => None,
        })) {
            Some(all) => r is Some && r->0@ == all,
            None => r is None,
        },
{
    let ghost views = parts@.map_values(|p: Option<Vec<SpaceEntry>>| match p {
        Some(v) => Some(v@),
        None => None,
    });
    let mut entries: Vec<SpaceEntry> = Vec::new();
    let mut enumerable = false;
    let mut rest = parts;
    let n = rest.len();
    let mut i: usize = 0;
    while i < n
        invariant
            n == views.len(),
            i <= n,
            rest@.len() == n - i,
            forall|j: int|
                0 <= j < n - i ==> (match #[trigger] rest@[j] {
                    Some(v) => Some(v@),
                    None => None,
                }) == views[i + j],
            match combined(views.take(i as int)) {
                Some(all) => enumerable && entries@ == all,
                None => !enumerable && entries@.len() == 0,
            },
        decreases n - i,
    {
        let part = rest.remove(0);
        proof {
            let t = views.take(i + 1);
            assert(t.drop_last() =~= views.take(i as int));
            assert(t.last() == views[i as int]);
        }
        match part {
            Some(mut inner) => {
                enumerable = true;
                entries.append(&mut inner);
            },
            None => {},
        }
        proof {
            assert forall|j: int| 0 <= j < n - (i + 1) implies (match #[trigger] rest@[j] {
                Some(v) => Some(v@),
                None => None,
            }) == views[(i + 1) + j] by {}
            match combined(views.take(i as int)) {
                None => {
                    assert(Seq::<SpaceEntry>::empty() + entries@ =~= entries@);
                },
                Some(_) => {},
            }
        }
        i = i + 1;
    }
    proof {
        assert(views.take(n as int) =~= views);
    }
    if enumerable {
        Some(entries)
    } else {
        None
    }
}

/// What a corridor is fingerprinted by: the name its injector claimed, or a
/// process-unique number for an anonymous one.
#[derive(Debug)]
pub enum CorridorId {
    /// A named corridor.
    Named(Iri),
    /// An anonymous corridor, by its process-unique number.
    Anonymous(u64),
}

/// A corridor identity as the specification sees it.
pub enum CorridorView {
    Named(Seq<char>),
    Anonymous(u64),
}

impl View for CorridorId {
    type V = CorridorView;

    open spec fn view(&self) -> CorridorView {
        match self {
            CorridorId::Named(n) => CorridorView::Named(n@),
            CorridorId::Anonymous(a) => CorridorView::Anonymous(*a),
        }
    }
}

impl CorridorId {
    /// A copy of this identity.
    pub fn duplicate(&self) -> (r: CorridorId)
        ensures
            r@ == self@,
    {
        match self {
            CorridorId::Named(n) => CorridorId::Named(n.duplicate()),
            CorridorId::Anonymous(a) => CorridorId::Anonymous(*a),
        }
    }
}

/// The identity of a resolution chain: its corridors outermost first (the
/// most recently injected last, consulted first), and whether the root has
/// been cut off the end.
#[derive(Debug)]
pub struct ChainIdentity {
    corridors: Vec<CorridorId>,
    severed: bool,
}

/// A chain as the specification sees it.
pub struct ChainView {
    pub corridors: Seq<CorridorView>,
    pub severed: bool,
}

impl View for ChainIdentity {
    type V = ChainView;

    closed spec fn view(&self) -> ChainView {
        ChainView {
            corridors: self.corridors@.map_values(|c: CorridorId| c@),
            severed: self.severed,
        }
    }
}

/// The bytes a chain is fingerprinted from: whether the root is present,
/// then each corridor's identity in chain order.
pub open spec fn chain_encoding(c: ChainView) -> Seq<u8> {
    seq![if c.severed {
        2u8
    } else {
        1u8
    }] + corridors_encoding(c.corridors)
}

/// The encoding of the corridors, in order.
pub open spec fn corridors_encoding(cs: Seq<CorridorView>) -> Seq<u8>
    decreases cs.len(),
{
    if cs.len() == 0 {
        Seq::empty()
    } else {
        corridors_encoding(cs.drop_last()) + match cs.last() {
            CorridorView::Named(n) => seq![1u8] + enc_str(n),
            CorridorView::Anonymous(a) => seq![2u8] + le_bytes(a as nat, 8),
        }
    }
}

/// The number whose little-endian bytes are `b`.
pub open spec fn le_value(b: Seq<u8>) -> nat
    decreases b.len(),
{
    if b.len() == 0 {
        0
    } else {
        b[0] as nat + 256 * le_value(b.drop_first())
    }
}

/// The chain's fingerprint: `0` for the empty chain (nothing injected, root
/// present); otherwise the first eight bytes, little-endian, of the BLAKE3
/// digest of its encoding.
pub open spec fn fingerprint_of(c: ChainView) -> u64 {
    if c.corridors.len() == 0 && !c.severed {
        0
    } else {
        le_value(blake3_digest(chain_encoding(c)).take(8)) as u64
    }
}

/// The chain as text, innermost first, ending in `root` or `severed`.
pub open spec fn chain_text(c: ChainView) -> Seq<char> {
    corridors_text(c.corridors) + if c.severed {
        "severed"@
    } else {
        "root"@
    }
}

/// The corridors, innermost first, each followed by a space.
pub open spec fn corridors_text(cs: Seq<CorridorView>) -> Seq<char>
    decreases cs.len(),
{
    if cs.len() == 0 {
        Seq::empty()
    } else {
        (match cs.last() {
            CorridorView::Named(n) => n + " "@,
            CorridorView::Anonymous(a) => "_:"@ + crate::decimal::decimal_of(a as nat) + " "@,
        }) + corridors_text(cs.drop_last())
    }
}

/// Reading eight little-endian bytes.
fn read_le(b: &[u8]) -> (r: u64)
    requires
        b@.len() == 8,
    ensures
        r == le_value(b@),
{
    let mut v: u64 = 0;
    let mut i: usize = 8;
    while i > 0
        invariant
            i <= 8,
            b@.len() == 8,
            v as nat == le_value(b@.skip(i as int)),
            le_value(b@.skip(i as int)) < pow256((8 - i) as nat),
        decreases i,
    {
        i = i - 1;
        proof {
            assert(b@.skip(i as int).drop_first() =~= b@.skip(i + 1));
            lemma_pow256_step((8 - i - 1) as nat);
            assert(le_value(b@.skip(i as int)) == b@[i as int] as nat + 256 * le_value(b@.skip(i + 1)));
            assert(b@[i as int] as nat + 256 * (v as nat) < pow256((8 - i) as nat)) by (nonlinear_arith)
                requires
                    (v as nat) < pow256((8 - i - 1) as nat),
                    pow256((8 - i) as nat) == 256 * pow256((8 - i - 1) as nat),
                    b@[i as int] < 256,
            ;
            assert(pow256(8) == 0x1_0000_0000_0000_0000) by {
                reveal_with_fuel(pow256, 9);
            }
            lemma_pow256_monotone((8 - i) as nat, 8);
        }
        v = (b[i] as u64) + 256 * v;
    }
    proof {
        assert(b@.skip(0) =~= b@);
    }
    v
}

/// `256` to the `k`.
pub open spec fn pow256(k: nat) -> nat
    decreases k,
{
    if k == 0 {
        1
    } else {
        256 * pow256((k - 1) as nat)
    }
}

proof fn lemma_pow256_step(k: nat)
    ensures
        pow256(k + 1) == 256 * pow256(k),
{
}

proof fn lemma_pow256_monotone(a: nat, b: nat)
    requires
        a <= b,
    ensures
        pow256(a) <= pow256(b),
    decreases b - a,
{
    if a < b {
        lemma_pow256_monotone(a, (b - 1) as nat);
        assert(pow256(b) == 256 * pow256((b - 1) as nat));
    }
}

impl ChainIdentity {
    /// The empty chain: nothing injected, root present.
    pub fn empty() -> (r: ChainIdentity)
        ensures
            r@.corridors.len() == 0,
            !r@.severed,
    {
        ChainIdentity { corridors: Vec::new(), severed: false }
    }

    /// Inject a named corridor ahead of everything already injected.
    pub fn with_named(self, name: Iri) -> (r: ChainIdentity)
        ensures
            r@.corridors == self@.corridors.push(CorridorView::Named(name@)),
            r@.severed == self@.severed,
    {
        let mut r = self;
        let ghost before = r@.corridors;
        r.corridors.push(CorridorId::Named(name));
        assert(r@.corridors =~= before.push(CorridorView::Named(name@)));
        r
    }

    /// Inject an anonymous corridor, identified by `id`, ahead of everything
    /// already injected.
    pub fn with_anonymous(self, id: u64) -> (r: ChainIdentity)
        ensures
            r@.corridors == self@.corridors.push(CorridorView::Anonymous(id)),
            r@.severed == self@.severed,
    {
        let mut r = self;
        let ghost before = r@.corridors;
        r.corridors.push(CorridorId::Anonymous(id));
        assert(r@.corridors =~= before.push(CorridorView::Anonymous(id)));
        r
    }

    /// Cut the root off the chain.
    pub fn sever(self) -> (r: ChainIdentity)
        ensures
            r@.corridors == self@.corridors,
            r@.severed,
    {
        ChainIdentity { corridors: self.corridors, severed: true }
    }

    /// The chain an endpoint runs in once confined to a corridor named `name`:
    /// that corridor goes behind everything already injected, where the root
    /// was, and the root is cut off.
    pub fn confined(self, name: Iri) -> (r: ChainIdentity)
        ensures
            r@.corridors == seq![CorridorView::Named(name@)] + self@.corridors,
            r@.severed,
    {
        let mut r = self;
        let ghost before = r@.corridors;
        r.corridors.insert(0, CorridorId::Named(name));
        assert(r@.corridors =~= seq![CorridorView::Named(name@)] + before);
        ChainIdentity { corridors: r.corridors, severed: true }
    }

    /// Whether the root has been cut off.
    pub fn is_severed(&self) -> (r: bool)
        ensures
            r == self@.severed,
    {
        self.severed
    }

    /// Whether this is the empty chain.
    pub fn is_empty(&self) -> (r: bool)
        ensures
            r == (self@.corridors.len() == 0 && !self@.severed),
    {
        self.corridors.len() == 0 && !self.severed
    }

    /// How many corridors are injected.
    pub fn len(&self) -> (r: usize)
        ensures
            r == self@.corridors.len(),
    {
        self.corridors.len()
    }

    /// The chain's fingerprint (see [`fingerprint_of`]).
    pub fn fingerprint(&self) -> (r: u64)
        ensures
            r == fingerprint_of(self@),
    {
        if self.corridors.len() == 0 && !self.severed {
            return 0;
        }
        let mut enc: Vec<u8> = Vec::new();
        feed_u8(
            &mut enc,
            if self.severed {
                2
            } else {
                1
            },
        );
        let ghost head = enc@;
        let mut i: usize = 0;
        while i < self.corridors.len()
            invariant
                i <= self.corridors@.len(),
                enc@ == head + corridors_encoding(self@.corridors.take(i as int)),
            decreases self.corridors@.len() - i,
        {
            let ghost before = enc@;
            proof {
                let t = self@.corridors.take(i + 1);
                assert(t.drop_last() =~= self@.corridors.take(i as int));
                assert(t.last() == self.corridors@[i as int]@);
            }
            match &self.corridors[i] {
                CorridorId::Named(name) => {
                    feed_u8(&mut enc, 1);
                    feed_str(&mut enc, name.as_str());
                },
                CorridorId::Anonymous(id) => {
                    feed_u8(&mut enc, 2);
                    let b = u64_le(*id);
                    push_all(&mut enc, b.as_slice());
                },
            }
            proof {
                assert(enc@ =~= head + corridors_encoding(self@.corridors.take(i + 1)));
            }
            i = i + 1;
        }
        proof {
            assert(self@.corridors.take(self@.corridors.len() as int) =~= self@.corridors);
            assert(enc@ =~= chain_encoding(self@));
        }
        let digest = blake3_hash(enc.as_slice());
        let first = digest.as_slice().split_at(8).0;
        let v = read_le(first);
        proof {
            assert(first@ =~= blake3_digest(chain_encoding(self@)).take(8));
        }
        v
    }

    /// The chain as text (see [`chain_text`]).
    pub fn to_text(&self) -> (r: String)
        ensures
            r@ == chain_text(self@),
    {
        let mut out = String::new();
        let mut i: usize = self.corridors.len();
        proof {
            assert(self@.corridors.take(self@.corridors.len() as int) =~= self@.corridors);
            assert(out@ + corridors_text(self@.corridors) =~= corridors_text(self@.corridors));
        }
        while i > 0
            invariant
                i <= self.corridors@.len(),
                out@ + corridors_text(self@.corridors.take(i as int)) == corridors_text(
                    self@.corridors,
                ),
            decreases i,
        {
            i = i - 1;
            let ghost before = out@;
            proof {
                let t = self@.corridors.take(i + 1);
                assert(t.drop_last() =~= self@.corridors.take(i as int));
                assert(t.last() == self.corridors@[i as int]@);
            }
            match &self.corridors[i] {
                CorridorId::Named(name) => {
                    out.append(name.as_str());
                    out.append(" ");
                },
                CorridorId::Anonymous(id) => {
                    out.append("_:");
                    out.append(crate::decimal::decimal(*id).as_str());
                    out.append(" ");
                },
            }
            proof {
                let t = self@.corridors.take(i + 1);
                let piece = match t.last() {
                    CorridorView::Named(n) => n + " "@,
                    CorridorView::Anonymous(a) => "_:"@ + crate::decimal::decimal_of(a as nat)
                        + " "@,
                };
                assert(out@ =~= before + piece);
                assert(before + corridors_text(t) =~= out@ + corridors_text(
                    self@.corridors.take(i as int),
                ));
            }
        }
        proof {
            assert(self@.corridors.take(0) =~= Seq::<CorridorView>::empty());
            assert(self@.corridors.take(self@.corridors.len() as int) =~= self@.corridors);
        }
        if self.severed {
            out.append("severed");
        } else {
            out.append("root");
        }
        proof {
            assert(out@ =~= chain_text(self@));
        }
        out
    }

    /// A copy of this chain identity.
    pub fn duplicate(&self) -> (r: ChainIdentity)
        ensures
            r@ == self@,
    {
        let mut corridors: Vec<CorridorId> = Vec::new();
        let mut i: usize = 0;
        while i < self.corridors.len()
            invariant
                i <= self.corridors@.len(),
                corridors@.len() == i,
                forall|k: int| 0 <= k < i ==> (#[trigger] corridors@[k])@ == self.corridors@[k]@,
            decreases self.corridors@.len() - i,
        {
            corridors.push(self.corridors[i].duplicate());
            i = i + 1;
        }
        let r = ChainIdentity { corridors, severed: self.severed };
        assert(r@.corridors =~= self@.corridors);
        r
    }
}

/// A chain with the root cut off.
pub open spec fn severed_chain(c: ChainView) -> ChainView {
    ChainView { corridors: c.corridors, severed: true }
}

/// The empty chain.
pub open spec fn empty_chain() -> ChainView {
    ChainView { corridors: Seq::empty(), severed: false }
}

/// Severing is idempotent, and the empty chain's fingerprint is zero.
pub proof fn lemma_sever_idempotent(c: ChainView)
    ensures
        severed_chain(severed_chain(c)) == severed_chain(c),
        fingerprint_of(empty_chain()) == 0,
{
}

/// Two chains with the same corridors and the same root status share a
/// fingerprint: it depends on nothing else.
pub proof fn lemma_fingerprint_is_identity(a: ChainView, b: ChainView)
    requires
        a.corridors == b.corridors,
        a.severed == b.severed,
    ensures
        fingerprint_of(a) == fingerprint_of(b),
{
}

} // verus!
