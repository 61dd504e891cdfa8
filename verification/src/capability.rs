//! Capabilities: the unforgeable authority handle, narrowed only by attenuation.

use vstd::prelude::*;

use crate::sorted::StrSet;

verus! {

/// The set of strings named by a slice.
pub open spec fn named_set(scopes: Seq<&str>) -> Set<Seq<char>> {
    Set::new(|k: Seq<char>| exists|i: int| 0 <= i < scopes.len() && (#[trigger] scopes[i])@ == k)
}

#[derive(Debug)]
enum Kind {
    Root,
    Scoped(StrSet),
}

/// An unforgeable handle conferring authority to resolve and invoke resources.
///
/// Authority is a set of `urn:cap:` scopes, or the root authority that grants
/// every scope. A capability can only ever be *narrowed*: [`attenuate`](Capability::attenuate)
/// keeps a subset of the scopes already held, and nothing widens one.
#[derive(Debug)]
pub struct Capability {
    kind: Kind,
}

impl Capability {
    /// Whether this is the full (root) authority.
    pub closed spec fn spec_is_root(&self) -> bool {
        self.kind is Root
    }

    /// The scopes a non-root capability holds (empty for root).
    pub closed spec fn held(&self) -> Set<Seq<char>> {
        match self.kind {
            Kind::Root => Set::empty(),
            Kind::Scoped(s) => s@,
        }
    }

    /// Whether this capability grants `scope`.
    pub open spec fn grants(&self, scope: Seq<char>) -> bool {
        self.spec_is_root() || self.held().contains(scope)
    }

    /// What attenuating to `requested` keeps: the requested scopes this
    /// capability grants.
    pub open spec fn narrowed(&self, requested: Set<Seq<char>>) -> Set<Seq<char>> {
        requested.filter(|k: Seq<char>| self.grants(k))
    }

    /// Full, unattenuated authority — grants every scope.
    pub fn root() -> (r: Capability)
        ensures
            r.spec_is_root(),
    {
        Capability { kind: Kind::Root }
    }

    /// Whether this is the full (root) authority.
    pub fn is_root(&self) -> (r: bool)
        ensures
            r == self.spec_is_root(),
    {
        match self.kind {
            Kind::Root => true,
            Kind::Scoped(_) => false,
        }
    }

    fn set_of(scopes: &[&str]) -> (r: StrSet)
        ensures
            r@ == named_set(scopes@),
    {
        let mut set = StrSet::new();
        let mut i: usize = 0;
        while i < scopes.len()
            invariant
                i <= scopes@.len(),
                set@ == named_set(scopes@.subrange(0, i as int)),
            decreases scopes@.len() - i,
        {
            let ghost before = set@;
            set.insert(scopes[i]);
            proof {
                let sub = scopes@.subrange(0, i + 1);
                assert forall|k: Seq<char>| set@.contains(k) <==> named_set(sub).contains(k) by {
                    if named_set(sub).contains(k) {
                        let j = choose|j: int| 0 <= j < sub.len() && (#[trigger] sub[j])@ == k;
                        if j < i {
                            assert(scopes@.subrange(0, i as int)[j] == sub[j]);
                        }
                    }
                    if before.contains(k) {
                        let j = choose|j: int|
                            0 <= j < i && (#[trigger] scopes@.subrange(0, i as int)[j])@ == k;
                        assert(sub[j] == scopes@.subrange(0, i as int)[j]);
                    }
                    if k == scopes@[i as int]@ {
                        assert(sub[i as int] == scopes@[i as int]);
                    }
                }
                assert(set@ =~= named_set(sub));
            }
            i = i + 1;
        }
        assert(scopes@.subrange(0, scopes@.len() as int) =~= scopes@);
        set
    }

    /// Mint a capability bounded to exactly `scopes` — the trusted minting path.
    pub fn scoped(scopes: &[&str]) -> (r: Capability)
        ensures
            !r.spec_is_root(),
            r.held() == named_set(scopes@),
    {
        Capability { kind: Kind::Scoped(Self::set_of(scopes)) }
    }

    /// Keep, of `requested`, only what this capability grants.
    fn attenuate_set(&self, requested: &StrSet) -> (r: Capability)
        ensures
            !r.spec_is_root(),
            r.held() == self.narrowed(requested@),
    {
        match &self.kind {
            Kind::Root => {
                let r = Capability { kind: Kind::Scoped(requested.duplicate()) };
                assert(r.held() =~= self.narrowed(requested@));
                r
            },
            Kind::Scoped(held) => {
                let mut kept = StrSet::new();
                let mut i: usize = 0;
                proof {
                    requested.lemma_elems();
                }
                while i < requested.len()
                    invariant
                        i <= requested.elems().len(),
                        forall|k: Seq<char>| kept@.contains(k) <==> (exists|j: int| 0 <= j < i
                            && requested.elems()[j] == k) && held@.contains(k),
                    decreases requested.elems().len() - i,
                {
                    let s = requested.get(i);
                    let ghost before = kept@;
                    if held.contains(s) {
                        kept.insert(s);
                    }
                    proof {
                        assert forall|k: Seq<char>| kept@.contains(k) <==> (exists|j: int| 0 <= j < i + 1
                            && requested.elems()[j] == k) && held@.contains(k) by {
                            if (exists|j: int| 0 <= j < i + 1 && requested.elems()[j] == k) && held@.contains(k) {
                                let j = choose|j: int| 0 <= j < i + 1 && requested.elems()[j] == k;
                                if j < i {
                                    assert(before.contains(k));
                                }
                            }
                        }
                    }
                    i = i + 1;
                }
                proof {
                    assert forall|k: Seq<char>| kept@.contains(k) <==> (requested@.contains(k) && self.grants(k)) by {
                        if requested@.contains(k) {
                            assert(requested.elems().contains(k));
                        }
                    }
                    assert(kept@ =~= self.narrowed(requested@));
                }
                Capability { kind: Kind::Scoped(kept) }
            },
        }
    }

    /// Derive a strictly-weaker capability: keep only scopes already held.
    ///
    /// Root attenuated to `s` yields exactly `s`; a scoped capability holding
    /// `t` attenuated to `s` yields `t ∩ s`.
    pub fn attenuate(&self, scopes: &[&str]) -> (r: Capability)
        ensures
            !r.spec_is_root(),
            r.held() == self.narrowed(named_set(scopes@)),
    {
        let requested = Self::set_of(scopes);
        self.attenuate_set(&requested)
    }

    /// A copy of this capability.
    pub fn duplicate(&self) -> (r: Capability)
        ensures
            r.spec_is_root() == self.spec_is_root(),
            r.held() == self.held(),
    {
        match &self.kind {
            Kind::Root => Capability { kind: Kind::Root },
            Kind::Scoped(held) => Capability { kind: Kind::Scoped(held.duplicate()) },
        }
    }

    /// Clamp to a ceiling: the strongest capability both `self` and `carried`
    /// grant. A carried root clamps to `self`; otherwise the scope intersection.
    pub fn clamp(&self, carried: &Capability) -> (r: Capability)
        ensures
            r.spec_is_root() == (self.spec_is_root() && carried.spec_is_root()),
            forall|k: Seq<char>| r.grants(k) <==> (self.grants(k) && carried.grants(k)),
    {
        match &carried.kind {
            Kind::Root => self.duplicate(),
            Kind::Scoped(scopes) => {
                let r = self.attenuate_set(scopes);
                assert forall|k: Seq<char>| r.grants(k) <==> (self.grants(k) && carried.grants(k)) by {
                    assert(r.held().contains(k) == self.narrowed(scopes@).contains(k));
                }
                r
            },
        }
    }

    /// Whether this capability grants `scope` (exact matching).
    pub fn allows(&self, scope: &str) -> (r: bool)
        ensures
            r == self.grants(scope@),
    {
        match &self.kind {
            Kind::Root => true,
            Kind::Scoped(held) => held.contains(scope),
        }
    }

    /// The scopes this capability grants, in ascending order, or `None` for
    /// root (which grants everything).
    pub fn scopes(&self) -> (r: Option<&StrSet>)
        ensures
            match r {
                None => self.spec_is_root(),
                Some(s) => !self.spec_is_root() && s@ == self.held(),
            },
    {
        match &self.kind {
            Kind::Root => None,
            Kind::Scoped(held) => Some(held),
        }
    }
}

/// Attenuation never widens: whatever the attenuated capability grants, the
/// base granted, and it was asked for.
pub proof fn lemma_attenuation_never_widens(
    base: Capability,
    requested: Seq<&str>,
    attenuated: Capability,
)
    requires
        !attenuated.spec_is_root(),
        attenuated.held() == base.narrowed(named_set(requested)),
    ensures
        forall|k: Seq<char>| attenuated.grants(k) ==> base.grants(k) && named_set(requested).contains(k),
{
}

/// Clamping is the meet of two authorities: it grants exactly what both grant,
/// so a ceiling can only ever narrow what a peer carried, and vice versa.
pub proof fn lemma_clamp_is_meet(ceiling: Capability, carried: Capability, clamped: Capability)
    requires
        clamped.spec_is_root() == (ceiling.spec_is_root() && carried.spec_is_root()),
        forall|k: Seq<char>| clamped.grants(k) <==> (ceiling.grants(k) && carried.grants(k)),
    ensures
        forall|k: Seq<char>| clamped.grants(k) ==> ceiling.grants(k),
        forall|k: Seq<char>| clamped.grants(k) ==> carried.grants(k),
        ceiling.spec_is_root() ==> forall|k: Seq<char>| clamped.grants(k) == carried.grants(k),
        carried.spec_is_root() ==> forall|k: Seq<char>| clamped.grants(k) == ceiling.grants(k),
{
}

} // verus!
