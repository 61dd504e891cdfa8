//! The request verbs and their cacheability.

use vstd::prelude::*;

verus! {

/// The request verbs.
///
/// Only the idempotent verbs ([`Verb::Source`], [`Verb::Exists`], [`Verb::Meta`])
/// produce cacheable responses; the mutating verbs ([`Verb::Sink`],
/// [`Verb::Delete`]) do not.
#[derive(Clone, Copy, PartialEq, Eq, Structural, Debug, Hash)]
pub enum Verb {
    /// Read a resource's representation.
    Source,
    /// Write or replace a resource's representation.
    Sink,
    /// Test for a resource's existence.
    Exists,
    /// Remove a resource.
    Delete,
    /// Read a resource's self-description.
    Meta,
}

impl Verb {
    /// Whether responses to a verb are cacheable: the idempotent, non-mutating ones.
    pub open spec fn spec_cacheable(self) -> bool {
        self is Source || self is Exists || self is Meta
    }

    /// The stable byte code of a verb, used in identity hashing.
    pub open spec fn spec_code(self) -> u8 {
        match self {
            Verb::Source => 1,
            Verb::Sink => 2,
            Verb::Exists => 3,
            Verb::Delete => 4,
            Verb::Meta => 5,
        }
    }

    /// Whether responses to this verb are eligible for caching
    /// (idempotent and non-mutating).
    pub fn is_cacheable(self) -> (r: bool)
        ensures
            r == self.spec_cacheable(),
    {
        match self {
            Verb::Source | Verb::Exists | Verb::Meta => true,
            _ => false,
        }
    }

    /// Whether this verb may mutate underlying state.
    pub fn is_mutating(self) -> (r: bool)
        ensures
            r == (self is Sink || self is Delete),
    {
        match self {
            Verb::Sink | Verb::Delete => true,
            _ => false,
        }
    }

    /// Stable byte code used in identity hashing.
    pub fn code(self) -> (c: u8)
        ensures
            c == self.spec_code(),
    {
        match self {
            Verb::Source => 1,
            Verb::Sink => 2,
            Verb::Exists => 3,
            Verb::Delete => 4,
            Verb::Meta => 5,
        }
    }
}

/// Every verb is exactly one of cacheable or mutating, and distinct verbs
/// carry distinct codes.
pub proof fn lemma_cacheable_iff_not_mutating(v: Verb, w: Verb)
    ensures
        v.spec_cacheable() <==> !(v is Sink || v is Delete),
        v.spec_code() == w.spec_code() ==> v == w,
{
}

} // verus!
