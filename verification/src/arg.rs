//! How an argument value is supplied to a request.

use vstd::prelude::*;

use crate::content::ContentId;
use crate::iri::Iri;

verus! {

/// The abstract value of an [`ArgRef`].
pub enum ArgModel {
    /// A reference, by its IRI.
    Reference(Seq<char>),
    /// An inline literal, by its bytes.
    Inline(Seq<u8>),
    /// An interned value, by its content digest.
    Content(Seq<u8>),
}

/// How an argument value is supplied to a request.
///
/// By-value arguments are content-addressed so that two requests carrying the
/// same value share an identity.
#[derive(Debug)]
pub enum ArgRef {
    /// A reference to another resolvable resource; identity is its IRI.
    Reference(Iri),
    /// A small literal value carried inline; identity is the value's bytes.
    Inline(Vec<u8>),
    /// A larger value interned into a content store, named by its content id.
    Content(ContentId),
}

impl View for ArgRef {
    type V = ArgModel;

    open spec fn view(&self) -> ArgModel {
        match self {
            ArgRef::Reference(iri) => ArgModel::Reference(iri@),
            ArgRef::Inline(bytes) => ArgModel::Inline(bytes@),
            ArgRef::Content(id) => ArgModel::Content(id@),
        }
    }
}

impl ArgRef {
    /// A copy of this argument.
    pub fn duplicate(&self) -> (r: ArgRef)
        ensures
            r@ == self@,
    {
        match self {
            ArgRef::Reference(iri) => ArgRef::Reference(iri.duplicate()),
            ArgRef::Inline(bytes) => ArgRef::Inline(bytes.clone()),
            ArgRef::Content(id) => ArgRef::Content(*id),
        }
    }
}

} // verus!
