//! `ikigai_core` — the identity model and resolution rules of a
//! resource-resolution kernel, with their contracts proved.

pub mod text;
pub mod decimal;
pub mod tokens;
pub mod verb;
pub mod iri;
pub mod error;

pub use error::Error;
pub use iri::{escape_iri_fragment, is_iri_safe, Iri, IriError};
pub use verb::Verb;
pub mod sorted;
pub mod capability;
pub mod hashing;
pub mod content;
pub mod repr;
pub mod arg;
pub mod request;
pub mod grammar;
pub mod alias;
pub mod cache;
pub mod describe;
pub mod select;
pub mod config;
pub mod space;
pub mod kernel_ops;
pub mod vocab;
pub mod builtins;
pub mod files;
pub mod kernel;
pub mod invocation;

pub use alias::{
    AliasHop, AliasParseError, AliasRefusal, AliasRule, AliasTable, Canonical, RuleKind,
    DEFAULT_MAX_HOPS,
};
pub use arg::ArgRef;
pub use cache::{
    CacheBound, CacheEntry, CacheKey, CachePolicy, CostAware, CutSnapshot, EntryFacts, Fifo, Lru,
    ReprCache,
};
pub use capability::Capability;
pub use content::{ContentId, ContentIdError};
pub use describe::{ActionSpec, ArgSpec, Description, EndpointKind, InputSource, Transreption};
pub use grammar::{Bindings, Exact, Grammar, TemplateError, UriTemplate};
pub use repr::{Expiry, Provenance, ReprType, Representation, Thread, Time};
pub use request::{Request, RequestId};
pub use select::{
    is_auto_invocable, select_action, select_actions, select_transreptor, ActionMatch, ActionQuery,
    Candidate, DescribedEntry, TransreptionStep, CANONICAL,
};
pub use space::{ChainIdentity, CorridorId, SpaceEntry};
pub use vocab::MetaRenderer;
