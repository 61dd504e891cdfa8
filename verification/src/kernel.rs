//! The kernel's decisions, apart from the resolution and invocation it
//! drives: golden-thread generations and cache-entry validity, what may be
//! stored, how provenance composes, how the `urn:kernel:*` operations are
//! routed and gated, and the text of their readouts.

use vstd::prelude::*;
use vstd::utf8::{decode_utf8, encode_utf8, valid_utf8};

use crate::arg::{ArgModel, ArgRef};
use crate::cache::{key_view, CacheKey};
use crate::capability::Capability;
use crate::error::Error;
use crate::repr::{meet, Expiry, Provenance, ReprType, Representation, Time};
use crate::request::Request;
use crate::sorted::{insert_sorted, keys_sorted, kv_get, kv_insert, kv_view, lemma_insert_sorted, lookup, StrSet};
use crate::text::{concat_str, copy_str, str_eq, views_of};
use crate::verb::Verb;

verus! {

/// The generation a thread stands at: how many times it has been cut.
pub open spec fn generation(gens: Seq<(Seq<char>, u64)>, thread: Seq<char>) -> u64 {
    match lookup(gens, thread) {
        Some(g) => g,
        None => 0,
    }
}

/// Whether every `(thread, generation)` edge still holds in `gens`.
pub open spec fn edges_hold(edges: Seq<(Seq<char>, u64)>, gens: Seq<(Seq<char>, u64)>) -> bool {
    forall|k: int| 0 <= k < edges.len() ==> generation(gens, (#[trigger] edges[k]).0) == edges[k].1
}

/// Each thread pinned to the generation it stands at.
pub open spec fn pinned(threads: Seq<Seq<char>>, gens: Seq<(Seq<char>, u64)>) -> Seq<(Seq<char>, u64)> {
    threads.map_values(|t: Seq<char>| (t, generation(gens, t)))
}

/// The generations after cutting `thread`.
pub open spec fn after_cut(gens: Seq<(Seq<char>, u64)>, thread: Seq<char>) -> Seq<(Seq<char>, u64)> {
    insert_sorted(gens, thread, (generation(gens, thread) + 1) as u64)
}

/// The golden threads that have been cut, each with its generation.
#[derive(Debug)]
pub struct Generations {
    rows: Vec<(String, u64)>,
}

impl View for Generations {
    type V = Seq<(Seq<char>, u64)>;

    closed spec fn view(&self) -> Seq<(Seq<char>, u64)> {
        kv_view(self.rows@)
    }
}

impl Generations {
    /// Held sorted by thread, each thread once.
    #[verifier::type_invariant]
    spec fn sorted(&self) -> bool {
        keys_sorted(kv_view(self.rows@))
    }

    /// No thread cut yet.
    pub fn new() -> (r: Generations)
        ensures
            r@ == Seq::<(Seq<char>, u64)>::empty(),
    {
        let r = Generations { rows: Vec::new() };
        assert(kv_view(r.rows@) =~= Seq::<(Seq<char>, u64)>::empty());
        r
    }

    /// The generation of `thread` (0 when it was never cut).
    pub fn generation_of(&self, thread: &str) -> (r: u64)
        ensures
            r == generation(self@, thread@),
    {
        match kv_get(&self.rows, thread) {
            Some(g) => *g,
            None => 0,
        }
    }

    /// Cut a golden thread: bump its generation by one.
    pub fn cut(&mut self, thread: &str)
        requires
            generation(old(self)@, thread@) < u64::MAX,
        ensures
            final(self)@ == after_cut(old(self)@, thread@),
            generation(final(self)@, thread@) == generation(old(self)@, thread@) + 1,
            forall|t: Seq<char>| t != thread@ ==> generation(final(self)@, t) == generation(old(self)@, t),
    {
        proof {
            use_type_invariant(&*self);
            lemma_insert_sorted(self@, thread@, (generation(self@, thread@) + 1) as u64);
        }
        let g = self.generation_of(thread);
        let mut rows = Vec::new();
        std::mem::swap(&mut rows, &mut self.rows);
        kv_insert(&mut rows, copy_str(thread), g + 1);
        self.rows = rows;
    }

    /// Whether no thread has been cut.
    pub fn is_empty(&self) -> (r: bool)
        ensures
            r == (self@.len() == 0),
    {
        self.rows.len() == 0
    }

    /// The cut threads with their generations, in thread order.
    pub fn rows(&self) -> (r: &Vec<(String, u64)>)
        ensures
            kv_view(r@) == self@,
            keys_sorted(self@),
    {
        proof {
            use_type_invariant(self);
        }
        &self.rows
    }

    /// Pin each of `threads` to its current generation: the validity edges of
    /// an entry stored now.
    pub fn edges_for(&self, threads: &StrSet) -> (r: Vec<(String, u64)>)
        ensures
            kv_view(r@) == pinned(threads.elems(), self@),
    {
        let names = threads.to_vec();
        let mut out: Vec<(String, u64)> = Vec::new();
        let mut i: usize = 0;
        while i < names.len()
            invariant
                i <= names@.len(),
                names@.map_values(|x: String| x@) == threads.elems(),
                out@.len() == i,
                forall|k: int|
                    0 <= k < i ==> (#[trigger] out@[k]).0@ == names@[k]@ && out@[k].1 == generation(
                        self@,
                        names@[k]@,
                    ),
            decreases names@.len() - i,
        {
            let g = self.generation_of(names[i].as_str());
            out.push((copy_str(names[i].as_str()), g));
            i = i + 1;
        }
        proof {
            assert(names@.map_values(|x: String| x@).len() == names@.len());
            assert forall|k: int| 0 <= k < names@.len() implies names@[k]@ == threads.elems()[k] by {
                assert(names@.map_values(|x: String| x@)[k] == names@[k]@);
            }
            assert(kv_view(out@) =~= pinned(threads.elems(), self@));
        }
        out
    }

    /// Whether every edge is still at its pinned generation.
    pub fn edges_current(&self, edges: &Vec<(String, u64)>) -> (r: bool)
        ensures
            r == edges_hold(kv_view(edges@), self@),
    {
        let mut i: usize = 0;
        while i < edges.len()
            invariant
                i <= edges@.len(),
                forall|k: int|
                    0 <= k < i ==> generation(self@, (#[trigger] kv_view(edges@)[k]).0) == kv_view(
                        edges@,
                    )[k].1,
            decreases edges@.len() - i,
        {
            if self.generation_of(edges[i].0.as_str()) != edges[i].1 {
                assert(kv_view(edges@)[i as int] == (edges@[i as int].0@, edges@[i as int].1));
                return false;
            }
            assert(kv_view(edges@)[i as int] == (edges@[i as int].0@, edges@[i as int].1));
            i = i + 1;
        }
        true
    }
}

/// Edges pinned now hold now: a freshly stored entry is valid.
pub proof fn lemma_fresh_edges_hold(threads: Seq<Seq<char>>, gens: Seq<(Seq<char>, u64)>)
    ensures
        edges_hold(pinned(threads, gens), gens),
{
}

/// Cutting a thread an entry depends on invalidates it: once `thread` is cut,
/// no edges pinned before the cut that mention it hold any longer.
pub proof fn lemma_cut_invalidates(
    edges: Seq<(Seq<char>, u64)>,
    gens: Seq<(Seq<char>, u64)>,
    thread: Seq<char>,
    k: int,
)
    requires
        keys_sorted(gens),
        edges_hold(edges, gens),
        0 <= k < edges.len(),
        edges[k].0 == thread,
        generation(gens, thread) < u64::MAX,
    ensures
        !edges_hold(edges, after_cut(gens, thread)),
{
    lemma_insert_sorted(gens, thread, (generation(gens, thread) + 1) as u64);
    assert(generation(after_cut(gens, thread), edges[k].0) != edges[k].1);
}

/// Cutting a thread an entry does not depend on leaves it valid.
pub proof fn lemma_cut_spares_the_unrelated(
    edges: Seq<(Seq<char>, u64)>,
    gens: Seq<(Seq<char>, u64)>,
    thread: Seq<char>,
)
    requires
        keys_sorted(gens),
        edges_hold(edges, gens),
        forall|k: int| 0 <= k < edges.len() ==> (#[trigger] edges[k]).0 != thread,
    ensures
        edges_hold(edges, after_cut(gens, thread)),
{
    lemma_insert_sorted(gens, thread, (generation(gens, thread) + 1) as u64);
}

/// Whether an expiry still allows serving at `now`: a deadline needs a clock
/// reading before it; anything else is unexpired.
pub open spec fn unexpired(expiry: Expiry, now: Option<Time>) -> bool {
    match expiry {
        Expiry::At(deadline) => match now {
            Some(t) => t.0 < deadline.0,
            None => false,
        },
        _ => true,
    }
}

/// Whether a cache entry is valid right now: every golden-thread edge is
/// still at its pinned generation and, if it carries a deadline, the clock
/// reads before it (with no clock, a deadline counts as passed).
pub fn entry_is_valid(
    gens: &Generations,
    edges: &Vec<(String, u64)>,
    expiry: Expiry,
    now: Option<Time>,
) -> (r: bool)
    ensures
        r == (edges_hold(kv_view(edges@), gens@) && unexpired(expiry, now)),
{
    let current = gens.edges_current(edges);
    let fresh = match expiry {
        Expiry::At(deadline) => match now {
            Some(t) => t.0 < deadline.0,
            None => false,
        },
        _ => true,
    };
    current && fresh
}

/// Whether a result may be stored: only for a cacheable verb, never when
/// volatile (`Always`), always when permanent (`Never`), and for a deadline
/// only when a clock is present to evaluate it later.
pub open spec fn may_store(cacheable_verb: bool, expiry: Expiry, has_clock: bool) -> bool {
    cacheable_verb && match expiry {
        Expiry::Always => false,
        Expiry::Never => true,
        Expiry::At(_) => has_clock,
    }
}

/// Whether a result may be stored.
pub fn storable(cacheable_verb: bool, expiry: Expiry, has_clock: bool) -> (r: bool)
    ensures
        r == may_store(cacheable_verb, expiry, has_clock),
{
    cacheable_verb && match expiry {
        Expiry::Always => false,
        Expiry::Never => true,
        Expiry::At(_) => has_clock,
    }
}

/// The effective expiry of a computed result: its own met with that of every
/// dependency it resolved and, when piped, with the upstream stage's.
pub open spec fn effective(own: Expiry, dependency: Expiry, incoming: Option<Expiry>) -> Expiry {
    match incoming {
        Some(i) => meet(meet(own, dependency), i),
        None => meet(own, dependency),
    }
}

/// The effective expiry of a computed result.
pub fn effective_expiry(own: Expiry, dependency: Expiry, incoming: Option<Expiry>) -> (r: Expiry)
    ensures
        r == effective(own, dependency, incoming),
{
    let e = own.most_restrictive(dependency);
    match incoming {
        Some(i) => e.most_restrictive(i),
        None => e,
    }
}

/// The expiry of a piped input, if any.
pub open spec fn incoming_expiry(incoming: Option<&Provenance>) -> Option<Expiry> {
    match incoming {
        Some(p) => Some(p.expiry),
        None => None,
    }
}

/// The golden threads of a piped input, if any.
pub open spec fn incoming_threads(incoming: Option<&Provenance>) -> Set<Seq<char>> {
    match incoming {
        Some(p) => p.threads@,
        None => Set::empty(),
    }
}

/// What a computed result settles to once its endpoint has answered: the
/// endpoint's type and bytes, no fresher than its own expiry, its
/// dependencies' and the piped input's, and depending on every golden thread
/// any of them declared, so that cutting any part invalidates the whole.
pub fn settle(
    representation: Representation,
    dependency_expiry: Expiry,
    dependency_threads: &StrSet,
    incoming: Option<&Provenance>,
) -> (r: Representation)
    ensures
        r.repr_type == representation.repr_type,
        r.bytes@ == representation.bytes@,
        r.expiry == effective(representation.expiry, dependency_expiry, incoming_expiry(incoming)),
        r.spec_threads() == representation.spec_threads().union(dependency_threads@).union(
            incoming_threads(incoming),
        ),
{
    let expiry = effective_expiry(
        representation.expiry,
        dependency_expiry,
        match incoming {
            Some(p) => Some(p.expiry),
            None => None,
        },
    );
    let mut threads = representation.threads().duplicate();
    threads.extend(dependency_threads);
    match incoming {
        Some(p) => threads.extend(&p.threads),
        None => {
            assert(threads@.union(Set::empty()) =~= threads@);
        },
    }
    representation.with_expiry(expiry).with_threads(threads)
}

/// A composite is never fresher than any of its parts: if any is volatile
/// the result is, and a result that may be stored permanently had only
/// permanent parts.
pub proof fn lemma_effective_is_no_fresher(own: Expiry, dependency: Expiry, incoming: Option<Expiry>)
    ensures
        (own is Always || dependency is Always || incoming == Some(Expiry::Always)) ==> effective(
            own,
            dependency,
            incoming,
        ) is Always,
        effective(own, dependency, incoming) is Never ==> own is Never && dependency is Never && (
        incoming is None || incoming == Some(Expiry::Never)),
{
    crate::repr::lemma_meet_is_no_fresher(own, dependency);
    if let Some(i) = incoming {
        crate::repr::lemma_meet_is_no_fresher(meet(own, dependency), i);
    }
}

/// The message refusing a kernel operation the capability does not grant.
pub open spec fn refusal(scope: Seq<char>) -> Seq<char> {
    "kernel: capability does not grant `"@ + scope + "`"@
}

/// Authorize a kernel operation, or report a capability denial.
pub fn require_cap(capability: &Capability, scope: &str) -> (r: Result<(), Error>)
    ensures
        match r {
            Ok(()) => capability.grants(scope@),
            Err(e) => {
                &&& !capability.grants(scope@)
                &&& e matches Error::Endpoint(m) && m@ == refusal(scope@)
            },
        },
{
    if capability.allows(scope) {
        Ok(())
    } else {
        let m = concat_str("kernel: capability does not grant `", scope);
        Err(Error::Endpoint(concat_str(m.as_str(), "`")))
    }
}

/// `std::str::from_utf8`: the text the bytes encode, when they are valid
/// UTF-8 (as std documents: `Err` exactly on invalid UTF-8).
#[verifier::external_body]
pub(crate) fn utf8_text(bytes: &[u8]) -> (r: Option<&str>)
    ensures
        r is Some <==> valid_utf8(bytes@),
        r matches Some(s) ==> s@ == decode_utf8(bytes@),
{
    std::str::from_utf8(bytes).ok()
}

/// The text of an inline argument, when it is present and valid UTF-8.
pub open spec fn inline_text_of(arg: Option<ArgModel>) -> Option<Seq<char>> {
    match arg {
        Some(ArgModel::Inline(b)) => if valid_utf8(b) {
            Some(decode_utf8(b))
        } else {
            None
        },
        _ => None,
    }
}

/// The inline argument `name` of a request, decoded as UTF-8.
pub fn inline_text(request: &Request, name: &str) -> (r: Option<String>)
    ensures
        match r {
            Some(s) => inline_text_of(lookup(request@.args, name@)) == Some(s@),
            None => inline_text_of(lookup(request@.args, name@)) is None,
        },
{
    match request.arg(name) {
        Some(ArgRef::Inline(bytes)) => match utf8_text(bytes.as_slice()) {
            Some(s) => Some(copy_str(s)),
            None => None,
        },
        _ => None,
    }
}

/// The representation type a `Meta` request asks for: its `as` argument when
/// that is inline text, else `text/turtle`.
pub fn meta_target(request: &Request) -> (r: ReprType)
    ensures
        r.spec_params().len() == 0,
        r.spec_media_type() == match inline_text_of(lookup(request@.args, "as"@)) {
            Some(m) => m,
            None => "text/turtle"@,
        },
{
    match inline_text(request, "as") {
        Some(m) => ReprType::new(m.as_str()),
        None => ReprType::new("text/turtle"),
    }
}

/// The kernel operations the kernel serves, by operation and verb.
#[derive(Clone, Copy, Debug, PartialEq, Eq, Structural)]
pub enum KernelRoute {
    /// `Sink urn:kernel:cut`: cut a golden thread.
    Cut,
    /// `Source urn:kernel:cache`: the cache readout.
    Cache,
    /// `Source urn:kernel:threads`: the cut threads.
    Threads,
    /// `Source urn:kernel:scheduler`: the scheduler readout.
    Scheduler,
    /// `Source urn:kernel:constraint`: the throughput readout.
    Constraint,
    /// `Source urn:kernel:catalog`: every bound endpoint's description.
    Catalog,
    /// `Meta urn:kernel:actions`: the selector's own description.
    DescribeActions,
    /// `Source urn:kernel:actions`: the action manifold.
    Actions,
}

/// The route serving `verb` on the operation `op`, if any.
pub open spec fn route_of(op: Seq<char>, verb: Verb) -> Option<KernelRoute> {
    if op == "cut"@ && verb == Verb::Sink {
        Some(KernelRoute::Cut)
    } else if op == "cache"@ && verb == Verb::Source {
        Some(KernelRoute::Cache)
    } else if op == "threads"@ && verb == Verb::Source {
        Some(KernelRoute::Threads)
    } else if op == "scheduler"@ && verb == Verb::Source {
        Some(KernelRoute::Scheduler)
    } else if op == "constraint"@ && verb == Verb::Source {
        Some(KernelRoute::Constraint)
    } else if op == "catalog"@ && verb == Verb::Source {
        Some(KernelRoute::Catalog)
    } else if op == "actions"@ && verb == Verb::Meta {
        Some(KernelRoute::DescribeActions)
    } else if op == "actions"@ && verb == Verb::Source {
        Some(KernelRoute::Actions)
    } else {
        None
    }
}

/// The capability scope a route enforces, if it is gated.
pub open spec fn route_scope(r: KernelRoute) -> Option<Seq<char>> {
    match r {
        KernelRoute::Cut => Some(crate::kernel_ops::CAP_CUT@),
        KernelRoute::DescribeActions => None,
        _ => Some(crate::kernel_ops::CAP_INSPECT@),
    }
}

/// Route a `urn:kernel:*` request: the operation `op` (the part after the
/// namespace) with `verb`, or `Unresolved` for a pair the kernel does not
/// serve.
pub fn route(op: &str, verb: Verb, target: &crate::iri::Iri) -> (r: Result<KernelRoute, Error>)
    ensures
        match route_of(op@, verb) {
            Some(k) => r == Ok::<KernelRoute, Error>(k),
            None => r matches Err(Error::Unresolved(t)) && t@ == target@,
        },
{
    if str_eq(op, "cut") && verb == Verb::Sink {
        Ok(KernelRoute::Cut)
    } else if str_eq(op, "cache") && verb == Verb::Source {
        Ok(KernelRoute::Cache)
    } else if str_eq(op, "threads") && verb == Verb::Source {
        Ok(KernelRoute::Threads)
    } else if str_eq(op, "scheduler") && verb == Verb::Source {
        Ok(KernelRoute::Scheduler)
    } else if str_eq(op, "constraint") && verb == Verb::Source {
        Ok(KernelRoute::Constraint)
    } else if str_eq(op, "catalog") && verb == Verb::Source {
        Ok(KernelRoute::Catalog)
    } else if str_eq(op, "actions") && verb == Verb::Meta {
        Ok(KernelRoute::DescribeActions)
    } else if str_eq(op, "actions") && verb == Verb::Source {
        Ok(KernelRoute::Actions)
    } else {
        Err(Error::Unresolved(target.duplicate()))
    }
}

/// Gate a route on the capability: `Ok` when it is ungated or the
/// capability grants its scope.
pub fn authorize(capability: &Capability, r: KernelRoute) -> (res: Result<(), Error>)
    ensures
        match route_scope(r) {
            None => res is Ok,
            Some(s) => match res {
                Ok(()) => capability.grants(s),
                Err(e) => {
                    &&& !capability.grants(s)
                    &&& e matches Error::Endpoint(m) && m@ == refusal(s)
                },
            },
        },
{
    match r {
        KernelRoute::Cut => require_cap(capability, crate::kernel_ops::CAP_CUT),
        KernelRoute::DescribeActions => Ok(()),
        _ => require_cap(capability, crate::kernel_ops::CAP_INSPECT),
    }
}

/// A description with one selectable verb and no explicit actions requires
/// its flat scopes for that verb and none for any other.
proof fn lemma_single_verb_scopes(d: crate::describe::DescriptionView, v: Verb, verb: Verb)
    requires
        d.verbs == seq![v, Verb::Meta],
        d.actions.len() == 0,
        !(v is Meta),
    ensures
        crate::describe::scopes_for(crate::describe::normalized_actions(d), verb) == if verb == v {
            d.requires
        } else {
            Seq::empty()
        },
{
    let vs = seq![v, Verb::Meta];
    assert(vs.drop_last() =~= seq![v]);
    assert(seq![v].drop_last() =~= Seq::<Verb>::empty());
    assert(crate::describe::selectable_verbs(Seq::<Verb>::empty()) =~= Seq::<Verb>::empty());
    assert(crate::describe::selectable_verbs(seq![v]) =~= seq![v]);
    assert(crate::describe::selectable_verbs(vs) =~= seq![v]);
    let acts = crate::describe::normalized_actions(d);
    let a = crate::describe::action_for(d, v);
    assert(crate::describe::explicit_action(d.actions, v, 0) is None);
    assert(a.verb == v);
    assert(a.requires == d.requires);
    assert(acts =~= seq![a]);
    assert(acts.drop_last() =~= Seq::<crate::describe::ActionView>::empty());
    assert(crate::describe::scopes_for(acts.drop_last(), verb) =~= Seq::<Seq<char>>::empty());
    assert(crate::describe::scopes_for(acts, verb) =~= if verb == v {
        d.requires
    } else {
        Seq::empty()
    });
}

/// A kernel operation's declaration never offers more than its route
/// enforces: every scope its description requires for a verb is the scope the
/// kernel gates that verb on.
pub proof fn lemma_declared_scopes_are_enforced(op: Seq<char>, verb: Verb)
    requires
        route_of(op, verb) is Some,
        crate::kernel_ops::kernel_op_view(op) is Some,
    ensures
        forall|k: int|
            0 <= k < crate::describe::scopes_for(
                crate::describe::normalized_actions(crate::kernel_ops::kernel_op_view(op).unwrap()),
                verb,
            ).len() ==> route_scope(route_of(op, verb).unwrap()) == Some(
                #[trigger] crate::describe::scopes_for(
                    crate::describe::normalized_actions(
                        crate::kernel_ops::kernel_op_view(op).unwrap(),
                    ),
                    verb,
                )[k],
            ),
{
    crate::kernel_ops::lemma_op_names();
    reveal_strlit("actions");
    reveal_strlit("cache");
    reveal_strlit("catalog");
    reveal_strlit("constraint");
    reveal_strlit("cut");
    reveal_strlit("scheduler");
    reveal_strlit("threads");
    let d = crate::kernel_ops::kernel_op_view(op).unwrap();
    if op == "actions"@ {
        lemma_single_verb_scopes(d, Verb::Source, verb);
        assert(d.requires =~= Seq::<Seq<char>>::empty());
    } else if op == "cut"@ {
        lemma_single_verb_scopes(d, Verb::Sink, verb);
    } else {
        lemma_single_verb_scopes(d, Verb::Source, verb);
    }
}

/// Whether `c` separates the entries of a `types` argument.
pub open spec fn is_type_separator(c: char) -> bool {
    c == ',' || c == ' ' || c == '\n' || c == '\t'
}

/// The pieces of `s` between type separators.
pub open spec fn type_pieces(s: Seq<char>) -> Seq<Seq<char>>
    decreases s.len(),
{
    if s.len() == 0 {
        seq![Seq::empty()]
    } else {
        let p = type_pieces(s.drop_last());
        if is_type_separator(s.last()) {
            p.push(Seq::empty())
        } else {
            p.update(p.len() - 1, p.last().push(s.last()))
        }
    }
}

proof fn lemma_type_pieces_len(s: Seq<char>)
    ensures
        type_pieces(s).len() >= 1,
    decreases s.len(),
{
    if s.len() > 0 {
        lemma_type_pieces_len(s.drop_last());
    }
}

/// The trimmed, non-empty pieces, in order.
pub open spec fn nonempty_trimmed(pieces: Seq<Seq<char>>) -> Seq<Seq<char>>
    decreases pieces.len(),
{
    if pieces.len() == 0 {
        Seq::empty()
    } else {
        let p = nonempty_trimmed(pieces.drop_last());
        let t = crate::tokens::trim(pieces.last());
        if t.len() > 0 {
            p.push(t)
        } else {
            p
        }
    }
}

/// The class IRIs a `types` argument names: split on commas, spaces,
/// newlines and tabs, each trimmed, empty ones dropped.
pub fn split_types(types: &str) -> (r: Vec<String>)
    ensures
        views_of(r@) == nonempty_trimmed(type_pieces(types@)),
{
    let cs = crate::text::chars_of(types);
    let mut out: Vec<String> = Vec::new();
    let mut cur: Vec<char> = Vec::new();
    let mut i: usize = 0;
    while i < cs.len()
        invariant
            i <= cs@.len(),
            cs@ == types@,
            type_pieces(cs@.take(i as int)).len() >= 1,
            views_of(out@) == nonempty_trimmed(type_pieces(cs@.take(i as int)).drop_last()),
            cur@ == type_pieces(cs@.take(i as int)).last(),
        decreases cs@.len() - i,
    {
        let ghost p = type_pieces(cs@.take(i as int));
        proof {
            assert(cs@.take(i + 1).drop_last() =~= cs@.take(i as int));
            lemma_type_pieces_len(cs@.take(i + 1));
        }
        let c = cs[i];
        if c == ',' || c == ' ' || c == '\n' || c == '\t' {
            let t = crate::tokens::trim_of(cur.as_slice());
            if t.len() > 0 {
                out.push(crate::text::string_from(t.as_slice()));
            }
            proof {
                let q = type_pieces(cs@.take(i + 1));
                assert(q == p.push(Seq::empty()));
                assert(q.drop_last() =~= p);
                assert(p.drop_last() =~= p.drop_last());
                assert(views_of(out@) =~= nonempty_trimmed(p));
            }
            cur = Vec::new();
        } else {
            cur.push(c);
            proof {
                let q = type_pieces(cs@.take(i + 1));
                assert(q.drop_last() =~= p.drop_last());
            }
        }
        i = i + 1;
    }
    proof {
        assert(cs@.take(cs@.len() as int) =~= cs@);
        let p = type_pieces(cs@);
        assert(p.drop_last().push(p.last()) =~= p);
    }
    let t = crate::tokens::trim_of(cur.as_slice());
    if t.len() > 0 {
        out.push(crate::text::string_from(t.as_slice()));
    }
    proof {
        let p = type_pieces(types@);
        assert(p.drop_last().push(p.last()) =~= p);
        assert(views_of(out@) =~= nonempty_trimmed(p));
    }
    out
}

/// The readout of a cut.
pub fn cut_text(thread: &str) -> (r: String)
    ensures
        r@ == "cut "@ + thread@ + "\n"@,
{
    let mut out = concat_str("cut ", thread);
    out.append("\n");
    out
}

/// A `text/plain;charset=utf-8` representation of live kernel state; not
/// cacheable.
pub fn kernel_text(body: &str) -> (r: Representation)
    ensures
        r.repr_type.spec_media_type() == "text/plain"@,
        r.repr_type.spec_params() == seq![("charset"@, "utf-8"@)],
        r.bytes@ == encode_utf8(body@),
        r.expiry == Expiry::Always,
        r.spec_threads() == Set::<Seq<char>>::empty(),
{
    let t = ReprType::new("text/plain").with_param("charset", "utf-8");
    assert(t.spec_params() =~= seq![("charset"@, "utf-8"@)]);
    Representation::new(t, vstd::slice::slice_to_vec(body.as_bytes()))
}

/// The thread a `cut` names: its inline `thread` argument, else the sunk
/// `content`.
pub fn cut_thread(request: &Request) -> (r: Result<String, Error>)
    ensures
        match inline_text_of(lookup(request@.args, "thread"@)) {
            Some(t) => r matches Ok(s) && s@ == t,
            None => match inline_text_of(lookup(request@.args, "content"@)) {
                Some(c) => r matches Ok(s) && s@ == c,
                None => r matches Err(Error::MissingArgument(n)) && n@ == "thread"@,
            },
        },
{
    match inline_text(request, "thread") {
        Some(t) => Ok(t),
        None => match inline_text(request, "content") {
            Some(c) => Ok(c),
            None => Err(Error::MissingArgument(copy_str("thread"))),
        },
    }
}

/// The classes an `actions` request names in its inline `types` argument.
pub fn action_types(request: &Request) -> (r: Result<Vec<String>, Error>)
    ensures
        match inline_text_of(lookup(request@.args, "types"@)) {
            Some(t) => r matches Ok(v) && views_of(v@) == nonempty_trimmed(type_pieces(t)),
            None => r matches Err(Error::MissingArgument(n)) && n@ == "types"@,
        },
{
    match inline_text(request, "types") {
        Some(t) => Ok(split_types(t.as_str())),
        None => Err(Error::MissingArgument(copy_str("types"))),
    }
}

/// One line per matched endpoint.
pub open spec fn endpoint_lines(ms: Seq<crate::select::ActionMatch>) -> Seq<char>
    decreases ms.len(),
{
    if ms.len() == 0 {
        Seq::empty()
    } else {
        endpoint_lines(ms.drop_last()) + ms.last().endpoint@ + "\n"@
    }
}

/// The `actions` readout: each matched endpoint on a line of its own, as
/// cacheable `text/plain;charset=utf-8`.
pub fn actions_listing(matches: &[crate::select::ActionMatch]) -> (r: Representation)
    ensures
        r.repr_type.spec_media_type() == "text/plain"@,
        r.repr_type.spec_params() == seq![("charset"@, "utf-8"@)],
        r.bytes@ == encode_utf8(endpoint_lines(matches@)),
        r.expiry == Expiry::Never,
        r.spec_threads() == Set::<Seq<char>>::empty(),
{
    let mut body = String::new();
    let mut i: usize = 0;
    while i < matches.len()
        invariant
            i <= matches@.len(),
            body@ == endpoint_lines(matches@.take(i as int)),
        decreases matches@.len() - i,
    {
        body.append(matches[i].endpoint.as_str());
        body.append("\n");
        proof {
            assert(matches@.take(i + 1).drop_last() =~= matches@.take(i as int));
        }
        i = i + 1;
    }
    proof {
        assert(matches@.take(matches@.len() as int) =~= matches@);
    }
    kernel_text(body.as_str()).cacheable()
}

/// The catalog: each rendered description without its trailing whitespace,
/// closed by a newline.
pub open spec fn catalog_text(texts: Seq<Seq<char>>) -> Seq<char>
    decreases texts.len(),
{
    if texts.len() == 0 {
        Seq::empty()
    } else {
        catalog_text(texts.drop_last()) + crate::tokens::trim_end(texts.last()) + "\n"@
    }
}

/// The kernel's catalog over the Turtle descriptions of its bound endpoints,
/// as cacheable `text/turtle;charset=utf-8`.
pub fn catalog_listing(texts: &[String]) -> (r: Representation)
    ensures
        r.repr_type.spec_media_type() == "text/turtle"@,
        r.repr_type.spec_params() == seq![("charset"@, "utf-8"@)],
        r.bytes@ == encode_utf8(catalog_text(views_of(texts@))),
        r.expiry == Expiry::Never,
        r.spec_threads() == Set::<Seq<char>>::empty(),
{
    let mut body = String::new();
    let mut i: usize = 0;
    while i < texts.len()
        invariant
            i <= texts@.len(),
            body@ == catalog_text(views_of(texts@).take(i as int)),
        decreases texts@.len() - i,
    {
        let cs = crate::text::chars_of(texts[i].as_str());
        let trimmed = crate::tokens::trim_end_of(cs.as_slice());
        body.append(crate::text::string_from(trimmed.as_slice()).as_str());
        body.append("\n");
        proof {
            assert(views_of(texts@).take(i + 1).drop_last() =~= views_of(texts@).take(i as int));
        }
        i = i + 1;
    }
    proof {
        assert(views_of(texts@).take(texts@.len() as int) =~= views_of(texts@));
    }
    let t = ReprType::new("text/turtle").with_param("charset", "utf-8");
    assert(t.spec_params() =~= seq![("charset"@, "utf-8"@)]);
    Representation::new(t, vstd::slice::slice_to_vec(body.as_str().as_bytes())).cacheable()
}

/// The cache readout: its entry count.
pub fn cache_text(entries: usize) -> (r: String)
    ensures
        r@ == "cache\n  entries  "@ + crate::decimal::decimal_of(entries as nat) + "\n"@,
{
    let mut out = copy_str("cache\n  entries  ");
    out.append(crate::decimal::decimal(entries as u64).as_str());
    out.append("\n");
    out
}

/// One line per cut thread.
pub open spec fn thread_lines(rows: Seq<(Seq<char>, u64)>) -> Seq<char>
    decreases rows.len(),
{
    if rows.len() == 0 {
        Seq::empty()
    } else {
        thread_lines(rows.drop_last()) + "  "@ + rows.last().0 + "  gen "@
            + crate::decimal::decimal_of(rows.last().1 as nat) + "\n"@
    }
}

/// The threads readout.
pub open spec fn threads_readout(gens: Seq<(Seq<char>, u64)>) -> Seq<char> {
    "threads (cut generations)\n"@ + if gens.len() == 0 {
        "  (none cut)\n"@
    } else {
        thread_lines(gens)
    }
}

/// The threads readout: each cut thread with its generation, in thread order.
pub fn threads_text(gens: &Generations) -> (r: String)
    ensures
        r@ == threads_readout(gens@),
{
    let mut out = copy_str("threads (cut generations)\n");
    if gens.is_empty() {
        out.append("  (none cut)\n");
        return out;
    }
    let rows = gens.rows();
    let ghost rv = kv_view(rows@);
    let ghost head = out@;
    let mut i: usize = 0;
    while i < rows.len()
        invariant
            i <= rows@.len(),
            rv == kv_view(rows@),
            out@ == head + thread_lines(rv.take(i as int)),
        decreases rows@.len() - i,
    {
        proof {
            assert(rv.take(i + 1).drop_last() =~= rv.take(i as int));
            assert(rv.take(i + 1).last() == (rows@[i as int].0@, rows@[i as int].1));
        }
        out.append("  ");
        out.append(rows[i].0.as_str());
        out.append("  gen ");
        out.append(crate::decimal::decimal(rows[i].1).as_str());
        out.append("\n");
        proof {
            assert(out@ =~= head + thread_lines(rv.take(i + 1)));
        }
        i = i + 1;
    }
    proof {
        assert(rv.take(rows@.len() as int) =~= rv);
    }
    out
}

/// `label` padded with spaces to ten characters.
pub open spec fn padded(label: Seq<char>) -> Seq<char> {
    if label.len() < 10 {
        label + Seq::new((10 - label.len()) as nat, |_i: int| ' ')
    } else {
        label
    }
}

/// One line per scheduler row.
pub open spec fn scheduler_lines(rows: Seq<(Seq<char>, Seq<char>)>) -> Seq<char>
    decreases rows.len(),
{
    if rows.len() == 0 {
        Seq::empty()
    } else {
        scheduler_lines(rows.drop_last()) + "  "@ + padded(rows.last().0) + " "@ + rows.last().1
            + "\n"@
    }
}

/// The scheduler readout: the reporter's rows, or the runtime-free
/// single-threaded default when no reporter is injected.
pub open spec fn scheduler_readout(rows: Option<Seq<(Seq<char>, Seq<char>)>>) -> Seq<char> {
    "scheduler\n"@ + match rows {
        Some(r) => scheduler_lines(r),
        None => "  backend    single\n  threads    1\n"@,
    }
}

/// The views of labelled rows.
pub open spec fn rows_view(rows: Seq<(String, String)>) -> Seq<(Seq<char>, Seq<char>)> {
    rows.map_values(|p: (String, String)| (p.0@, p.1@))
}

/// `label` padded with spaces to ten characters.
fn pad_label(label: &str) -> (r: String)
    ensures
        r@ == padded(label@),
{
    let mut out = copy_str(label);
    let n = label.unicode_len();
    let mut k: usize = n;
    while k < 10
        invariant
            n == label@.len(),
            n <= k <= 10 || (n > 10 && k == n),
            out@ == label@ + Seq::new((k - n) as nat, |_i: int| ' '),
        decreases 10 - k,
    {
        out.push(' ');
        proof {
            assert(out@ =~= label@ + Seq::new((k + 1 - n) as nat, |_i: int| ' '));
        }
        k = k + 1;
    }
    proof {
        if n >= 10 {
            assert(out@ =~= label@);
        } else {
            assert(k == 10);
        }
    }
    out
}

/// The scheduler readout.
pub fn scheduler_text(rows: Option<&Vec<(String, String)>>) -> (r: String)
    ensures
        r@ == scheduler_readout(
            match rows {
                Some(v) => Some(rows_view(v@)),
                None => None,
            },
        ),
{
    let mut out = copy_str("scheduler\n");
    match rows {
        None => {
            out.append("  backend    single\n  threads    1\n");
            out
        },
        Some(v) => {
            let ghost rv = rows_view(v@);
            let ghost head = out@;
            let mut i: usize = 0;
            while i < v.len()
                invariant
                    i <= v@.len(),
                    rv == rows_view(v@),
                    out@ == head + scheduler_lines(rv.take(i as int)),
                decreases v@.len() - i,
            {
                proof {
                    assert(rv.take(i + 1).drop_last() =~= rv.take(i as int));
                    assert(rv.take(i + 1).last() == (v@[i as int].0@, v@[i as int].1@));
                }
                out.append("  ");
                out.append(pad_label(v[i].0.as_str()).as_str());
                out.append(" ");
                out.append(v[i].1.as_str());
                out.append("\n");
                proof {
                    assert(out@ =~= head + scheduler_lines(rv.take(i + 1)));
                }
                i = i + 1;
            }
            proof {
                assert(rv.take(v@.len() as int) =~= rv);
            }
            out
        },
    }
}

/// How many recent resolutions the constraint readout aggregates over.
pub const CONSTRAINT_WINDOW: usize = 512;

/// One sampled resolution: which resource, how long it took to compute (when
/// the kernel has a clock), and whether the cache served it.
#[derive(Debug)]
pub struct ResolutionSample {
    /// The resolved target IRI.
    pub target: String,
    /// The compute time in milliseconds, when the kernel has a clock.
    pub elapsed_ms: Option<u64>,
    /// Whether the cache served it.
    pub cache_hit: bool,
}

/// A sample as the specification sees it.
pub struct SampleView {
    pub target: Seq<char>,
    pub elapsed_ms: Option<u64>,
    pub cache_hit: bool,
}

impl View for ResolutionSample {
    type V = SampleView;

    open spec fn view(&self) -> SampleView {
        SampleView { target: self.target@, elapsed_ms: self.elapsed_ms, cache_hit: self.cache_hit }
    }
}

/// The samples' views.
pub open spec fn samples_view(v: Seq<ResolutionSample>) -> Seq<SampleView> {
    v.map_values(|x: ResolutionSample| x@)
}

/// The window after recording `s`: the oldest sample drops out once the
/// window is full.
pub open spec fn window_after(w: Seq<SampleView>, s: SampleView) -> Seq<SampleView> {
    if w.len() >= CONSTRAINT_WINDOW {
        w.drop_first().push(s)
    } else {
        w.push(s)
    }
}

/// The rolling window of recent resolutions.
#[derive(Debug)]
pub struct ConstraintWindow {
    samples: Vec<ResolutionSample>,
}

impl View for ConstraintWindow {
    type V = Seq<SampleView>;

    closed spec fn view(&self) -> Seq<SampleView> {
        samples_view(self.samples@)
    }
}

/// One target's aggregate over the window.
pub struct RowView {
    pub target: Seq<char>,
    /// Uncached compute time, in milliseconds (saturating).
    pub uncached_ms: u64,
    pub calls: nat,
    pub cached: nat,
    /// Whether any sample carried a compute time.
    pub timed: bool,
}

/// `a + b`, saturating at `u64::MAX`.
pub open spec fn sat_add(a: u64, b: u64) -> u64 {
    if a + b > u64::MAX {
        u64::MAX
    } else {
        (a + b) as u64
    }
}

/// A row folded with one more sample of its target.
pub open spec fn row_add(r: RowView, s: SampleView) -> RowView {
    RowView {
        target: r.target,
        uncached_ms: match s.elapsed_ms {
            Some(ms) => if s.cache_hit {
                r.uncached_ms
            } else {
                sat_add(r.uncached_ms, ms)
            },
            None => r.uncached_ms,
        },
        calls: r.calls + 1,
        cached: r.cached + if s.cache_hit {
            1nat
        } else {
            0nat
        },
        timed: r.timed || s.elapsed_ms is Some,
    }
}

/// The first index of `t`'s row, if any.
pub open spec fn row_index(rows: Seq<RowView>, t: Seq<char>) -> Option<int>
    decreases rows.len(),
{
    if rows.len() == 0 {
        None
    } else {
        match row_index(rows.drop_last(), t) {
            Some(i) => Some(i),
            None => if rows.last().target == t {
                Some(rows.len() - 1)
            } else {
                None
            },
        }
    }
}

/// The window aggregated per target, targets in order of first appearance.
pub open spec fn aggregate(samples: Seq<SampleView>) -> Seq<RowView>
    decreases samples.len(),
{
    if samples.len() == 0 {
        Seq::empty()
    } else {
        let rows = aggregate(samples.drop_last());
        let s = samples.last();
        let empty_row = RowView { target: s.target, uncached_ms: 0, calls: 0, cached: 0, timed: false };
        match row_index(rows, s.target) {
            Some(i) => rows.update(i, row_add(rows[i], s)),
            None => rows.push(row_add(empty_row, s)),
        }
    }
}

/// Whether `a` ranks strictly ahead of `b`: more uncached time, or as much
/// and more uncached calls.
pub open spec fn outranks(a: RowView, b: RowView) -> bool {
    a.uncached_ms > b.uncached_ms || (a.uncached_ms == b.uncached_ms && a.calls - a.cached > b.calls
        - b.cached)
}

/// The position `r` takes among `ranked`: before the first row it outranks.
pub open spec fn rank_position(ranked: Seq<RowView>, r: RowView) -> int
    decreases ranked.len(),
{
    if ranked.len() == 0 {
        0
    } else if outranks(r, ranked[0]) {
        0
    } else {
        1 + rank_position(ranked.drop_first(), r)
    }
}

/// The rows, heaviest first; rows that tie keep their order.
pub open spec fn ranked(rows: Seq<RowView>) -> Seq<RowView>
    decreases rows.len(),
{
    if rows.len() == 0 {
        Seq::empty()
    } else {
        let p = ranked(rows.drop_last());
        p.insert(rank_position(p, rows.last()), rows.last())
    }
}

/// A row's compute cost as the readout states it.
pub open spec fn cost_text(r: RowView) -> Seq<char> {
    if r.timed {
        crate::decimal::decimal_of(r.uncached_ms as nat) + "ms uncached"@
    } else {
        crate::decimal::decimal_of((r.calls - r.cached) as nat) + " uncached"@
    }
}

/// The share of a row's calls the cache served, in whole percent.
pub open spec fn cached_pct(r: RowView) -> nat {
    if r.calls > 0 {
        (r.cached * 100 / r.calls) as nat
    } else {
        0
    }
}

/// The readout line of one row; the leader is flagged as the constraint when
/// it consumed anything.
pub open spec fn row_line_text(r: RowView, leader: bool) -> Seq<char> {
    let marker = if leader && (r.uncached_ms > 0 || r.calls - r.cached > 0) {
        "   ← constraint"@
    } else {
        Seq::empty()
    };
    "  "@ + r.target + marker + "\n    "@ + cost_text(r) + " · "@ + crate::decimal::decimal_of(r.calls)
        + " calls · "@ + crate::decimal::decimal_of(cached_pct(r)) + "% cached\n"@
}

/// The readout lines of the first `n` ranked rows.
pub open spec fn row_lines(rows: Seq<RowView>, n: int) -> Seq<char>
    decreases n,
{
    if n <= 0 {
        Seq::empty()
    } else {
        row_lines(rows, n - 1) + row_line_text(rows[n - 1], n - 1 == 0)
    }
}

/// The constraint readout: the resources that consumed the most uncached
/// compute over the window, heaviest first, the leader flagged when it
/// consumed anything.
pub open spec fn constraint_readout(w: Seq<SampleView>) -> Seq<char> {
    let rows = ranked(aggregate(w));
    "constraint  (last "@ + crate::decimal::decimal_of(w.len()) + " resolutions)\n"@ + if rows.len()
        == 0 {
        "  (no resolutions yet)\n"@
    } else {
        row_lines(rows, if rows.len() < 5 {
            rows.len() as int
        } else {
            5
        })
    }
}

/// `row_index` finds the first row of a target.
proof fn lemma_row_index(rows: Seq<RowView>, t: Seq<char>)
    ensures
        match row_index(rows, t) {
            Some(i) => 0 <= i < rows.len() && rows[i].target == t && forall|j: int|
                0 <= j < i ==> (#[trigger] rows[j]).target != t,
            None => forall|j: int| 0 <= j < rows.len() ==> (#[trigger] rows[j]).target != t,
        },
    decreases rows.len(),
{
    if rows.len() > 0 {
        lemma_row_index(rows.drop_last(), t);
        assert forall|j: int| 0 <= j < rows.len() - 1 implies rows.drop_last()[j] == rows[j] by {}
    }
}

/// `rank_position` is the first row `r` outranks, or the end.
proof fn lemma_rank_position(ranked: Seq<RowView>, r: RowView)
    ensures
        0 <= rank_position(ranked, r) <= ranked.len(),
        forall|j: int| 0 <= j < rank_position(ranked, r) ==> !outranks(r, #[trigger] ranked[j]),
        rank_position(ranked, r) < ranked.len() ==> outranks(r, ranked[rank_position(ranked, r)]),
    decreases ranked.len(),
{
    if ranked.len() > 0 && !outranks(r, ranked[0]) {
        lemma_rank_position(ranked.drop_first(), r);
        assert forall|j: int| 0 <= j < rank_position(ranked, r) implies !outranks(
            r,
            #[trigger] ranked[j],
        ) by {
            if j > 0 {
                assert(ranked[j] == ranked.drop_first()[j - 1]);
            }
        }
    }
}

/// A row's counts are consistent and bounded by the window.
pub open spec fn row_ok(r: RowView) -> bool {
    r.cached <= r.calls <= CONSTRAINT_WINDOW
}

/// One target's aggregate.
struct Row {
    target: String,
    uncached_ms: u64,
    calls: usize,
    cached: usize,
    timed: bool,
}

impl View for Row {
    type V = RowView;

    closed spec fn view(&self) -> RowView {
        RowView {
            target: self.target@,
            uncached_ms: self.uncached_ms,
            calls: self.calls as nat,
            cached: self.cached as nat,
            timed: self.timed,
        }
    }
}

spec fn agg_view(v: Seq<Row>) -> Seq<RowView> {
    v.map_values(|r: Row| r@)
}

impl ConstraintWindow {
    /// The window holds at most `CONSTRAINT_WINDOW` samples.
    #[verifier::type_invariant]
    spec fn bounded(&self) -> bool {
        self.samples@.len() <= CONSTRAINT_WINDOW
    }

    /// An empty window.
    pub fn new() -> (r: ConstraintWindow)
        ensures
            r@ == Seq::<SampleView>::empty(),
    {
        let r = ConstraintWindow { samples: Vec::new() };
        assert(samples_view(r.samples@) =~= Seq::<SampleView>::empty());
        r
    }

    /// How many samples the window holds.
    pub fn len(&self) -> (r: usize)
        ensures
            r == self@.len(),
            r <= CONSTRAINT_WINDOW,
    {
        proof {
            use_type_invariant(self);
        }
        self.samples.len()
    }

    /// Record one resolution, dropping the oldest once the window is full.
    pub fn record(&mut self, target: &str, elapsed_ms: Option<u64>, cache_hit: bool)
        ensures
            final(self)@ == window_after(
                old(self)@,
                SampleView { target: target@, elapsed_ms, cache_hit },
            ),
    {
        proof {
            use_type_invariant(&*self);
        }
        let mut samples = Vec::new();
        std::mem::swap(&mut samples, &mut self.samples);
        let ghost before = samples_view(samples@);
        if samples.len() >= CONSTRAINT_WINDOW {
            samples.remove(0);
            proof {
                assert(samples_view(samples@) =~= before.drop_first());
            }
        }
        let ghost mid = samples_view(samples@);
        samples.push(ResolutionSample { target: copy_str(target), elapsed_ms, cache_hit });
        proof {
            assert(samples_view(samples@) =~= mid.push(SampleView { target: target@, elapsed_ms, cache_hit }));
        }
        self.samples = samples;
    }

    /// The window aggregated per target.
    fn aggregate_rows(&self) -> (r: Vec<Row>)
        ensures
            agg_view(r@) == aggregate(self@),
            forall|k: int| 0 <= k < r@.len() ==> row_ok(#[trigger] r@[k]@),
    {
        proof {
            use_type_invariant(self);
        }
        let ghost w = self@;
        let mut rows: Vec<Row> = Vec::new();
        let mut i: usize = 0;
        while i < self.samples.len()
            invariant
                w == samples_view(self.samples@),
                self.samples@.len() <= CONSTRAINT_WINDOW,
                i <= self.samples@.len(),
                agg_view(rows@) == aggregate(w.take(i as int)),
                forall|k: int| 0 <= k < rows@.len() ==> (#[trigger] rows@[k]).calls <= i && rows@[k].cached <= rows@[k].calls,
                forall|k: int| 0 <= k < rows@.len() ==> row_ok(#[trigger] rows@[k]@),
            decreases self.samples@.len() - i,
        {
            let ghost before = agg_view(rows@);
            let sample = &self.samples[i];
            proof {
                assert(w.take(i + 1).drop_last() =~= w.take(i as int));
                assert(w.take(i + 1).last() == sample@);
                lemma_row_index(before, sample@.target);
            }
            let mut found: Option<usize> = None;
            let mut k: usize = 0;
            while k < rows.len()
                invariant
                    k <= rows@.len(),
                    before == agg_view(rows@),
                    found is None ==> forall|j: int| 0 <= j < k ==> (#[trigger] before[j]).target != sample@.target,
                    found matches Some(f) ==> f < rows@.len() && before[f as int].target == sample@.target
                        && forall|j: int| 0 <= j < f ==> (#[trigger] before[j]).target != sample@.target,
                decreases rows@.len() - k,
            {
                if found.is_none() && str_eq(rows[k].target.as_str(), sample.target.as_str()) {
                    found = Some(k);
                }
                assert(before[k as int] == rows@[k as int]@);
                k = k + 1;
            }
            let add_ms: u64 = match sample.elapsed_ms {
                Some(ms) => if sample.cache_hit {
                    0
                } else {
                    ms
                },
                None => 0,
            };
            let hit: usize = if sample.cache_hit {
                1
            } else {
                0
            };
            match found {
                Some(f) => {
                    proof {
                        assert(row_index(before, sample@.target) == Some(f as int));
                    }
                    let old_row = &rows[f];
                    let row = Row {
                        target: copy_str(old_row.target.as_str()),
                        uncached_ms: old_row.uncached_ms.saturating_add(add_ms),
                        calls: old_row.calls + 1,
                        cached: old_row.cached + hit,
                        timed: old_row.timed || sample.elapsed_ms.is_some(),
                    };
                    proof {
                        assert(row@ == row_add(before[f as int], sample@));
                    }
                    rows.set(f, row);
                    proof {
                        assert(agg_view(rows@) =~= before.update(f as int, row_add(before[f as int], sample@)));
                    }
                },
                None => {
                    proof {
                        assert(row_index(before, sample@.target) is None);
                    }
                    let row = Row {
                        target: copy_str(sample.target.as_str()),
                        uncached_ms: add_ms,
                        calls: 1,
                        cached: hit,
                        timed: sample.elapsed_ms.is_some(),
                    };
                    rows.push(row);
                    proof {
                        let empty_row = RowView {
                            target: sample@.target,
                            uncached_ms: 0,
                            calls: 0,
                            cached: 0,
                            timed: false,
                        };
                        assert(agg_view(rows@) =~= before.push(row_add(empty_row, sample@)));
                    }
                },
            }
            i = i + 1;
        }
        proof {
            assert(w.take(self.samples@.len() as int) =~= w);
        }
        rows
    }

    /// The constraint readout of this window.
    pub fn render(&self) -> (r: String)
        ensures
            r@ == constraint_readout(self@),
    {
        let rows = self.aggregate_rows();
        let ranked_rows = rank_rows(rows);
        let mut body = copy_str("constraint  (last ");
        body.append(crate::decimal::decimal(self.len() as u64).as_str());
        body.append(" resolutions)\n");
        if ranked_rows.len() == 0 {
            body.append("  (no resolutions yet)\n");
            return body;
        }
        let n: usize = if ranked_rows.len() < 5 {
            ranked_rows.len()
        } else {
            5
        };
        let ghost rv = agg_view(ranked_rows@);
        let ghost head = body@;
        let mut k: usize = 0;
        while k < n
            invariant
                k <= n,
                n <= ranked_rows@.len(),
                rv == agg_view(ranked_rows@),
                forall|j: int| 0 <= j < ranked_rows@.len() ==> row_ok(#[trigger] ranked_rows@[j]@),
                body@ == head + row_lines(rv, k as int),
            decreases n - k,
        {
            proof {
                assert(rv[k as int] == ranked_rows@[k as int]@);
            }
            body.append(row_line(&ranked_rows[k], k == 0).as_str());
            k = k + 1;
        }
        proof {
            if rv.len() < 5 {
                assert(n == rv.len());
            }
        }
        body
    }
}

/// The readout line of one row.
fn row_line(r: &Row, leader: bool) -> (out: String)
    requires
        row_ok(r@),
    ensures
        out@ == row_line_text(r@, leader),
{
    let uncached = r.calls - r.cached;
    let mut body = copy_str("  ");
    body.append(r.target.as_str());
    let ghost a = body@;
    if leader && (r.uncached_ms > 0 || uncached > 0) {
        body.append("   ← constraint");
    }
    let ghost b = body@;
    body.append("\n    ");
    let cost = if r.timed {
        concat_str(crate::decimal::decimal(r.uncached_ms).as_str(), "ms uncached")
    } else {
        concat_str(crate::decimal::decimal(uncached as u64).as_str(), " uncached")
    };
    body.append(cost.as_str());
    body.append(" · ");
    body.append(crate::decimal::decimal(r.calls as u64).as_str());
    body.append(" calls · ");
    let pct: u64 = if r.calls > 0 {
        proof {
            assert(r.cached * 100 <= 512 * 100) by (nonlinear_arith)
                requires
                    r.cached <= 512,
            ;
        }
        (r.cached as u64) * 100 / (r.calls as u64)
    } else {
        0
    };
    body.append(crate::decimal::decimal(pct).as_str());
    body.append("% cached\n");
    proof {
        assert(cost@ == cost_text(r@));
        assert(pct as nat == cached_pct(r@));
        assert(b =~= a + (if leader && (r@.uncached_ms > 0 || r@.calls - r@.cached > 0) {
            "   ← constraint"@
        } else {
            Seq::<char>::empty()
        }));
        assert(body@ =~= row_line_text(r@, leader));
    }
    body
}

/// The rows ranked heaviest first, ties in their given order.
fn rank_rows(rows: Vec<Row>) -> (r: Vec<Row>)
    requires
        forall|j: int| 0 <= j < rows@.len() ==> row_ok(#[trigger] rows@[j]@),
    ensures
        agg_view(r@) == ranked(agg_view(rows@)),
        forall|j: int| 0 <= j < r@.len() ==> row_ok(#[trigger] r@[j]@),
{
    let ghost all = agg_view(rows@);
    let n0 = rows.len();
    let mut out: Vec<Row> = Vec::new();
    let mut rest = rows;
    let ghost given = rest@;
    let mut taken: usize = 0;
    proof {
        assert(rest@ =~= given.subrange(0, given.len() as int));
    }
    while rest.len() > 0
        invariant
            given.len() == n0,
            taken + rest@.len() == given.len(),
            rest@ == given.subrange(taken as int, given.len() as int),
            all == agg_view(given),
            agg_view(out@) == ranked(all.take(taken as int)),
            forall|j: int| 0 <= j < given.len() ==> row_ok(#[trigger] given[j]@),
            forall|j: int| 0 <= j < out@.len() ==> row_ok(#[trigger] out@[j]@),
        decreases rest@.len(),
    {
        let row = rest.remove(0);
        proof {
            assert(row == given[taken as int]);
            assert(row_ok(row@));
            assert(all.take(taken + 1).drop_last() =~= all.take(taken as int));
            assert(all.take(taken + 1).last() == row@);
        }
        let ghost p = agg_view(out@);
        let mut pos: usize = 0;
        let mut stop = false;
        while pos < out.len() && !stop
            invariant
                pos <= out@.len(),
                p == agg_view(out@),
                row_ok(row@),
                forall|j: int| 0 <= j < out@.len() ==> row_ok(#[trigger] out@[j]@),
                forall|j: int| 0 <= j < pos ==> !outranks(row@, #[trigger] p[j]),
                stop ==> pos < out@.len() && outranks(row@, p[pos as int]),
            decreases out@.len() - pos, if stop { 0int } else { 1int },
        {
            let o = &out[pos];
            assert(row_ok(out@[pos as int]@));
            let row_uncached = row.calls - row.cached;
            let o_uncached = o.calls - o.cached;
            assert(p[pos as int] == o@);
            if row.uncached_ms > o.uncached_ms || (row.uncached_ms == o.uncached_ms
                && row_uncached > o_uncached) {
                stop = true;
            } else {
                pos = pos + 1;
            }
        }
        proof {
            lemma_rank_position(p, row@);
            let rp = rank_position(p, row@);
            if pos < rp {
                assert(outranks(row@, p[pos as int]));
                assert(!outranks(row@, p[pos as int]));
            }
            if rp < pos {
                assert(!outranks(row@, p[rp]));
            }
            assert(pos == rp);
        }
        out.insert(pos, row);
        proof {
            assert(agg_view(out@) =~= p.insert(pos as int, row@));
            assert(given.subrange(taken + 1, given.len() as int) =~= rest@);
            assert forall|j: int| 0 <= j < out@.len() implies row_ok(#[trigger] out@[j]@) by {
                if j < pos {
                } else if j == pos {
                } else {
                }
            }
        }
        taken = taken + 1;
    }
    proof {
        assert(all.take(given.len() as int) =~= all);
    }
    out
}

/// The description `describe urn:kernel:actions` answers with: the selector
/// taking the present classes in `types`.
pub open spec fn actions_view() -> crate::describe::DescriptionView {
    crate::describe::DescriptionView {
        id: "kernel-actions"@,
        title: "Action selection"@,
        summary: crate::kernel_ops::ACTIONS_SUMMARY@,
        verbs: seq![Verb::Source, Verb::Meta],
        inputs: seq![
            crate::describe::ArgView {
                name: "types"@,
                summary: "present RDF class IRIs, comma- or space-separated"@,
                required: true,
                source: crate::describe::InputSource::Argument,
                class: None,
                default: None,
                one_of: Seq::empty(),
            },
        ],
        outputs: seq!["text/plain;charset=utf-8"@],
        kind: crate::describe::KindView::Endpoint,
        requires: Seq::empty(),
        actions: Seq::empty(),
    }
}

/// The selector's self-description, as the kernel serves it for `Meta`.
pub fn actions_description() -> (r: crate::describe::Description)
    ensures
        r@ == actions_view(),
{
    let r = crate::describe::Description::new("kernel-actions").title("Action selection").summary(
        crate::kernel_ops::ACTIONS_SUMMARY,
    ).verb(Verb::Source).verb(Verb::Meta).input(
        crate::describe::ArgSpec::new("types").summary(
            "present RDF class IRIs, comma- or space-separated",
        ),
    ).output("text/plain;charset=utf-8");
    assert(r@ =~= actions_view());
    r
}

/// A cached representation with the golden-thread edges it was stored under.
#[derive(Debug)]
pub struct KernelEntry {
    /// The cached representation.
    pub representation: Representation,
    /// Each thread it depends on, pinned to its generation at store time.
    pub edges: Vec<(String, u64)>,
}

/// The first position of `key` among `entries`.
pub open spec fn key_index(entries: Seq<(CacheKey, KernelEntry)>, key: CacheKey) -> Option<int>
    decreases entries.len(),
{
    if entries.len() == 0 {
        None
    } else {
        match key_index(entries.drop_last(), key) {
            Some(i) => Some(i),
            None => if key_view(entries.last().0) == key_view(key) {
                Some(entries.len() - 1)
            } else {
                None
            },
        }
    }
}

/// `key_index` finds the first entry under a key.
proof fn lemma_key_index(entries: Seq<(CacheKey, KernelEntry)>, key: CacheKey)
    ensures
        match key_index(entries, key) {
            Some(i) => 0 <= i < entries.len() && key_view(entries[i].0) == key_view(key) && forall|j: int|
                0 <= j < i ==> key_view((#[trigger] entries[j]).0) != key_view(key),
            None => forall|j: int| 0 <= j < entries.len() ==> key_view((#[trigger] entries[j]).0) != key_view(key),
        },
    decreases entries.len(),
{
    if entries.len() > 0 {
        lemma_key_index(entries.drop_last(), key);
        assert forall|j: int| 0 <= j < entries.len() - 1 implies entries.drop_last()[j] == entries[j] by {}
    }
}

/// Whether an entry may be served now.
pub open spec fn servable(e: KernelEntry, gens: Seq<(Seq<char>, u64)>, now: Option<Time>) -> bool {
    edges_hold(kv_view(e.edges@), gens) && unexpired(e.representation.expiry, now)
}

/// Whether an entry under `key` would be served at `now`: one is resident
/// and servable. Serving and probing both answer by this, so they never
/// disagree.
pub open spec fn servable_now(
    entries: Seq<(CacheKey, KernelEntry)>,
    gens: Seq<(Seq<char>, u64)>,
    key: CacheKey,
    now: Option<Time>,
) -> bool {
    match key_index(entries, key) {
        Some(i) => servable(entries[i].1, gens, now),
        None => false,
    }
}

/// The entries after storing `e` under `key`: replacing the entry under
/// `key`, or added at the end.
pub open spec fn stored(entries: Seq<(CacheKey, KernelEntry)>, key: CacheKey, e: KernelEntry) -> Seq<(CacheKey, KernelEntry)> {
    match key_index(entries, key) {
        Some(i) => entries.update(i, (key, e)),
        None => entries.push((key, e)),
    }
}

/// Whether no key occurs twice.
pub open spec fn distinct_keys(entries: Seq<(CacheKey, KernelEntry)>) -> bool {
    forall|i: int, j: int|
        0 <= i < j < entries.len() ==> key_view((#[trigger] entries[i]).0) != key_view((#[trigger] entries[j]).0)
}

/// The kernel's representation cache: one entry per key, served while its
/// edges hold and its deadline is ahead, evicted once found stale.
#[derive(Debug)]
pub struct KernelCache {
    entries: Vec<(CacheKey, KernelEntry)>,
}

impl KernelCache {
    /// No key twice.
    #[verifier::type_invariant]
    spec fn unique(&self) -> bool {
        distinct_keys(self.entries@)
    }

    /// The resident entries, in store order.
    pub closed spec fn resident(&self) -> Seq<(CacheKey, KernelEntry)> {
        self.entries@
    }

    /// An empty cache.
    pub fn new() -> (r: KernelCache)
        ensures
            r.resident() == Seq::<(CacheKey, KernelEntry)>::empty(),
    {
        KernelCache { entries: Vec::new() }
    }

    /// How many entries are resident.
    pub fn len(&self) -> (r: usize)
        ensures
            r == self.resident().len(),
    {
        self.entries.len()
    }

    fn find(&self, key: &CacheKey) -> (r: Option<usize>)
        ensures
            match r {
                Some(i) => key_index(self.resident(), *key) == Some(i as int) && i < self.resident().len(),
                None => key_index(self.resident(), *key) is None,
            },
    {
        proof {
            lemma_key_index(self.entries@, *key);
        }
        let mut i: usize = 0;
        while i < self.entries.len()
            invariant
                i <= self.entries@.len(),
                forall|j: int| 0 <= j < i ==> key_view((#[trigger] self.entries@[j]).0) != key_view(*key),
            decreases self.entries@.len() - i,
        {
            if self.entries[i].0.same(key) {
                proof {
                    lemma_key_index(self.entries@, *key);
                    if let Some(k) = key_index(self.entries@, *key) {
                        if k < i {
                            assert(key_view(self.entries@[k].0) != key_view(*key));
                        }
                        if k > i {
                            assert(key_view(self.entries@[i as int].0) != key_view(*key));
                        }
                    }
                }
                return Some(i);
            }
            i = i + 1;
        }
        None
    }

    /// Store `entry` under `key`, replacing what was there.
    pub fn insert(&mut self, key: CacheKey, entry: KernelEntry)
        ensures
            final(self).resident() == stored(old(self).resident(), key, entry),
    {
        proof {
            use_type_invariant(&*self);
            lemma_key_index(self.entries@, key);
        }
        let found = self.find(&key);
        let mut entries = Vec::new();
        std::mem::swap(&mut entries, &mut self.entries);
        let ghost before = entries@;
        match found {
            Some(i) => {
                entries.set(i, (key, entry));
                proof {
                    assert forall|a: int, b: int| 0 <= a < b < entries@.len() implies key_view(
                        (#[trigger] entries@[a]).0,
                    ) != key_view((#[trigger] entries@[b]).0) by {
                        if a == i as int {
                            assert(key_view(before[i as int].0) == key_view(key));
                        } else if b == i as int {
                            assert(key_view(before[i as int].0) == key_view(key));
                        }
                    }
                }
            },
            None => {
                entries.push((key, entry));
                proof {
                    assert forall|a: int, b: int| 0 <= a < b < entries@.len() implies key_view(
                        (#[trigger] entries@[a]).0,
                    ) != key_view((#[trigger] entries@[b]).0) by {
                        if b == before.len() {
                            assert(entries@[a] == before[a]);
                        } else {
                            assert(entries@[a] == before[a] && entries@[b] == before[b]);
                        }
                    }
                }
            },
        }
        self.entries = entries;
    }

    /// Whether `key` would be served now. Read-only.
    pub fn probe(&self, key: &CacheKey, gens: &Generations, now: Option<Time>) -> (r: bool)
        ensures
            r == servable_now(self.resident(), gens@, *key, now),
    {
        match self.find(key) {
            Some(i) => entry_is_valid(gens, &self.entries[i].1.edges, self.entries[i].1.representation.expiry, now),
            None => false,
        }
    }

    /// Serve `key` if its entry is servable now; a stale entry is evicted.
    pub fn serve(&mut self, key: &CacheKey, gens: &Generations, now: Option<Time>) -> (r: Option<Representation>)
        ensures
            r is Some <==> servable_now(old(self).resident(), gens@, *key, now),
            match key_index(old(self).resident(), *key) {
                None => r is None && final(self).resident() == old(self).resident(),
                Some(i) => if servable(old(self).resident()[i].1, gens@, now) {
                    let rep = old(self).resident()[i].1.representation;
                    &&& r matches Some(x) && x.bytes@ == rep.bytes@ && x.expiry == rep.expiry
                        && x.spec_threads() == rep.spec_threads()
                        && x.repr_type.spec_media_type() == rep.repr_type.spec_media_type()
                        && x.repr_type.spec_params() == rep.repr_type.spec_params()
                    &&& final(self).resident() == old(self).resident()
                } else {
                    r is None && final(self).resident() == old(self).resident().remove(i)
                },
            },
    {
        proof {
            use_type_invariant(&*self);
        }
        match self.find(key) {
            None => None,
            Some(i) => {
                let valid = entry_is_valid(
                    gens,
                    &self.entries[i].1.edges,
                    self.entries[i].1.representation.expiry,
                    now,
                );
                if valid {
                    Some(self.entries[i].1.representation.duplicate())
                } else {
                    let mut entries = Vec::new();
                    std::mem::swap(&mut entries, &mut self.entries);
                    let ghost before = entries@;
                    entries.remove(i);
                    proof {
                        assert forall|a: int, b: int| 0 <= a < b < entries@.len() implies key_view(
                            (#[trigger] entries@[a]).0,
                        ) != key_view((#[trigger] entries@[b]).0) by {
                            let a2 = if a < i { a } else { a + 1 };
                            let b2 = if b < i { b } else { b + 1 };
                            assert(entries@[a] == before[a2]);
                            assert(entries@[b] == before[b2]);
                        }
                    }
                    self.entries = entries;
                    None
                }
            },
        }
    }
}

/// What the kernel stores it serves: right after storing `e` under `key`,
/// the entry found under `key` is `e` — so it is served for as long as its
/// edges hold and its deadline is ahead.
pub proof fn lemma_stored_entry_is_found(
    entries: Seq<(CacheKey, KernelEntry)>,
    key: CacheKey,
    e: KernelEntry,
)
    requires
        distinct_keys(entries),
    ensures
        key_index(stored(entries, key, e), key) matches Some(i) && stored(entries, key, e)[i].1 == e,
{
    lemma_key_index(entries, key);
    let s = stored(entries, key, e);
    lemma_key_index(s, key);
    match key_index(entries, key) {
        Some(i) => {
            assert(s[i] == (key, e));
            if let Some(k) = key_index(s, key) {
                if k < i {
                    assert(s[k] == entries[k]);
                }
            }
        },
        None => {
            assert(s[entries.len() as int] == (key, e));
            if let Some(k) = key_index(s, key) {
                if k < entries.len() {
                    assert(s[k] == entries[k]);
                }
            }
        },
    }
}

/// The thread a `cut` request names: its inline `thread` argument, else
/// the sunk `content`.
pub open spec fn cut_target(m: crate::request::RequestModel) -> Option<Seq<char>> {
    match inline_text_of(lookup(m.args, "thread"@)) {
        Some(t) => Some(t),
        None => inline_text_of(lookup(m.args, "content"@)),
    }
}

/// What a kernel operation leaves to the host once the kernel has routed and
/// gated it and made any change of its own state.
#[derive(Debug)]
pub enum KernelStep {
    /// The operation is complete; this is its answer.
    Done(Representation),
    /// The operation is permitted and reads state the host holds; the host
    /// renders it.
    Read(KernelRoute),
}

/// One `urn:kernel:*` operation over the golden-thread generations: route
/// `op` with the request's verb, gate it on the capability, and perform a cut
/// only then, and only with a thread named. An operation that fails, for
/// whatever reason, leaves every generation as it was; a cut changes exactly
/// the thread it names; a read changes nothing.
pub fn kernel_op(op: &str, request: &Request, capability: &Capability, gens: &mut Generations) -> (r:
    Result<KernelStep, Error>)
    requires
        route_of(op@, request@.verb) == Some(KernelRoute::Cut) && capability.grants(
            crate::kernel_ops::CAP_CUT@,
        ) && cut_target(request@) is Some ==> generation(old(gens)@, cut_target(request@)->0)
            < u64::MAX,
    ensures
        r is Err ==> final(gens)@ == old(gens)@,
        match route_of(op@, request@.verb) {
            None => r matches Err(Error::Unresolved(t)) && t@ == request@.target,
            Some(k) => if route_scope(k) matches Some(s) && !capability.grants(s) {
                r matches Err(Error::Endpoint(m)) && m@ == refusal(route_scope(k)->0)
            } else if k is Cut {
                match cut_target(request@) {
                    Some(t) => {
                        &&& r matches Ok(KernelStep::Done(rep))
                        &&& rep.bytes@ == encode_utf8("cut "@ + t + "\n"@)
                        &&& rep.expiry == Expiry::Always
                        &&& rep.repr_type.spec_media_type() == "text/plain"@
                        &&& rep.repr_type.spec_params() == seq![("charset"@, "utf-8"@)]
                        &&& final(gens)@ == after_cut(old(gens)@, t)
                    },
                    None => r matches Err(Error::MissingArgument(n)) && n@ == "thread"@,
                }
            } else {
                &&& r matches Ok(KernelStep::Read(k2)) && k2 == k
                &&& final(gens)@ == old(gens)@
            },
        },
{
    let which = match route(op, request.verb(), request.target()) {
        Ok(k) => k,
        Err(e) => {
            return Err(e);
        },
    };
    match authorize(capability, which) {
        Ok(()) => {},
        Err(e) => {
            return Err(e);
        },
    }
    match which {
        KernelRoute::Cut => {
            let thread = match cut_thread(request) {
                Ok(t) => t,
                Err(e) => {
                    return Err(e);
                },
            };
            gens.cut(thread.as_str());
            Ok(KernelStep::Done(kernel_text(cut_text(thread.as_str()).as_str())))
        },
        other => Ok(KernelStep::Read(other)),
    }
}

/// After a request has succeeded, a mutating verb invalidates its target:
/// the golden thread named after the target is cut. Any other verb changes
/// nothing.
pub fn cut_on_write(verb: Verb, target: &crate::iri::Iri, gens: &mut Generations)
    requires
        (verb is Sink || verb is Delete) ==> generation(old(gens)@, target@) < u64::MAX,
    ensures
        (verb is Sink || verb is Delete) ==> final(gens)@ == after_cut(old(gens)@, target@),
        !(verb is Sink || verb is Delete) ==> final(gens)@ == old(gens)@,
{
    if verb.is_mutating() {
        gens.cut(target.as_str());
    }
}

} // verus!
