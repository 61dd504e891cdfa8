//! Selection: matching a need against the self-descriptions of what is bound.
//!
//! - Transreptor selection finds a way to convert a representation from one
//!   media type to another: a direct single hop if one exists, else a two-hop
//!   pivot through the canonical RDF type (`text/turtle`). Only transreptors
//!   drivable with a piped `content` and a target `as` are candidates.
//! - Action selection walks every described entry's per-verb contracts and
//!   keeps the actions a query satisfies — capability first, then verb, then
//!   the wanted output, then whether the present RDF classes can fill every
//!   required input — best-fitted first.

use vstd::prelude::*;

use crate::capability::Capability;
use crate::decimal::decimal_of;
use crate::describe::{
    action_for, actions_view, args_view, explicit_action, normalized_actions, selectable_verbs,
    ActionSpec, ActionView, ArgView, Description, DescriptionView, InputSource, KindView,
};
use crate::text::{
    concat_str, copy_str, copy_strings, seq_less, seq_starts_with, str_eq, str_starts_with, views_of,
    Order,
};
use crate::verb::Verb;

verus! {

/// The canonical RDF media type the transreptor graph hubs on.
pub const CANONICAL: &'static str = "text/turtle";

/// One step of a transreption plan: invoke the transreptor at `endpoint` with
/// the input piped as `content` and `as` set to `to`.
#[derive(Debug, PartialEq, Eq)]
pub struct TransreptionStep {
    /// The transreptor endpoint's IRI.
    pub endpoint: String,
    /// The media type to request from it.
    pub to: String,
}

/// The view of a plan.
pub open spec fn steps_view(s: Seq<TransreptionStep>) -> Seq<(Seq<char>, Seq<char>)> {
    s.map_values(|t: TransreptionStep| (t.endpoint@, t.to@))
}

/// A transreptor's declared conversions, paired with the IRI it is bound at.
#[derive(Debug)]
pub struct Candidate {
    /// Where the transreptor is bound.
    pub iri: String,
    /// The media types it can read.
    pub from: Vec<String>,
    /// The media types it can produce.
    pub to: Vec<String>,
}

/// Whether candidate `c` converts `from` into `to`.
pub open spec fn handles(c: Candidate, from: Seq<char>, to: Seq<char>) -> bool {
    views_of(c.from@).contains(from) && views_of(c.to@).contains(to)
}

/// The first candidate at or after `i` converting `from` into `to`.
pub open spec fn first_handling(cs: Seq<Candidate>, from: Seq<char>, to: Seq<char>, i: int) -> Option<
    int,
>
    decreases cs.len() - i,
{
    if i < 0 || i >= cs.len() {
        None
    } else if handles(cs[i], from, to) {
        Some(i)
    } else {
        first_handling(cs, from, to, i + 1)
    }
}

/// The canonical type, as characters.
pub open spec fn canonical_type() -> Seq<char> {
    "text/turtle"@
}

/// The plan for converting `from` into `to`: none for the identity; a direct
/// hop through the first candidate that handles the pair; else, when neither
/// end is the canonical type, a pivot through it.
pub open spec fn transreption_plan(cs: Seq<Candidate>, from: Seq<char>, to: Seq<char>) -> Option<
    Seq<(Seq<char>, Seq<char>)>,
> {
    if from == to {
        None
    } else {
        match first_handling(cs, from, to, 0) {
            Some(i) => Some(seq![(cs[i].iri@, to)]),
            None => if from != canonical_type() && to != canonical_type() {
                match (
                    first_handling(cs, from, canonical_type(), 0),
                    first_handling(cs, canonical_type(), to, 0),
                ) {
                    (Some(a), Some(b)) => Some(
                        seq![(cs[a].iri@, canonical_type()), (cs[b].iri@, to)],
                    ),
                    _ => None,
                }
            } else {
                None
            },
        }
    }
}

/// Whether `s` is among `v`, computed.
fn contains_str(v: &Vec<String>, s: &str) -> (r: bool)
    ensures
        r == views_of(v@).contains(s@),
{
    let mut i: usize = 0;
    while i < v.len()
        invariant
            i <= v@.len(),
            forall|k: int| 0 <= k < i ==> (#[trigger] v@[k])@ != s@,
        decreases v@.len() - i,
    {
        if str_eq(v[i].as_str(), s) {
            assert(views_of(v@)[i as int] == s@);
            return true;
        }
        i = i + 1;
    }
    proof {
        if views_of(v@).contains(s@) {
            let k = choose|k: int| 0 <= k < views_of(v@).len() && views_of(v@)[k] == s@;
            assert(v@[k]@ == s@);
        }
    }
    false
}

impl Candidate {
    /// Whether this candidate converts `from` into `to`.
    pub fn handles(&self, from: &str, to: &str) -> (r: bool)
        ensures
            r == handles(*self, from@, to@),
    {
        contains_str(&self.from, from) && contains_str(&self.to, to)
    }
}

fn find_handling(cs: &[Candidate], from: &str, to: &str) -> (r: Option<usize>)
    ensures
        match r {
            Some(i) => first_handling(cs@, from@, to@, 0) == Some(i as int) && i < cs@.len(),
            None => first_handling(cs@, from@, to@, 0) is None,
        },
{
    let mut i: usize = 0;
    while i < cs.len()
        invariant
            i <= cs@.len(),
            first_handling(cs@, from@, to@, 0) == first_handling(cs@, from@, to@, i as int),
        decreases cs@.len() - i,
    {
        if cs[i].handles(from, to) {
            return Some(i);
        }
        i = i + 1;
    }
    None
}

/// Whether every required input is `content` or `as`: such a transreptor is
/// drivable with just a piped `content` and a target `as`.
pub open spec fn auto_invocable(inputs: Seq<ArgView>) -> bool {
    forall|i: int|
        0 <= i < inputs.len() && (#[trigger] inputs[i]).required ==> inputs[i].name == "content"@
            || inputs[i].name == "as"@
}

/// Whether a transreptor can be invoked automatically: every required input
/// is `content` or `as`.
pub fn is_auto_invocable(description: &Description) -> (r: bool)
    ensures
        r == auto_invocable(description@.inputs),
{
    let mut i: usize = 0;
    while i < description.inputs.len()
        invariant
            i <= description.inputs@.len(),
            forall|k: int|
                0 <= k < i && (#[trigger] description@.inputs[k]).required
                    ==> description@.inputs[k].name == "content"@ || description@.inputs[k].name
                    == "as"@,
        decreases description.inputs@.len() - i,
    {
        let input = &description.inputs[i];
        assert(description@.inputs[i as int] == input@);
        if input.required && !(str_eq(input.name.as_str(), "content") || str_eq(
            input.name.as_str(),
            "as",
        )) {
            return false;
        }
        i = i + 1;
    }
    true
}

/// The candidate an entry contributes: its transreption, if it is an
/// auto-invocable transreptor.
pub fn candidate_of(pattern: &str, description: &Description) -> (r: Option<Candidate>)
    ensures
        match description@.kind {
            KindView::Transreptor(f, t) => if auto_invocable(description@.inputs) {
                r is Some && r->0.iri@ == pattern@ && views_of(r->0.from@) == f && views_of(
                    r->0.to@,
                ) == t
            } else {
                r is None
            },
            KindView::Endpoint => r is None,
        },
{
    match description.transreption() {
        Some(t) => {
            if is_auto_invocable(description) {
                Some(
                    Candidate {
                        iri: copy_str(pattern),
                        from: copy_strings(t.from.as_slice()),
                        to: copy_strings(t.to.as_slice()),
                    },
                )
            } else {
                None
            }
        },
        None => None,
    }
}

/// Plan a conversion from `from` to `to` over the candidates: a direct hop if
/// one exists, else a pivot through [`CANONICAL`]. `None` if there is no
/// chain, or if `from == to`.
pub fn select_transreptor(candidates: &[Candidate], from: &str, to: &str) -> (r: Option<
    Vec<TransreptionStep>,
>)
    ensures
        match r {
            Some(steps) => transreption_plan(candidates@, from@, to@) == Some(steps_view(steps@)),
            None => transreption_plan(candidates@, from@, to@) is None,
        },
{
    if str_eq(from, to) {
        return None;
    }
    match find_handling(candidates, from, to) {
        Some(i) => {
            let mut v: Vec<TransreptionStep> = Vec::new();
            v.push(TransreptionStep { endpoint: copy_str(candidates[i].iri.as_str()), to: copy_str(to) });
            proof {
                assert(steps_view(v@) =~= seq![(candidates@[i as int].iri@, to@)]);
            }
            return Some(v);
        },
        None => {},
    }
    if !str_eq(from, CANONICAL) && !str_eq(to, CANONICAL) {
        let first = find_handling(candidates, from, CANONICAL);
        let second = find_handling(candidates, CANONICAL, to);
        match (first, second) {
            (Some(a), Some(b)) => {
                let mut v: Vec<TransreptionStep> = Vec::new();
                v.push(
                    TransreptionStep {
                        endpoint: copy_str(candidates[a].iri.as_str()),
                        to: copy_str(CANONICAL),
                    },
                );
                v.push(TransreptionStep { endpoint: copy_str(candidates[b].iri.as_str()), to: copy_str(to) });
                proof {
                    assert(steps_view(v@) =~= seq![
                        (candidates@[a as int].iri@, canonical_type()),
                        (candidates@[b as int].iri@, to@),
                    ]);
                }
                return Some(v);
            },
            _ => {
                return None;
            },
        }
    }
    None
}

proof fn lemma_first_handling(cs: Seq<Candidate>, from: Seq<char>, to: Seq<char>, i: int)
    requires
        0 <= i,
    ensures
        first_handling(cs, from, to, i) matches Some(j) ==> i <= j < cs.len() && handles(cs[j], from, to),
        first_handling(cs, from, to, i) is None ==> forall|j: int|
            i <= j < cs.len() ==> !handles(#[trigger] cs[j], from, to),
    decreases cs.len() - i,
{
    if i < cs.len() && !handles(cs[i], from, to) {
        lemma_first_handling(cs, from, to, i + 1);
    }
}

/// The shape of a transreption plan: none from a type to itself; a single
/// hop into `to` through a candidate that converts `from` into `to`, always
/// taken when one exists; otherwise, between two non-canonical types, two
/// hops, into the canonical type and then into `to`, through candidates that
/// convert each way.
pub proof fn lemma_plan_shape(cs: Seq<Candidate>, from: Seq<char>, to: Seq<char>)
    ensures
        from == to ==> transreption_plan(cs, from, to) is None,
        from != to && (exists|i: int| 0 <= i < cs.len() && handles(#[trigger] cs[i], from, to))
            ==> (transreption_plan(cs, from, to) matches Some(p) && p.len() == 1),
        transreption_plan(cs, from, to) matches Some(p) ==> {
            ||| p.len() == 1 && p[0].1 == to && exists|i: int|
                0 <= i < cs.len() && handles(#[trigger] cs[i], from, to) && p[0].0 == cs[i].iri@
            ||| {
                &&& p.len() == 2
                &&& from != canonical_type() && to != canonical_type()
                &&& p[0].1 == canonical_type() && p[1].1 == to
                &&& forall|i: int| 0 <= i < cs.len() ==> !handles(#[trigger] cs[i], from, to)
                &&& exists|a: int|
                    0 <= a < cs.len() && handles(#[trigger] cs[a], from, canonical_type()) && p[0].0
                        == cs[a].iri@
                &&& exists|b: int|
                    0 <= b < cs.len() && handles(#[trigger] cs[b], canonical_type(), to) && p[1].0
                        == cs[b].iri@
            }
        },
{
    lemma_first_handling(cs, from, to, 0);
    lemma_first_handling(cs, from, canonical_type(), 0);
    lemma_first_handling(cs, canonical_type(), to, 0);
}

/// Whether `c` satisfies `scope`: [`Capability::allows`] for a plain scope;
/// for a scope ending in `*`, holding any grant under the prefix before it
/// (root holds everything).
pub open spec fn cap_satisfies_spec(c: Capability, scope: Seq<char>) -> bool {
    if scope.len() > 0 && scope.last() == '*' {
        c.spec_is_root() || exists|s: Seq<char>|
            #[trigger] c.held().contains(s) && seq_starts_with(s, scope.drop_last())
    } else {
        c.grants(scope)
    }
}

/// Whether `capability` satisfies one required scope (see
/// [`cap_satisfies_spec`]).
pub fn cap_satisfies(capability: &Capability, scope: &str) -> (r: bool)
    ensures
        r == cap_satisfies_spec(*capability, scope@),
{
    let cs = crate::text::chars_of(scope);
    let n = cs.len();
    if n > 0 && cs[n - 1] == '*' {
        let prefix = crate::text::string_from(cs.as_slice().split_at(n - 1).0);
        proof {
            assert(prefix@ =~= scope@.drop_last());
        }
        match capability.scopes() {
            None => true,
            Some(held) => {
                proof {
                    held.lemma_elems();
                }
                let mut i: usize = 0;
                while i < held.len()
                    invariant
                        i <= held.elems().len(),
                        prefix@ == scope@.drop_last(),
                        scope@.len() > 0 && scope@.last() == '*',
                        held@ == capability.held(),
                        !capability.spec_is_root(),
                        forall|k: int|
                            0 <= k < i ==> !seq_starts_with(
                                #[trigger] held.elems()[k],
                                prefix@,
                            ),
                    decreases held.elems().len() - i,
                {
                    if str_starts_with(held.get(i), prefix.as_str()) {
                        proof {
                            held.lemma_elems();
                            assert(held.elems().contains(held.elems()[i as int]));
                            assert(held@.contains(held.elems()[i as int]));
                        }
                        return true;
                    }
                    i = i + 1;
                }
                proof {
                    assert forall|s: Seq<char>| #[trigger]
                        capability.held().contains(s) implies !seq_starts_with(s, prefix@) by {
                        assert(held.elems().contains(s));
                        let k = choose|k: int| 0 <= k < held.elems().len() && held.elems()[k] == s;
                    }
                }
                false
            },
        }
    } else {
        capability.allows(scope)
    }
}

/// Whether every required input declares a class among `present`, with at
/// least one required input.
pub open spec fn satisfiable(inputs: Seq<ArgView>, present: Seq<Seq<char>>) -> bool {
    &&& exists|i: int| 0 <= i < inputs.len() && (#[trigger] inputs[i]).required
    &&& forall|i: int|
        0 <= i < inputs.len() && (#[trigger] inputs[i]).required ==> (inputs[i].class matches Some(
            c,
        ) && present.contains(c))
}

/// The views of a list of string slices.
pub open spec fn slice_views(v: Seq<&str>) -> Seq<Seq<char>> {
    v.map_values(|x: &str| x@)
}

/// Whether `s` is among the slices of `v`, computed.
fn contains_slice(v: &[&str], s: &str) -> (r: bool)
    ensures
        r == slice_views(v@).contains(s@),
{
    let mut i: usize = 0;
    while i < v.len()
        invariant
            i <= v@.len(),
            forall|k: int| 0 <= k < i ==> (#[trigger] v@[k])@ != s@,
        decreases v@.len() - i,
    {
        if str_eq(v[i], s) {
            assert(slice_views(v@)[i as int] == s@);
            return true;
        }
        i = i + 1;
    }
    proof {
        if slice_views(v@).contains(s@) {
            let k = choose|k: int| 0 <= k < v@.len() && #[trigger] slice_views(v@)[k] == s@;
            assert(v@[k]@ == s@);
        }
    }
    false
}

/// Whether every required input of `action` declares a class in `present`,
/// with at least one required input.
pub fn spec_satisfiable(action: &ActionSpec, present: &[&str]) -> (r: bool)
    ensures
        r == satisfiable(action@.inputs, slice_views(present@)),
{
    let mut has_required = false;
    let mut i: usize = 0;
    while i < action.inputs.len()
        invariant
            i <= action.inputs@.len(),
            has_required == exists|k: int| 0 <= k < i && (#[trigger] action@.inputs[k]).required,
            forall|k: int|
                0 <= k < i && (#[trigger] action@.inputs[k]).required ==> (
                action@.inputs[k].class matches Some(c) && slice_views(present@).contains(
                    c,
                )),
        decreases action.inputs@.len() - i,
    {
        let input = &action.inputs[i];
        assert(action@.inputs[i as int] == input@);
        if input.required {
            has_required = true;
            match &input.class {
                Some(class) => {
                    if !contains_slice(present, class.as_str()) {
                        return false;
                    }
                },
                None => {
                    return false;
                },
            }
        }
        i = i + 1;
    }
    has_required
}

/// Whether `name` is declared as a binding-source input.
pub open spec fn declares_binding(inputs: Seq<ArgView>, name: Seq<char>) -> bool {
    exists|i: int|
        0 <= i < inputs.len() && (#[trigger] inputs[i]).name == name && inputs[i].source
            == InputSource::Binding
}

/// Whether every template variable is a declared binding-source input.
pub open spec fn drivable(inputs: Seq<ArgView>, vars: Seq<Seq<char>>) -> bool {
    forall|v: int| 0 <= v < vars.len() ==> declares_binding(inputs, #[trigger] vars[v])
}

/// Whether a template action is drivable from its declared contract: every
/// template variable is a declared binding-source input.
pub fn template_drivable(action: &ActionSpec, vars: &[String]) -> (r: bool)
    ensures
        r == drivable(action@.inputs, views_of(vars@)),
{
    let mut v: usize = 0;
    while v < vars.len()
        invariant
            v <= vars@.len(),
            forall|w: int| 0 <= w < v ==> declares_binding(action@.inputs, #[trigger] views_of(vars@)[w]),
        decreases vars@.len() - v,
    {
        let mut found = false;
        let mut i: usize = 0;
        while i < action.inputs.len()
            invariant
                v < vars@.len(),
                i <= action.inputs@.len(),
                found ==> declares_binding(action@.inputs, views_of(vars@)[v as int]),
                !found ==> forall|k: int|
                    0 <= k < i ==> !((#[trigger] action@.inputs[k]).name == views_of(vars@)[v as int]
                        && action@.inputs[k].source == InputSource::Binding),
            decreases action.inputs@.len() - i,
        {
            let input = &action.inputs[i];
            assert(action@.inputs[i as int] == input@);
            if !found && str_eq(input.name.as_str(), vars[v].as_str()) && input.source
                == InputSource::Binding {
                found = true;
                assert(views_of(vars@)[v as int] == vars@[v as int]@);
            }
            i = i + 1;
        }
        if !found {
            proof {
                assert(!drivable(action@.inputs, views_of(vars@))) by {
                    assert(views_of(vars@)[v as int] == vars@[v as int]@);
                    assert(!declares_binding(action@.inputs, views_of(vars@)[v as int]));
                }
            }
            return false;
        }
        v = v + 1;
    }
    true
}

/// A bound entry as selection sees it: its pattern, its endpoint's
/// description, and the variables its pattern takes when it is a template.
#[derive(Debug)]
pub struct DescribedEntry {
    /// The bound pattern: an exact IRI, or a URI template.
    pub pattern: String,
    /// The bound endpoint's self-description.
    pub description: Description,
    /// The template's variable names, when the pattern is a template.
    pub template_vars: Option<Vec<String>>,
}

/// The value each `{var}` takes when a template pattern is expanded into a
/// concrete IRI to ask for its description.
pub const PROBE: &'static str = "probe";

/// Whether a probe resolution may describe an entry: either the endpoint it
/// reached calls itself by the entry's endpoint name, or the description it
/// handed back carries that name as its id.
pub fn probe_accepted(reached_name: &str, description_id: &str, entry_endpoint: &str) -> (r: bool)
    ensures
        r == (reached_name@ == entry_endpoint@ || description_id@ == entry_endpoint@),
{
    str_eq(reached_name, entry_endpoint) || str_eq(description_id, entry_endpoint)
}

/// One selected action, as the specification sees it.
pub struct MatchView {
    pub endpoint: Seq<char>,
    pub id: Seq<char>,
    pub verb: Verb,
    pub action: Seq<char>,
    pub requires: Seq<Seq<char>>,
    pub missing_optional: usize,
}

/// One selected action: an (endpoint, verb) pair whose contract the query
/// satisfied.
#[derive(Debug, PartialEq, Eq)]
pub struct ActionMatch {
    /// The bound pattern: what you invoke.
    pub endpoint: String,
    /// The endpoint's description id.
    pub id: String,
    /// The matched verb.
    pub verb: Verb,
    /// The action node's catalog IRI.
    pub action: String,
    /// The capability scopes the action requires.
    pub requires: Vec<String>,
    /// How many optional typed inputs the present classes could not fill.
    pub missing_optional: usize,
}

impl View for ActionMatch {
    type V = MatchView;

    open spec fn view(&self) -> MatchView {
        MatchView {
            endpoint: self.endpoint@,
            id: self.id@,
            verb: self.verb,
            action: self.action@,
            requires: views_of(self.requires@),
            missing_optional: self.missing_optional,
        }
    }
}

/// The views of a list of matches.
pub open spec fn matches_view(v: Seq<ActionMatch>) -> Seq<MatchView> {
    v.map_values(|m: ActionMatch| m@)
}

/// A selection query; every axis optional.
#[derive(Clone, Copy, Debug, Default)]
pub struct ActionQuery<'a> {
    /// RDF classes present in the context. Empty means no type filter.
    pub present: &'a [&'a str],
    /// Only actions with this verb.
    pub verb: Option<Verb>,
    /// Only actions that can produce this media type.
    pub want: Option<&'a str>,
    /// The caller's capability; actions whose scopes it does not satisfy are
    /// not offered. `None` means no capability filter.
    pub capability: Option<&'a Capability>,
}

/// The lower-case name of a verb.
pub open spec fn verb_name(v: Verb) -> Seq<char> {
    match v {
        Verb::Source => "source"@,
        Verb::Sink => "sink"@,
        Verb::Exists => "exists"@,
        Verb::Delete => "delete"@,
        Verb::Meta => "meta"@,
    }
}

/// The declaration rank of a verb, the tie-breaker of the ordering.
pub open spec fn verb_rank(v: Verb) -> int {
    match v {
        Verb::Source => 0,
        Verb::Sink => 1,
        Verb::Exists => 2,
        Verb::Delete => 3,
        Verb::Meta => 4,
    }
}

/// The catalog IRI of an action node.
pub open spec fn action_iri(id: Seq<char>, v: Verb) -> Seq<char> {
    "urn:ikigai:endpoint:"@ + id + ":action:"@ + verb_name(v)
}

/// Whether the query is satisfied by action `a` of an entry whose pattern
/// takes `vars` when it is a template.
pub open spec fn offered(vars: Option<Seq<Seq<char>>>, a: ActionView, q: ActionQuery) -> bool {
    &&& vars matches Some(vs) ==> drivable(a.inputs, vs)
    &&& q.verb matches Some(v) ==> a.verb == v
    &&& q.want matches Some(w) ==> a.outputs.contains(w@)
    &&& q.capability matches Some(c) ==> forall|k: int|
        0 <= k < a.requires.len() ==> cap_satisfies_spec(*c, #[trigger] a.requires[k])
    &&& q.present@.len() > 0 ==> satisfiable(a.inputs, slice_views(q.present@))
}

/// How many optional inputs declare a class not among `present`.
pub open spec fn missing_count(inputs: Seq<ArgView>, present: Seq<Seq<char>>) -> nat
    decreases inputs.len(),
{
    if inputs.len() == 0 {
        0
    } else {
        let i = inputs.last();
        missing_count(inputs.drop_last(), present) + if !i.required && (i.class matches Some(c)
            && !present.contains(c)) {
            1nat
        } else {
            0nat
        }
    }
}

/// The match for action `a` of an entry.
pub open spec fn match_of(pattern: Seq<char>, id: Seq<char>, a: ActionView, present: Seq<Seq<char>>) -> MatchView {
    MatchView {
        endpoint: pattern,
        id,
        verb: a.verb,
        action: action_iri(id, a.verb),
        requires: a.requires,
        missing_optional: missing_count(a.inputs, present) as usize,
    }
}

/// The matches the query keeps among actions `acts` of one entry, in order.
pub open spec fn entry_matches(
    pattern: Seq<char>,
    id: Seq<char>,
    vars: Option<Seq<Seq<char>>>,
    acts: Seq<ActionView>,
    q: ActionQuery,
) -> Seq<MatchView>
    decreases acts.len(),
{
    if acts.len() == 0 {
        Seq::empty()
    } else {
        let p = entry_matches(pattern, id, vars, acts.drop_last(), q);
        if offered(vars, acts.last(), q) {
            p.push(match_of(pattern, id, acts.last(), slice_views(q.present@)))
        } else {
            p
        }
    }
}

/// The template variables of an entry, as views.
pub open spec fn vars_view(v: Option<Vec<String>>) -> Option<Seq<Seq<char>>> {
    match v {
        Some(vs) => Some(views_of(vs@)),
        None => None,
    }
}

/// The matches the query keeps over all entries, entry by entry.
pub open spec fn all_matches(es: Seq<DescribedEntry>, q: ActionQuery) -> Seq<MatchView>
    decreases es.len(),
{
    if es.len() == 0 {
        Seq::empty()
    } else {
        let e = es.last();
        all_matches(es.drop_last(), q) + entry_matches(
            e.pattern@,
            e.description@.id,
            vars_view(e.template_vars),
            normalized_actions(e.description@),
            q,
        )
    }
}

/// The ranking: fewer unfilled optional inputs first, then by endpoint, then
/// by verb.
pub open spec fn ranks_before(a: MatchView, b: MatchView) -> bool {
    ||| a.missing_optional < b.missing_optional
    ||| a.missing_optional == b.missing_optional && seq_less(a.endpoint, b.endpoint)
    ||| a.missing_optional == b.missing_optional && a.endpoint == b.endpoint && verb_rank(a.verb)
        < verb_rank(b.verb)
}

/// Where a match goes in a ranked list: before the first match it ranks
/// before.
pub open spec fn rank_position(s: Seq<MatchView>, m: MatchView, from: int) -> int
    decreases s.len() - from,
{
    if from < 0 || from >= s.len() {
        s.len() as int
    } else if ranks_before(m, s[from]) {
        from
    } else {
        rank_position(s, m, from + 1)
    }
}

/// The matches in ranked order; ties keep their order.
pub open spec fn ranked(ms: Seq<MatchView>) -> Seq<MatchView>
    decreases ms.len(),
{
    if ms.len() == 0 {
        Seq::empty()
    } else {
        let s = ranked(ms.drop_last());
        let p = rank_position(s, ms.last(), 0);
        s.take(p) + seq![ms.last()] + s.skip(p)
    }
}

fn verb_name_of(v: Verb) -> (r: &'static str)
    ensures
        r@ == verb_name(v),
{
    match v {
        Verb::Source => "source",
        Verb::Sink => "sink",
        Verb::Exists => "exists",
        Verb::Delete => "delete",
        Verb::Meta => "meta",
    }
}

fn verb_rank_of(v: Verb) -> (r: u8)
    ensures
        r == verb_rank(v),
{
    match v {
        Verb::Source => 0,
        Verb::Sink => 1,
        Verb::Exists => 2,
        Verb::Delete => 3,
        Verb::Meta => 4,
    }
}

fn ranks_before_exec(a: &ActionMatch, b: &ActionMatch) -> (r: bool)
    ensures
        r == ranks_before(a@, b@),
{
    if a.missing_optional != b.missing_optional {
        return a.missing_optional < b.missing_optional;
    }
    match crate::text::compare_str(a.endpoint.as_str(), b.endpoint.as_str()) {
        Order::Less => true,
        Order::Greater => false,
        Order::Equal => verb_rank_of(a.verb) < verb_rank_of(b.verb),
    }
}

fn count_missing(inputs: &Vec<crate::describe::ArgSpec>, present: &[&str]) -> (r: usize)
    ensures
        r == missing_count(args_view(inputs@), slice_views(present@)),
{
    let mut n: usize = 0;
    let mut i: usize = 0;
    while i < inputs.len()
        invariant
            i <= inputs@.len(),
            n <= i,
            n == missing_count(args_view(inputs@).take(i as int), slice_views(present@)),
        decreases inputs@.len() - i,
    {
        proof {
            let t = args_view(inputs@).take(i + 1);
            assert(t.drop_last() =~= args_view(inputs@).take(i as int));
            assert(t.last() == inputs@[i as int]@);
        }
        let input = &inputs[i];
        let counts = match &input.class {
            Some(c) => !input.required && !contains_slice(present, c.as_str()),
            None => false,
        };
        if counts {
            n = n + 1;
        }
        i = i + 1;
    }
    proof {
        assert(args_view(inputs@).take(inputs@.len() as int) =~= args_view(inputs@));
    }
    n
}

fn offered_exec(vars: &Option<Vec<String>>, a: &ActionSpec, q: &ActionQuery) -> (r: bool)
    ensures
        r == offered(vars_view(*vars), a@, *q),
{
    match vars {
        Some(vs) => {
            if !template_drivable(a, vs.as_slice()) {
                return false;
            }
        },
        None => {},
    }
    match q.verb {
        Some(v) => {
            if a.verb != v {
                return false;
            }
        },
        None => {},
    }
    match q.want {
        Some(w) => {
            if !contains_str(&a.outputs, w) {
                return false;
            }
        },
        None => {},
    }
    match q.capability {
        Some(c) => {
            let mut k: usize = 0;
            while k < a.requires.len()
                invariant
                    k <= a.requires@.len(),
                    q.capability == Some(c),
                    forall|j: int| 0 <= j < k ==> cap_satisfies_spec(*c, #[trigger] a@.requires[j]),
                decreases a.requires@.len() - k,
            {
                assert(a@.requires[k as int] == a.requires@[k as int]@);
                if !cap_satisfies(c, a.requires[k].as_str()) {
                    assert(!cap_satisfies_spec(*c, a@.requires[k as int]));
                    return false;
                }
                k = k + 1;
            }
        },
        None => {},
    }
    if q.present.len() > 0 && !spec_satisfiable(a, q.present) {
        return false;
    }
    true
}

/// Walk every described entry's normalized per-verb contracts and keep the
/// actions the query satisfies, ranked best-fitted first: fewer unfilled
/// optional typed inputs, then endpoint, then verb.
pub fn select_actions(entries: &[DescribedEntry], query: &ActionQuery) -> (r: Vec<ActionMatch>)
    ensures
        matches_view(r@) == ranked(all_matches(entries@, *query)),
{
    let mut found: Vec<ActionMatch> = Vec::new();
    let mut e: usize = 0;
    while e < entries.len()
        invariant
            e <= entries@.len(),
            matches_view(found@) == all_matches(entries@.take(e as int), *query),
        decreases entries@.len() - e,
    {
        let entry = &entries[e];
        let specs = entry.description.action_specs();
        let ghost base = matches_view(found@);
        let ghost acts = normalized_actions(entry.description@);
        let mut k: usize = 0;
        while k < specs.len()
            invariant
                k <= specs@.len(),
                actions_view(specs@) == acts,
                matches_view(found@) == base + entry_matches(
                    entry.pattern@,
                    entry.description@.id,
                    vars_view(entry.template_vars),
                    acts.take(k as int),
                    *query,
                ),
            decreases specs@.len() - k,
        {
            let a = &specs[k];
            proof {
                let t = acts.take(k + 1);
                assert(t.drop_last() =~= acts.take(k as int));
                assert(t.last() == a@);
            }
            if offered_exec(&entry.template_vars, a, query) {
                let missing = count_missing(&a.inputs, query.present);
                let x = concat_str("urn:ikigai:endpoint:", entry.description.id.as_str());
                let y = concat_str(x.as_str(), ":action:");
                let action = concat_str(y.as_str(), verb_name_of(a.verb));
                let m = ActionMatch {
                    endpoint: copy_str(entry.pattern.as_str()),
                    id: copy_str(entry.description.id.as_str()),
                    verb: a.verb,
                    action,
                    requires: copy_strings(a.requires.as_slice()),
                    missing_optional: missing,
                };
                let ghost before = matches_view(found@);
                found.push(m);
                proof {
                    assert(matches_view(found@) =~= before.push(
                        match_of(entry.pattern@, entry.description@.id, a@, slice_views(query.present@)),
                    ));
                }
            }
            k = k + 1;
        }
        proof {
            assert(acts.take(specs@.len() as int) =~= acts);
            let t = entries@.take(e + 1);
            assert(t.drop_last() =~= entries@.take(e as int));
            assert(t.last() == entries@[e as int]);
        }
        e = e + 1;
    }
    proof {
        assert(entries@.take(entries@.len() as int) =~= entries@);
    }
    // rank, keeping ties in order
    let ghost all = matches_view(found@);
    let mut out: Vec<ActionMatch> = Vec::new();
    let mut rest: Vec<ActionMatch> = found;
    let mut taken: Vec<ActionMatch> = Vec::new();
    proof {
        assert(all.take(0) =~= Seq::<MatchView>::empty());
    }
    let n = rest.len();
    let mut i: usize = 0;
    while i < n
        invariant
            n == all.len(),
            i <= n,
            rest@.len() == n - i,
            forall|j: int| 0 <= j < n - i ==> (#[trigger] rest@[j])@ == all[i + j],
            matches_view(out@) == ranked(all.take(i as int)),
        decreases n - i,
    {
        let m = rest.remove(0);
        proof {
            assert(m@ == all[i as int]);
        }
        let mut p: usize = 0;
        while p < out.len()
            invariant
                p <= out@.len(),
                rank_position(matches_view(out@), m@, 0) == rank_position(
                    matches_view(out@),
                    m@,
                    p as int,
                ),
            ensures
                p <= out@.len(),
                rank_position(matches_view(out@), m@, 0) == p,
            decreases out@.len() - p,
        {
            assert(matches_view(out@)[p as int] == out@[p as int]@);
            if ranks_before_exec(&m, &out[p]) {
                break ;
            }
            p = p + 1;
        }
        let ghost before = matches_view(out@);
        out.insert(p, m);
        proof {
            let t = all.take(i + 1);
            assert(t.drop_last() =~= all.take(i as int));
            assert(t.last() == all[i as int]);
            assert(matches_view(out@) =~= before.take(p as int) + seq![all[i as int]] + before.skip(
                p as int,
            ));
            assert forall|j: int| 0 <= j < n - (i + 1) implies (#[trigger] rest@[j])@ == all[(i + 1)
                + j] by {}
        }
        i = i + 1;
    }
    proof {
        assert(all.take(n as int) =~= all);
    }
    out
}

/// Keep the first match of each endpoint, in order.
pub open spec fn first_per_endpoint(ms: Seq<MatchView>) -> Seq<MatchView>
    decreases ms.len(),
{
    if ms.len() == 0 {
        Seq::empty()
    } else {
        let p = first_per_endpoint(ms.drop_last());
        if ms.drop_last().map_values(|m: MatchView| m.endpoint).contains(ms.last().endpoint) {
            p
        } else {
            p.push(ms.last())
        }
    }
}

/// Endpoints whose required inputs are all typed and satisfiable by
/// `present`, one match per endpoint (its best-ranked action).
pub fn select_action(entries: &[DescribedEntry], present: &[&str]) -> (r: Vec<ActionMatch>)
    ensures
        matches_view(r@) == first_per_endpoint(
            ranked(
                all_matches(
                    entries@,
                    ActionQuery { present, verb: None, want: None, capability: None },
                ),
            ),
        ),
{
    let query = ActionQuery { present, verb: None, want: None, capability: None };
    let all = select_actions(entries, &query);
    let ghost ms = matches_view(all@);
    let mut out: Vec<ActionMatch> = Vec::new();
    let mut seen: Vec<String> = Vec::new();
    let mut i: usize = 0;
    let mut rest = all;
    let n = rest.len();
    while i < n
        invariant
            n == ms.len(),
            i <= n,
            rest@.len() == n - i,
            forall|j: int| 0 <= j < n - i ==> (#[trigger] rest@[j])@ == ms[i + j],
            matches_view(out@) == first_per_endpoint(ms.take(i as int)),
            views_of(seen@) == ms.take(i as int).map_values(|m: MatchView| m.endpoint),
        decreases n - i,
    {
        let m = rest.remove(0);
        proof {
            assert(m@ == ms[i as int]);
            let t = ms.take(i + 1);
            assert(t.drop_last() =~= ms.take(i as int));
        }
        let dup = contains_str(&seen, m.endpoint.as_str());
        let ghost seen_before = views_of(seen@);
        seen.push(copy_str(m.endpoint.as_str()));
        proof {
            assert(views_of(seen@) =~= seen_before.push(m.endpoint@));
            assert(ms.take(i + 1).map_values(|x: MatchView| x.endpoint) =~= ms.take(i as int).map_values(
                |x: MatchView| x.endpoint,
            ).push(ms[i as int].endpoint));
        }
        let ghost before = matches_view(out@);
        if !dup {
            out.push(m);
            proof {
                assert(matches_view(out@) =~= before.push(ms[i as int]));
            }
        }
        proof {
            let t = ms.take(i + 1);
            assert(views_of(seen@) =~= t.map_values(|x: MatchView| x.endpoint));
            assert forall|j: int| 0 <= j < n - (i + 1) implies (#[trigger] rest@[j])@ == ms[(i + 1)
                + j] by {}
        }
        i = i + 1;
    }
    proof {
        assert(ms.take(n as int) =~= ms);
    }
    out
}

/// The bindings giving every variable the probe value.
pub open spec fn probe_bindings(vars: Seq<Seq<char>>) -> Seq<(Seq<char>, Seq<char>)>
    decreases vars.len(),
{
    if vars.len() == 0 {
        Seq::empty()
    } else {
        crate::sorted::insert_sorted(probe_bindings(vars.drop_last()), vars.last(), PROBE@)
    }
}

/// A template pattern's variables and its probe expansion: `None` when the
/// pattern is no template, has no variables, or does not expand.
pub open spec fn probe_of(pattern: Seq<char>) -> Option<(Seq<Seq<char>>, Seq<char>)> {
    match crate::grammar::parse_template(pattern) {
        Ok(parts) => {
            let vars = crate::grammar::template_vars(parts);
            if vars.len() == 0 {
                None
            } else {
                match crate::grammar::expand_from(parts, 0, probe_bindings(vars)) {
                    Some(iri) => Some((vars, iri)),
                    None => None,
                }
            }
        },
        Err(_) => None,
    }
}

/// The probe a template pattern is described through: its variables, and the
/// concrete IRI it expands to with every variable set to the probe value.
pub fn probe_target(pattern: &str) -> (r: Option<(Vec<String>, String)>)
    ensures
        match r {
            Some((vars, iri)) => probe_of(pattern@) == Some((views_of(vars@), iri@)),
            None => probe_of(pattern@) is None,
        },
{
    let t = match crate::grammar::UriTemplate::parse(pattern) {
        Ok(t) => t,
        Err(_) => {
            return None;
        },
    };
    let vars = t.variables();
    proof {
        assert(views_of(vars@) =~= vars@.map_values(|s: String| s@));
    }
    if vars.len() == 0 {
        return None;
    }
    let mut bindings = crate::grammar::Bindings::new();
    let mut i: usize = 0;
    while i < vars.len()
        invariant
            i <= vars@.len(),
            bindings@ == probe_bindings(views_of(vars@).take(i as int)),
        decreases vars@.len() - i,
    {
        proof {
            assert(views_of(vars@).take(i + 1).drop_last() =~= views_of(vars@).take(i as int));
        }
        bindings.insert(vars[i].as_str(), PROBE);
        i = i + 1;
    }
    proof {
        assert(views_of(vars@).take(vars@.len() as int) =~= views_of(vars@));
    }
    match t.expand(&bindings) {
        Some(iri) => Some((vars, iri)),
        None => None,
    }
}

/// The ranking is a strict order: irreflexive, asymmetric and transitive.
proof fn lemma_ranks_before_order(a: MatchView, b: MatchView, c: MatchView)
    ensures
        !ranks_before(a, a),
        ranks_before(a, b) ==> !ranks_before(b, a),
        ranks_before(a, b) && ranks_before(b, c) ==> ranks_before(a, c),
{
    crate::text::lemma_seq_less_irreflexive(a.endpoint);
    crate::text::lemma_seq_less_total(a.endpoint, b.endpoint);
    if seq_less(a.endpoint, b.endpoint) && seq_less(b.endpoint, c.endpoint) {
        crate::text::lemma_seq_less_transitive(a.endpoint, b.endpoint, c.endpoint);
    }
}

/// Whether no match ranks before one that precedes it.
pub open spec fn is_ranked(s: Seq<MatchView>) -> bool {
    forall|i: int, j: int| 0 <= i < j < s.len() ==> !ranks_before(#[trigger] s[j], #[trigger] s[i])
}

/// `rank_position` is the first match `m` ranks before, or the end.
proof fn lemma_rank_position_first(s: Seq<MatchView>, m: MatchView, from: int)
    requires
        0 <= from <= s.len(),
    ensures
        from <= rank_position(s, m, from) <= s.len(),
        forall|k: int| from <= k < rank_position(s, m, from) ==> !ranks_before(m, #[trigger] s[k]),
        rank_position(s, m, from) < s.len() ==> ranks_before(m, s[rank_position(s, m, from)]),
    decreases s.len() - from,
{
    if from < s.len() && !ranks_before(m, s[from]) {
        lemma_rank_position_first(s, m, from + 1);
    }
}

/// Ranking orders its matches best-fitted first and invents none: no match
/// ranks before one that precedes it, as many matches come out as went in,
/// and each is one of those given.
pub proof fn lemma_ranked_is_ordered(ms: Seq<MatchView>)
    ensures
        is_ranked(ranked(ms)),
        ranked(ms).len() == ms.len(),
        forall|i: int| 0 <= i < ranked(ms).len() ==> ms.contains(#[trigger] ranked(ms)[i]),
    decreases ms.len(),
{
    if ms.len() > 0 {
        let s = ranked(ms.drop_last());
        let m = ms.last();
        lemma_ranked_is_ordered(ms.drop_last());
        lemma_rank_position_first(s, m, 0);
        let p = rank_position(s, m, 0);
        let r = s.take(p) + seq![m] + s.skip(p);
        assert(r == ranked(ms));
        assert forall|i: int, j: int| 0 <= i < j < r.len() implies !ranks_before(
            #[trigger] r[j],
            #[trigger] r[i],
        ) by {
            if j < p {
                assert(r[i] == s[i] && r[j] == s[j]);
            } else if j == p {
                assert(r[j] == m && r[i] == s[i]);
            } else if i < p {
                assert(r[i] == s[i] && r[j] == s[j - 1]);
            } else if i == p {
                assert(r[i] == m && r[j] == s[j - 1]);
                lemma_ranks_before_order(s[j - 1], m, s[p]);
                if j - 1 > p {
                    lemma_ranks_before_order(s[j - 1], s[p], m);
                }
                assert(ranks_before(m, s[p]));
                if ranks_before(s[j - 1], m) {
                    lemma_ranks_before_order(s[j - 1], m, s[p]);
                    if j - 1 == p {
                        lemma_ranks_before_order(s[p], s[p], s[p]);
                    }
                }
            } else {
                assert(r[i] == s[i - 1] && r[j] == s[j - 1]);
            }
        }
        assert forall|i: int| 0 <= i < r.len() implies ms.contains(#[trigger] r[i]) by {
            if i < p {
                assert(r[i] == s[i]);
                assert(ms.drop_last().contains(s[i]));
                let j = choose|j: int| 0 <= j < ms.drop_last().len() && ms.drop_last()[j] == s[i];
                assert(ms[j] == s[i]);
            } else if i == p {
                assert(r[i] == m);
                assert(ms[ms.len() - 1] == m);
            } else {
                assert(r[i] == s[i - 1]);
                assert(ms.drop_last().contains(s[i - 1]));
                let j = choose|j: int| 0 <= j < ms.drop_last().len() && ms.drop_last()[j] == s[i - 1];
                assert(ms[j] == s[i - 1]);
            }
        }
    }
}

/// Every match in `entry_matches` passed the query.
proof fn lemma_entry_matches_offered(
    pattern: Seq<char>,
    id: Seq<char>,
    vars: Option<Seq<Seq<char>>>,
    acts: Seq<ActionView>,
    q: ActionQuery,
    k: int,
)
    requires
        0 <= k < entry_matches(pattern, id, vars, acts, q).len(),
    ensures
        exists|j: int|
            0 <= j < acts.len() && offered(vars, #[trigger] acts[j], q) && entry_matches(
                pattern,
                id,
                vars,
                acts,
                q,
            )[k] == match_of(pattern, id, acts[j], slice_views(q.present@)),
    decreases acts.len(),
{
    let p = entry_matches(pattern, id, vars, acts.drop_last(), q);
    if k < p.len() {
        lemma_entry_matches_offered(pattern, id, vars, acts.drop_last(), q, k);
        let j = choose|j: int|
            0 <= j < acts.drop_last().len() && offered(vars, #[trigger] acts.drop_last()[j], q)
                && p[k] == match_of(pattern, id, acts.drop_last()[j], slice_views(q.present@));
        assert(acts.drop_last()[j] == acts[j]);
    } else {
        assert(offered(vars, acts[acts.len() - 1], q));
    }
}

/// Every match the query keeps was offered to its capability.
proof fn lemma_all_matches_allowed(es: Seq<DescribedEntry>, q: ActionQuery, c: Capability, k: int)
    requires
        q.capability == Some(&c),
        0 <= k < all_matches(es, q).len(),
    ensures
        forall|t: int|
            0 <= t < all_matches(es, q)[k].requires.len() ==> cap_satisfies_spec(
                c,
                #[trigger] all_matches(es, q)[k].requires[t],
            ),
    decreases es.len(),
{
    let p = all_matches(es.drop_last(), q);
    let e = es.last();
    if k < p.len() {
        lemma_all_matches_allowed(es.drop_last(), q, c, k);
    } else {
        let acts = normalized_actions(e.description@);
        lemma_entry_matches_offered(
            e.pattern@,
            e.description@.id,
            vars_view(e.template_vars),
            acts,
            q,
            k - p.len(),
        );
    }
}

/// Selection is a pre-flight of enforcement: with a capability in the query,
/// every action selected has each of its required scopes satisfied by it
/// (`Capability::allows` for a plain scope, some grant under the prefix for a
/// `*` wildcard) — an attenuated caller is never offered what it may not
/// invoke.
pub proof fn lemma_selection_respects_capability(
    es: Seq<DescribedEntry>,
    q: ActionQuery,
    c: Capability,
)
    requires
        q.capability == Some(&c),
    ensures
        forall|k: int, t: int|
            0 <= k < ranked(all_matches(es, q)).len() && 0 <= t < ranked(all_matches(es, q))[k].requires.len()
                ==> cap_satisfies_spec(c, #[trigger] ranked(all_matches(es, q))[k].requires[t]),
{
    let ms = all_matches(es, q);
    lemma_ranked_is_ordered(ms);
    assert forall|k: int, t: int|
        0 <= k < ranked(ms).len() && 0 <= t < ranked(ms)[k].requires.len() implies cap_satisfies_spec(
        c,
        #[trigger] ranked(ms)[k].requires[t],
    ) by {
        let x = ranked(ms)[k];
        assert(ms.contains(x));
        let j = choose|j: int| 0 <= j < ms.len() && ms[j] == x;
        lemma_all_matches_allowed(es, q, c, j);
    }
}

/// What every selected match owes its query: it comes from a described
/// entry, whose pattern it invokes and whose id it names; its action IRI is
/// that entry's action node for the verb; it is never `Meta`; it has the
/// verb asked for, if one was; its capability, if one was given,
/// satisfies every scope the action requires; and it is the match of one of
/// that entry's per-verb contracts which, when a media type is wanted,
/// declares that type among its outputs.
pub open spec fn selection_sound(es: Seq<DescribedEntry>, q: ActionQuery, m: MatchView) -> bool {
    &&& exists|e: int|
        0 <= e < es.len() && m.endpoint == (#[trigger] es[e]).pattern@ && m.id == es[e].description@.id
    &&& exists|e: int, j: int|
        0 <= e < es.len() && 0 <= j < normalized_actions(es[e].description@).len() && m == match_of(
            es[e].pattern@,
            es[e].description@.id,
            #[trigger] normalized_actions(es[e].description@)[j],
            slice_views(q.present@),
        ) && (q.want matches Some(w) ==> normalized_actions(es[e].description@)[j].outputs.contains(
            w@,
        ))
    &&& m.action == action_iri(m.id, m.verb)
    &&& !(m.verb is Meta)
    &&& q.verb matches Some(v) ==> m.verb == v
    &&& q.capability matches Some(c) ==> forall|t: int|
        0 <= t < m.requires.len() ==> cap_satisfies_spec(*c, #[trigger] m.requires[t])
}

proof fn lemma_selectable_not_meta(verbs: Seq<Verb>)
    ensures
        forall|k: int| 0 <= k < selectable_verbs(verbs).len() ==> !(#[trigger] selectable_verbs(verbs)[k] is Meta),
    decreases verbs.len(),
{
    if verbs.len() > 0 {
        lemma_selectable_not_meta(verbs.drop_last());
        let p = selectable_verbs(verbs.drop_last());
        if !(verbs.last() is Meta) {
            assert forall|k: int| 0 <= k < p.push(verbs.last()).len() implies !(#[trigger] p.push(
                verbs.last(),
            )[k] is Meta) by {
                if k < p.len() {
                    assert(p.push(verbs.last())[k] == p[k]);
                }
            }
        }
    }
}

proof fn lemma_explicit_action_verb(actions: Seq<ActionView>, verb: Verb, from: int)
    ensures
        explicit_action(actions, verb, from) matches Some(a) ==> a.verb == verb,
    decreases actions.len() - from,
{
    if from >= 0 && from < actions.len() && actions[from].verb != verb {
        lemma_explicit_action_verb(actions, verb, from + 1);
    }
}

proof fn lemma_normalized_not_meta(d: DescriptionView)
    ensures
        forall|k: int| 0 <= k < normalized_actions(d).len() ==> !(#[trigger] normalized_actions(d)[k].verb is Meta),
{
    lemma_selectable_not_meta(d.verbs);
    assert forall|k: int| 0 <= k < normalized_actions(d).len() implies !(#[trigger] normalized_actions(d)[k].verb is Meta) by {
        let v = selectable_verbs(d.verbs)[k];
        lemma_explicit_action_verb(d.actions, v, 0);
        assert(normalized_actions(d)[k] == action_for(d, v));
    }
}

proof fn lemma_all_matches_sound(es: Seq<DescribedEntry>, q: ActionQuery, k: int)
    requires
        0 <= k < all_matches(es, q).len(),
    ensures
        selection_sound(es, q, all_matches(es, q)[k]),
    decreases es.len(),
{
    let p = all_matches(es.drop_last(), q);
    let e = es.last();
    if k < p.len() {
        lemma_all_matches_sound(es.drop_last(), q, k);
        let m = p[k];
        let i = choose|i: int|
            0 <= i < es.drop_last().len() && m.endpoint == (#[trigger] es.drop_last()[i]).pattern@ && m.id
                == es.drop_last()[i].description@.id;
        assert(es[i] == es.drop_last()[i]);
        let (e2, j2) = choose|e2: int, j2: int|
            0 <= e2 < es.drop_last().len() && 0 <= j2 < normalized_actions(
                es.drop_last()[e2].description@,
            ).len() && m == match_of(
                es.drop_last()[e2].pattern@,
                es.drop_last()[e2].description@.id,
                #[trigger] normalized_actions(es.drop_last()[e2].description@)[j2],
                slice_views(q.present@),
            ) && (q.want matches Some(w) ==> normalized_actions(
                es.drop_last()[e2].description@,
            )[j2].outputs.contains(w@));
        assert(es[e2] == es.drop_last()[e2]);
        assert(all_matches(es, q)[k] == m);
        assert(normalized_actions(es[e2].description@)[j2] == normalized_actions(
            es.drop_last()[e2].description@,
        )[j2]);
    } else {
        let acts = normalized_actions(e.description@);
        lemma_entry_matches_offered(
            e.pattern@,
            e.description@.id,
            vars_view(e.template_vars),
            acts,
            q,
            k - p.len(),
        );
        lemma_normalized_not_meta(e.description@);
        let m = all_matches(es, q)[k];
        let j = choose|j: int|
            0 <= j < acts.len() && offered(vars_view(e.template_vars), #[trigger] acts[j], q)
                && entry_matches(e.pattern@, e.description@.id, vars_view(e.template_vars), acts, q)[k
                - p.len()] == match_of(e.pattern@, e.description@.id, acts[j], slice_views(q.present@));
        assert(m == match_of(e.pattern@, e.description@.id, acts[j], slice_views(q.present@)));
        assert(!(acts[j].verb is Meta));
        assert(es[es.len() - 1] == e);
        assert(normalized_actions(es[es.len() - 1].description@)[j] == acts[j]);
    }
}

/// What `select_actions` returns, as one statement: its matches are ranked
/// (fewer unfilled optional inputs first, then endpoint, then verb), and
/// every one of them is owed to its query: drawn from a described entry,
/// named by that entry's action IRI, never `Meta`, of the verb asked for,
/// and within the capability given.
pub proof fn lemma_selected_actions_are_sound(es: Seq<DescribedEntry>, q: ActionQuery)
    ensures
        is_ranked(ranked(all_matches(es, q))),
        forall|k: int|
            0 <= k < ranked(all_matches(es, q)).len() ==> selection_sound(es, q, #[trigger] ranked(all_matches(es, q))[k]),
{
    let ms = all_matches(es, q);
    lemma_ranked_is_ordered(ms);
    assert forall|k: int| 0 <= k < ranked(ms).len() implies selection_sound(es, q, #[trigger] ranked(ms)[k]) by {
        let x = ranked(ms)[k];
        assert(ms.contains(x));
        let j = choose|j: int| 0 <= j < ms.len() && ms[j] == x;
        lemma_all_matches_sound(es, q, j);
    }
}

} // verus!
