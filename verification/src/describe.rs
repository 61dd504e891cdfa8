//! Self-description of endpoints: the verbs an endpoint answers, the inputs it
//! reads, the outputs it produces and the authority it needs — flat, or per
//! verb as action specs — and the check that everything an RDF projection
//! puts in an IRI position is safe there.

use vstd::prelude::*;

use crate::error::Error;
use crate::iri::{iri_safe, is_iri_safe};
use crate::text::{concat_str, copy_str, copy_strings, own_strings, views_of};
use crate::verb::Verb;

verus! {

/// Where an input's value comes from.
#[derive(Clone, Copy, Debug, PartialEq, Eq, Structural)]
pub enum InputSource {
    /// A by-value argument supplied alongside the request. The default.
    Argument,
    /// A variable captured from the resource identifier by the grammar.
    Binding,
}

impl Default for InputSource {
    fn default() -> (r: InputSource)
        ensures
            r == InputSource::Argument,
    {
        InputSource::Argument
    }
}

/// An input as the specification sees it.
#[verifier::ext_equal]
pub struct ArgView {
    pub name: Seq<char>,
    pub summary: Seq<char>,
    pub required: bool,
    pub source: InputSource,
    pub class: Option<Seq<char>>,
    pub default: Option<Seq<char>>,
    pub one_of: Seq<Seq<char>>,
}

/// A specification of one named input an endpoint accepts.
#[derive(Debug, PartialEq, Eq)]
pub struct ArgSpec {
    /// The argument name.
    pub name: String,
    /// A short human description.
    pub summary: String,
    /// Whether the argument is required.
    pub required: bool,
    /// Whether the value arrives as a by-value argument or a grammar binding.
    pub source: InputSource,
    /// The RDF class or datatype the value is expected to be, as an IRI.
    pub class: Option<String>,
    /// The value assumed when the argument is omitted.
    pub default: Option<String>,
    /// The closed set of accepted values; empty means open-valued.
    pub one_of: Vec<String>,
}

/// The view of an optional string.
pub open spec fn opt_view(o: Option<String>) -> Option<Seq<char>> {
    match o {
        Some(s) => Some(s@),
        None => None,
    }
}

impl View for ArgSpec {
    type V = ArgView;

    open spec fn view(&self) -> ArgView {
        ArgView {
            name: self.name@,
            summary: self.summary@,
            required: self.required,
            source: self.source,
            class: opt_view(self.class),
            default: opt_view(self.default),
            one_of: views_of(self.one_of@),
        }
    }
}

fn copy_opt(o: &Option<String>) -> (r: Option<String>)
    ensures
        opt_view(r) == opt_view(*o),
{
    match o {
        Some(s) => Some(copy_str(s.as_str())),
        None => None,
    }
}

impl ArgSpec {
    /// A required by-value argument with the given name.
    pub fn new(name: &str) -> (r: ArgSpec)
        ensures
            r@ == (ArgView {
                name: name@,
                summary: Seq::empty(),
                required: true,
                source: InputSource::Argument,
                class: None,
                default: None,
                one_of: Seq::empty(),
            }),
    {
        let r = ArgSpec {
            name: copy_str(name),
            summary: String::new(),
            required: true,
            source: InputSource::Argument,
            class: None,
            default: None,
            one_of: Vec::new(),
        };
        assert(views_of(r.one_of@) =~= Seq::<Seq<char>>::empty());
        r
    }

    /// Add a human summary (builder).
    pub fn summary(self, summary: &str) -> (r: ArgSpec)
        ensures
            r@ == (ArgView { summary: summary@, ..self@ }),
    {
        ArgSpec { summary: copy_str(summary), ..self }
    }

    /// Declare the RDF class (IRI) this input's value is expected to be
    /// (builder).
    pub fn class(self, class: &str) -> (r: ArgSpec)
        ensures
            r@ == (ArgView { class: Some(class@), ..self@ }),
    {
        ArgSpec { class: Some(copy_str(class)), ..self }
    }

    /// Declare the value assumed when the argument is omitted (builder);
    /// implies the argument is optional.
    pub fn default_value(self, value: &str) -> (r: ArgSpec)
        ensures
            r@ == (ArgView { default: Some(value@), required: false, ..self@ }),
    {
        ArgSpec { default: Some(copy_str(value)), required: false, ..self }
    }

    /// Declare the closed set of accepted values (builder).
    pub fn one_of(self, values: &[&str]) -> (r: ArgSpec)
        ensures
            r@ == (ArgView { one_of: values@.map_values(|s: &str| s@), ..self@ }),
    {
        ArgSpec { one_of: own_strings(values), ..self }
    }

    /// Mark the argument optional (builder).
    pub fn optional(self) -> (r: ArgSpec)
        ensures
            r@ == (ArgView { required: false, ..self@ }),
    {
        ArgSpec { required: false, ..self }
    }

    /// Declare that this input is captured from the resource identifier
    /// (builder).
    pub fn binding(self) -> (r: ArgSpec)
        ensures
            r@ == (ArgView { source: InputSource::Binding, ..self@ }),
    {
        ArgSpec { source: InputSource::Binding, ..self }
    }

    /// A copy of this spec.
    pub fn duplicate(&self) -> (r: ArgSpec)
        ensures
            r@ == self@,
    {
        ArgSpec {
            name: copy_str(self.name.as_str()),
            summary: copy_str(self.summary.as_str()),
            required: self.required,
            source: self.source,
            class: copy_opt(&self.class),
            default: copy_opt(&self.default),
            one_of: copy_strings(self.one_of.as_slice()),
        }
    }
}

/// The views of a list of input specs.
pub open spec fn args_view(v: Seq<ArgSpec>) -> Seq<ArgView> {
    v.map_values(|a: ArgSpec| a@)
}

fn copy_args(v: &[ArgSpec]) -> (r: Vec<ArgSpec>)
    ensures
        args_view(r@) == args_view(v@),
{
    let mut out: Vec<ArgSpec> = Vec::new();
    let mut i: usize = 0;
    while i < v.len()
        invariant
            i <= v@.len(),
            out@.len() == i,
            forall|k: int| 0 <= k < i ==> (#[trigger] out@[k])@ == v@[k]@,
        decreases v@.len() - i,
    {
        out.push(v[i].duplicate());
        i = i + 1;
    }
    proof {
        assert(args_view(out@) =~= args_view(v@));
    }
    out
}

/// One verb's contract, as the specification sees it.
#[verifier::ext_equal]
pub struct ActionView {
    pub verb: Verb,
    pub summary: Seq<char>,
    pub inputs: Seq<ArgView>,
    pub outputs: Seq<Seq<char>>,
    pub requires: Seq<Seq<char>>,
}

/// One verb's contract on an endpoint: the inputs it reads, the outputs it
/// can produce and the capability scopes invoking it requires.
#[derive(Debug, PartialEq, Eq)]
pub struct ActionSpec {
    /// The verb this contract applies to.
    pub verb: Verb,
    /// A short human summary of what this verb does on this endpoint.
    pub summary: String,
    /// The named inputs this verb reads.
    pub inputs: Vec<ArgSpec>,
    /// The representation types this verb can produce.
    pub outputs: Vec<String>,
    /// The capability scopes invoking this verb requires.
    pub requires: Vec<String>,
}

impl View for ActionSpec {
    type V = ActionView;

    open spec fn view(&self) -> ActionView {
        ActionView {
            verb: self.verb,
            summary: self.summary@,
            inputs: args_view(self.inputs@),
            outputs: views_of(self.outputs@),
            requires: views_of(self.requires@),
        }
    }
}

impl ActionSpec {
    /// An action spec for the given verb.
    pub fn new(verb: Verb) -> (r: ActionSpec)
        ensures
            r@ == (ActionView {
                verb,
                summary: Seq::empty(),
                inputs: Seq::empty(),
                outputs: Seq::empty(),
                requires: Seq::empty(),
            }),
    {
        let r = ActionSpec {
            verb,
            summary: String::new(),
            inputs: Vec::new(),
            outputs: Vec::new(),
            requires: Vec::new(),
        };
        assert(args_view(r.inputs@) =~= Seq::<ArgView>::empty());
        assert(views_of(r.outputs@) =~= Seq::<Seq<char>>::empty());
        assert(views_of(r.requires@) =~= Seq::<Seq<char>>::empty());
        r
    }

    /// Set the summary (builder).
    pub fn summary(self, summary: &str) -> (r: ActionSpec)
        ensures
            r@ == (ActionView { summary: summary@, ..self@ }),
    {
        ActionSpec { summary: copy_str(summary), ..self }
    }

    /// Declare an input (builder).
    pub fn input(self, input: ArgSpec) -> (r: ActionSpec)
        ensures
            r@ == (ActionView { inputs: self@.inputs.push(input@), ..self@ }),
    {
        let mut r = self;
        r.inputs.push(input);
        assert(args_view(r.inputs@) =~= self@.inputs.push(input@));
        r
    }

    /// Declare an output media type (builder).
    pub fn output(self, media_type: &str) -> (r: ActionSpec)
        ensures
            r@ == (ActionView { outputs: self@.outputs.push(media_type@), ..self@ }),
    {
        let mut r = self;
        r.outputs.push(copy_str(media_type));
        assert(views_of(r.outputs@) =~= self@.outputs.push(media_type@));
        r
    }

    /// Declare a required capability scope (builder).
    pub fn require(self, capability: &str) -> (r: ActionSpec)
        ensures
            r@ == (ActionView { requires: self@.requires.push(capability@), ..self@ }),
    {
        let mut r = self;
        r.requires.push(copy_str(capability));
        assert(views_of(r.requires@) =~= self@.requires.push(capability@));
        r
    }

    /// A copy of this spec.
    pub fn duplicate(&self) -> (r: ActionSpec)
        ensures
            r@ == self@,
    {
        ActionSpec {
            verb: self.verb,
            summary: copy_str(self.summary.as_str()),
            inputs: copy_args(self.inputs.as_slice()),
            outputs: copy_strings(self.outputs.as_slice()),
            requires: copy_strings(self.requires.as_slice()),
        }
    }
}

/// The media-type conversions a transreptor supports.
#[derive(Debug, PartialEq, Eq)]
pub struct Transreption {
    /// The media types it can read.
    pub from: Vec<String>,
    /// The media types it can produce.
    pub to: Vec<String>,
}

impl Transreption {
    /// A copy of this transreption.
    pub fn duplicate(&self) -> (r: Transreption)
        ensures
            views_of(r.from@) == views_of(self.from@),
            views_of(r.to@) == views_of(self.to@),
    {
        Transreption { from: copy_strings(self.from.as_slice()), to: copy_strings(self.to.as_slice()) }
    }
}

/// What kind of endpoint this is.
#[derive(Debug, PartialEq, Eq)]
pub enum EndpointKind {
    /// A plain endpoint.
    Endpoint,
    /// A transreptor: converts a representation from one media type to another.
    Transreptor(Transreption),
}

impl Default for EndpointKind {
    fn default() -> (r: EndpointKind)
        ensures
            r is Endpoint,
    {
        EndpointKind::Endpoint
    }
}

/// A kind as the specification sees it.
pub enum KindView {
    Endpoint,
    Transreptor(Seq<Seq<char>>, Seq<Seq<char>>),
}

impl View for EndpointKind {
    type V = KindView;

    open spec fn view(&self) -> KindView {
        match self {
            EndpointKind::Endpoint => KindView::Endpoint,
            EndpointKind::Transreptor(t) => KindView::Transreptor(views_of(t.from@), views_of(t.to@)),
        }
    }
}

impl EndpointKind {
    /// Whether this is the default plain endpoint kind.
    pub fn is_endpoint(&self) -> (r: bool)
        ensures
            r == (self is Endpoint),
    {
        match self {
            EndpointKind::Endpoint => true,
            _ => false,
        }
    }

    /// A copy of this kind.
    pub fn duplicate(&self) -> (r: EndpointKind)
        ensures
            r@ == self@,
    {
        match self {
            EndpointKind::Endpoint => EndpointKind::Endpoint,
            EndpointKind::Transreptor(t) => EndpointKind::Transreptor(t.duplicate()),
        }
    }
}

/// A description as the specification sees it.
#[verifier::ext_equal]
pub struct DescriptionView {
    pub id: Seq<char>,
    pub title: Seq<char>,
    pub summary: Seq<char>,
    pub verbs: Seq<Verb>,
    pub inputs: Seq<ArgView>,
    pub outputs: Seq<Seq<char>>,
    pub kind: KindView,
    pub requires: Seq<Seq<char>>,
    pub actions: Seq<ActionView>,
}

/// A structured self-description of an endpoint.
#[derive(Debug, PartialEq, Eq)]
pub struct Description {
    /// The endpoint identifier.
    pub id: String,
    /// A short human title.
    pub title: String,
    /// A longer human summary.
    pub summary: String,
    /// The verbs this endpoint answers.
    pub verbs: Vec<Verb>,
    /// The named inputs it accepts.
    pub inputs: Vec<ArgSpec>,
    /// The representation types it can produce.
    pub outputs: Vec<String>,
    /// What kind of endpoint this is.
    pub kind: EndpointKind,
    /// The capability scopes invoking this endpoint requires.
    pub requires: Vec<String>,
    /// Per-verb contracts, for endpoints whose verbs genuinely differ.
    pub actions: Vec<ActionSpec>,
}

/// The views of a list of action specs.
pub open spec fn actions_view(v: Seq<ActionSpec>) -> Seq<ActionView> {
    v.map_values(|a: ActionSpec| a@)
}

impl View for Description {
    type V = DescriptionView;

    open spec fn view(&self) -> DescriptionView {
        DescriptionView {
            id: self.id@,
            title: self.title@,
            summary: self.summary@,
            verbs: self.verbs@,
            inputs: args_view(self.inputs@),
            outputs: views_of(self.outputs@),
            kind: self.kind@,
            requires: views_of(self.requires@),
            actions: actions_view(self.actions@),
        }
    }
}

/// The first explicit action for `verb`, if any.
pub open spec fn explicit_action(actions: Seq<ActionView>, verb: Verb, from: int) -> Option<ActionView>
    decreases actions.len() - from,
{
    if from < 0 || from >= actions.len() {
        None
    } else if actions[from].verb == verb {
        Some(actions[from])
    } else {
        explicit_action(actions, verb, from + 1)
    }
}

/// The contract of `verb` on `d`: its explicit action if declared, else one
/// built from the flat fields.
pub open spec fn action_for(d: DescriptionView, verb: Verb) -> ActionView {
    match explicit_action(d.actions, verb, 0) {
        Some(a) => a,
        None => ActionView {
            verb,
            summary: Seq::empty(),
            inputs: d.inputs,
            outputs: d.outputs,
            requires: d.requires,
        },
    }
}

/// The declared verbs other than `Meta`, in order.
pub open spec fn selectable_verbs(verbs: Seq<Verb>) -> Seq<Verb>
    decreases verbs.len(),
{
    if verbs.len() == 0 {
        Seq::empty()
    } else {
        let p = selectable_verbs(verbs.drop_last());
        if verbs.last() is Meta {
            p
        } else {
            p.push(verbs.last())
        }
    }
}

/// The normalized per-verb view of a description.
pub open spec fn normalized_actions(d: DescriptionView) -> Seq<ActionView> {
    selectable_verbs(d.verbs).map_values(|v: Verb| action_for(d, v))
}

/// The capability scopes the actions for `verb` require, in action order.
pub open spec fn scopes_for(actions: Seq<ActionView>, verb: Verb) -> Seq<Seq<char>>
    decreases actions.len(),
{
    if actions.len() == 0 {
        Seq::empty()
    } else {
        scopes_for(actions.drop_last(), verb) + if actions.last().verb == verb {
            actions.last().requires
        } else {
            Seq::empty()
        }
    }
}

/// The `(field, value)` pairs an input puts in IRI positions.
pub open spec fn arg_positions(a: ArgView) -> Seq<(Seq<char>, Seq<char>)> {
    seq![("input name"@, a.name)] + match a.class {
        Some(c) => seq![("input class"@, c)],
        None => Seq::empty(),
    }
}

/// The positions of a list of inputs, in order.
pub open spec fn inputs_positions(inputs: Seq<ArgView>) -> Seq<(Seq<char>, Seq<char>)>
    decreases inputs.len(),
{
    if inputs.len() == 0 {
        Seq::empty()
    } else {
        inputs_positions(inputs.drop_last()) + arg_positions(inputs.last())
    }
}

/// The positions of a list of capability scopes.
pub open spec fn requires_positions(reqs: Seq<Seq<char>>) -> Seq<(Seq<char>, Seq<char>)> {
    reqs.map_values(|c: Seq<char>| ("requires"@, c))
}

/// The positions of a list of actions, in order.
pub open spec fn actions_positions(actions: Seq<ActionView>) -> Seq<(Seq<char>, Seq<char>)>
    decreases actions.len(),
{
    if actions.len() == 0 {
        Seq::empty()
    } else {
        actions_positions(actions.drop_last()) + inputs_positions(actions.last().inputs)
            + requires_positions(actions.last().requires)
    }
}

/// Every `(field, value)` a description puts in an IRI position: the id, the
/// flat inputs and scopes, then each explicit action's.
pub open spec fn iri_positions(d: DescriptionView) -> Seq<(Seq<char>, Seq<char>)> {
    seq![("id"@, d.id)] + inputs_positions(d.inputs) + requires_positions(d.requires)
        + actions_positions(d.actions)
}

/// The first position whose value is not safe in an IRI, if any.
pub open spec fn first_unsafe(ps: Seq<(Seq<char>, Seq<char>)>, from: int) -> Option<int>
    decreases ps.len() - from,
{
    if from < 0 || from >= ps.len() {
        None
    } else if !iri_safe(ps[from].1) {
        Some(from)
    } else {
        first_unsafe(ps, from + 1)
    }
}

/// What `first_unsafe` finds lies within the positions.
pub proof fn lemma_first_unsafe(ps: Seq<(Seq<char>, Seq<char>)>, from: int)
    requires
        0 <= from,
    ensures
        first_unsafe(ps, from) matches Some(i) ==> from <= i < ps.len() && !iri_safe(ps[i].1),
        first_unsafe(ps, from) is None ==> forall|k: int| from <= k < ps.len() ==> iri_safe(
            #[trigger] ps[k].1,
        ),
    decreases ps.len() - from,
{
    if from < ps.len() && iri_safe(ps[from].1) {
        lemma_first_unsafe(ps, from + 1);
    }
}

/// Whether every value of `ps` is safe in an IRI position.
pub open spec fn all_safe(ps: Seq<(Seq<char>, Seq<char>)>) -> bool {
    forall|k: int| 0 <= k < ps.len() ==> iri_safe(#[trigger] ps[k].1)
}

/// Whether an input's IRI-position fields are safe: its name and its class.
pub open spec fn arg_safe(a: ArgView) -> bool {
    &&& iri_safe(a.name)
    &&& (a.class matches Some(c) ==> iri_safe(c))
}

/// Whether an action's IRI-position fields are safe: its inputs' and its
/// capability scopes.
pub open spec fn action_safe(a: ActionView) -> bool {
    &&& forall|i: int| 0 <= i < a.inputs.len() ==> arg_safe(#[trigger] a.inputs[i])
    &&& forall|j: int| 0 <= j < a.requires.len() ==> iri_safe(#[trigger] a.requires[j])
}

/// Whether every field of `d` that is projected into an IRI position is safe.
pub open spec fn fields_safe(d: DescriptionView) -> bool {
    &&& iri_safe(d.id)
    &&& forall|i: int| 0 <= i < d.inputs.len() ==> arg_safe(#[trigger] d.inputs[i])
    &&& forall|j: int| 0 <= j < d.requires.len() ==> iri_safe(#[trigger] d.requires[j])
    &&& forall|k: int| 0 <= k < d.actions.len() ==> action_safe(#[trigger] d.actions[k])
}

proof fn lemma_all_safe_split(a: Seq<(Seq<char>, Seq<char>)>, b: Seq<(Seq<char>, Seq<char>)>)
    requires
        all_safe(a + b),
    ensures
        all_safe(a),
        all_safe(b),
{
    assert forall|k: int| 0 <= k < a.len() implies iri_safe(#[trigger] a[k].1) by {
        assert((a + b)[k] == a[k]);
    }
    assert forall|k: int| 0 <= k < b.len() implies iri_safe(#[trigger] b[k].1) by {
        assert((a + b)[a.len() + k] == b[k]);
    }
}

proof fn lemma_inputs_safe(inputs: Seq<ArgView>)
    requires
        all_safe(inputs_positions(inputs)),
    ensures
        forall|i: int| 0 <= i < inputs.len() ==> arg_safe(#[trigger] inputs[i]),
    decreases inputs.len(),
{
    if inputs.len() > 0 {
        let pre = inputs.drop_last();
        let last = inputs.last();
        lemma_all_safe_split(inputs_positions(pre), arg_positions(last));
        lemma_inputs_safe(pre);
        let tail = arg_positions(last);
        assert(tail[0] == ("input name"@, last.name));
        assert(iri_safe(tail[0].1));
        if let Some(c) = last.class {
            assert(tail[1] == ("input class"@, c));
            assert(iri_safe(tail[1].1));
        }
        assert(arg_safe(last));
        assert forall|i: int| 0 <= i < inputs.len() implies arg_safe(#[trigger] inputs[i]) by {
            if i < pre.len() {
                assert(inputs[i] == pre[i]);
            }
        }
    }
}

proof fn lemma_requires_safe(reqs: Seq<Seq<char>>)
    requires
        all_safe(requires_positions(reqs)),
    ensures
        forall|j: int| 0 <= j < reqs.len() ==> iri_safe(#[trigger] reqs[j]),
{
    assert forall|j: int| 0 <= j < reqs.len() implies iri_safe(#[trigger] reqs[j]) by {
        assert(requires_positions(reqs)[j].1 == reqs[j]);
    }
}

proof fn lemma_actions_safe(actions: Seq<ActionView>)
    requires
        all_safe(actions_positions(actions)),
    ensures
        forall|k: int| 0 <= k < actions.len() ==> action_safe(#[trigger] actions[k]),
    decreases actions.len(),
{
    if actions.len() > 0 {
        let pre = actions.drop_last();
        let last = actions.last();
        lemma_all_safe_split(
            actions_positions(pre) + inputs_positions(last.inputs),
            requires_positions(last.requires),
        );
        lemma_all_safe_split(actions_positions(pre), inputs_positions(last.inputs));
        lemma_actions_safe(pre);
        lemma_inputs_safe(last.inputs);
        lemma_requires_safe(last.requires);
        assert forall|k: int| 0 <= k < actions.len() implies action_safe(#[trigger] actions[k]) by {
            if k < pre.len() {
                assert(actions[k] == pre[k]);
            }
        }
    }
}

proof fn lemma_explicit_action_is_declared(actions: Seq<ActionView>, verb: Verb, from: int)
    requires
        0 <= from,
    ensures
        explicit_action(actions, verb, from) matches Some(a) ==> exists|k: int|
            0 <= k < actions.len() && #[trigger] actions[k] == a,
    decreases actions.len() - from,
{
    if from < actions.len() && actions[from].verb != verb {
        lemma_explicit_action_is_declared(actions, verb, from + 1);
    }
}

/// A description that validates has every field it projects into an IRI
/// position safe, in its flat fields, in each explicit action, and so in each
/// action of its normalized per-verb view.
pub proof fn lemma_validated_fields_are_safe(d: DescriptionView)
    requires
        first_unsafe(iri_positions(d), 0) is None,
    ensures
        fields_safe(d),
        forall|k: int|
            0 <= k < normalized_actions(d).len() ==> action_safe(#[trigger] normalized_actions(d)[k]),
{
    lemma_first_unsafe(iri_positions(d), 0);
    let ps = iri_positions(d);
    let head = seq![("id"@, d.id)];
    lemma_all_safe_split(
        head + inputs_positions(d.inputs) + requires_positions(d.requires),
        actions_positions(d.actions),
    );
    lemma_all_safe_split(head + inputs_positions(d.inputs), requires_positions(d.requires));
    lemma_all_safe_split(head, inputs_positions(d.inputs));
    assert(head[0].1 == d.id);
    lemma_inputs_safe(d.inputs);
    lemma_requires_safe(d.requires);
    lemma_actions_safe(d.actions);
    let na = normalized_actions(d);
    assert forall|k: int| 0 <= k < na.len() implies action_safe(#[trigger] na[k]) by {
        let v = selectable_verbs(d.verbs)[k];
        assert(na[k] == action_for(d, v));
        lemma_explicit_action_is_declared(d.actions, v, 0);
        match explicit_action(d.actions, v, 0) {
            Some(a) => {
                let j = choose|j: int| 0 <= j < d.actions.len() && #[trigger] d.actions[j] == a;
                assert(action_safe(d.actions[j]));
            },
            None => {},
        }
    }
}

/// The complaint about an unsafe position.
pub open spec fn unsafe_message(id: Seq<char>, field: Seq<char>, value: Seq<char>) -> Seq<char> {
    "endpoint `"@ + id + "`: "@ + field + " `"@ + value
        + "` is not safe in an IRI position (an RDF IRIREF cannot contain <>\"{}|^`\\, space or a control character)"@
}

/// Checking positions computed.
fn check_positions(id: &str, ps: &Vec<(&str, &str)>) -> (r: Result<(), Error>)
    ensures
        match first_unsafe(ps@.map_values(|p: (&str, &str)| (p.0@, p.1@)), 0) {
            None => r is Ok,
            Some(i) => r matches Err(Error::Endpoint(m)) && m@ == unsafe_message(
                id@,
                ps@[i].0@,
                ps@[i].1@,
            ),
        },
{
    let ghost v = ps@.map_values(|p: (&str, &str)| (p.0@, p.1@));
    let mut i: usize = 0;
    while i < ps.len()
        invariant
            i <= ps@.len(),
            v == ps@.map_values(|p: (&str, &str)| (p.0@, p.1@)),
            first_unsafe(v, 0) == first_unsafe(v, i as int),
        decreases ps@.len() - i,
    {
        let (field, value) = ps[i];
        assert(v[i as int] == (field@, value@));
        if !is_iri_safe(value) {
            let a = concat_str("endpoint `", id);
            let b = concat_str(a.as_str(), "`: ");
            let c = concat_str(b.as_str(), field);
            let d = concat_str(c.as_str(), " `");
            let e = concat_str(d.as_str(), value);
            let f = concat_str(
                e.as_str(),
                "` is not safe in an IRI position (an RDF IRIREF cannot contain <>\"{}|^`\\, space or a control character)",
            );
            return Err(Error::Endpoint(f));
        }
        i = i + 1;
    }
    Ok(())
}

fn push_arg_positions<'a>(ps: &mut Vec<(&'a str, &'a str)>, a: &'a ArgSpec)
    ensures
        final(ps)@.map_values(|p: (&str, &str)| (p.0@, p.1@)) == old(ps)@.map_values(
            |p: (&str, &str)| (p.0@, p.1@),
        ) + arg_positions(a@),
{
    let ghost before = ps@.map_values(|p: (&str, &str)| (p.0@, p.1@));
    ps.push(("input name", a.name.as_str()));
    match &a.class {
        Some(c) => {
            ps.push(("input class", c.as_str()));
        },
        None => {},
    }
    proof {
        assert(ps@.map_values(|p: (&str, &str)| (p.0@, p.1@)) =~= before + arg_positions(a@));
    }
}

fn push_inputs_positions<'a>(ps: &mut Vec<(&'a str, &'a str)>, inputs: &'a Vec<ArgSpec>)
    ensures
        final(ps)@.map_values(|p: (&str, &str)| (p.0@, p.1@)) == old(ps)@.map_values(
            |p: (&str, &str)| (p.0@, p.1@),
        ) + inputs_positions(args_view(inputs@)),
{
    let ghost start = ps@.map_values(|p: (&str, &str)| (p.0@, p.1@));
    let mut i: usize = 0;
    while i < inputs.len()
        invariant
            i <= inputs@.len(),
            ps@.map_values(|p: (&str, &str)| (p.0@, p.1@)) == start + inputs_positions(
                args_view(inputs@).take(i as int),
            ),
        decreases inputs@.len() - i,
    {
        let ghost mid = ps@.map_values(|p: (&str, &str)| (p.0@, p.1@));
        push_arg_positions(ps, &inputs[i]);
        proof {
            let t = args_view(inputs@).take(i + 1);
            assert(t.drop_last() =~= args_view(inputs@).take(i as int));
            assert(t.last() == inputs@[i as int]@);
            assert(ps@.map_values(|p: (&str, &str)| (p.0@, p.1@)) =~= start + inputs_positions(t));
        }
        i = i + 1;
    }
    proof {
        assert(args_view(inputs@).take(inputs@.len() as int) =~= args_view(inputs@));
    }
}

fn push_requires_positions<'a>(ps: &mut Vec<(&'a str, &'a str)>, reqs: &'a Vec<String>)
    ensures
        final(ps)@.map_values(|p: (&str, &str)| (p.0@, p.1@)) == old(ps)@.map_values(
            |p: (&str, &str)| (p.0@, p.1@),
        ) + requires_positions(views_of(reqs@)),
{
    let ghost start = ps@.map_values(|p: (&str, &str)| (p.0@, p.1@));
    let mut i: usize = 0;
    while i < reqs.len()
        invariant
            i <= reqs@.len(),
            ps@.map_values(|p: (&str, &str)| (p.0@, p.1@)) == start + requires_positions(
                views_of(reqs@).take(i as int),
            ),
        decreases reqs@.len() - i,
    {
        let ghost mid = ps@.map_values(|p: (&str, &str)| (p.0@, p.1@));
        ps.push(("requires", reqs[i].as_str()));
        proof {
            assert(ps@.map_values(|p: (&str, &str)| (p.0@, p.1@)) =~= mid.push(
                ("requires"@, reqs@[i as int]@),
            ));
            assert(requires_positions(views_of(reqs@).take(i + 1)) =~= requires_positions(
                views_of(reqs@).take(i as int),
            ).push(("requires"@, reqs@[i as int]@)));
            assert(ps@.map_values(|p: (&str, &str)| (p.0@, p.1@)) =~= start + requires_positions(
                views_of(reqs@).take(i + 1),
            ));
        }
        i = i + 1;
    }
    proof {
        assert(views_of(reqs@).take(reqs@.len() as int) =~= views_of(reqs@));
    }
}

impl Description {
    /// A description for the endpoint with the given identifier.
    pub fn new(id: &str) -> (r: Description)
        ensures
            r@ == (DescriptionView {
                id: id@,
                title: Seq::empty(),
                summary: Seq::empty(),
                verbs: Seq::empty(),
                inputs: Seq::empty(),
                outputs: Seq::empty(),
                kind: KindView::Endpoint,
                requires: Seq::empty(),
                actions: Seq::empty(),
            }),
    {
        let r = Description {
            id: copy_str(id),
            title: String::new(),
            summary: String::new(),
            verbs: Vec::new(),
            inputs: Vec::new(),
            outputs: Vec::new(),
            kind: EndpointKind::Endpoint,
            requires: Vec::new(),
            actions: Vec::new(),
        };
        assert(args_view(r.inputs@) =~= Seq::<ArgView>::empty());
        assert(views_of(r.outputs@) =~= Seq::<Seq<char>>::empty());
        assert(views_of(r.requires@) =~= Seq::<Seq<char>>::empty());
        assert(actions_view(r.actions@) =~= Seq::<ActionView>::empty());
        assert(r.verbs@ =~= Seq::<Verb>::empty());
        r
    }

    /// Set the title (builder).
    pub fn title(self, title: &str) -> (r: Description)
        ensures
            r@ == (DescriptionView { title: title@, ..self@ }),
    {
        Description { title: copy_str(title), ..self }
    }

    /// Set the summary (builder).
    pub fn summary(self, summary: &str) -> (r: Description)
        ensures
            r@ == (DescriptionView { summary: summary@, ..self@ }),
    {
        Description { summary: copy_str(summary), ..self }
    }

    /// Declare a supported verb (builder).
    pub fn verb(self, verb: Verb) -> (r: Description)
        ensures
            r@ == (DescriptionView { verbs: self@.verbs.push(verb), ..self@ }),
    {
        let mut r = self;
        r.verbs.push(verb);
        r
    }

    /// Declare an input (builder).
    pub fn input(self, input: ArgSpec) -> (r: Description)
        ensures
            r@ == (DescriptionView { inputs: self@.inputs.push(input@), ..self@ }),
    {
        let mut r = self;
        r.inputs.push(input);
        assert(args_view(r.inputs@) =~= self@.inputs.push(input@));
        r
    }

    /// Declare an output media type (builder).
    pub fn output(self, media_type: &str) -> (r: Description)
        ensures
            r@ == (DescriptionView { outputs: self@.outputs.push(media_type@), ..self@ }),
    {
        let mut r = self;
        r.outputs.push(copy_str(media_type));
        assert(views_of(r.outputs@) =~= self@.outputs.push(media_type@));
        r
    }

    /// Declare a capability scope this endpoint requires (builder).
    pub fn require(self, capability: &str) -> (r: Description)
        ensures
            r@ == (DescriptionView { requires: self@.requires.push(capability@), ..self@ }),
    {
        let mut r = self;
        r.requires.push(copy_str(capability));
        assert(views_of(r.requires@) =~= self@.requires.push(capability@));
        r
    }

    /// Set the endpoint kind (builder).
    pub fn kind(self, kind: EndpointKind) -> (r: Description)
        ensures
            r@ == (DescriptionView { kind: kind@, ..self@ }),
    {
        Description { kind, ..self }
    }

    /// Declare a per-verb contract (builder); its verb is declared too if it
    /// was not already.
    pub fn action(self, action: ActionSpec) -> (r: Description)
        ensures
            r@ == (DescriptionView {
                verbs: if self@.verbs.contains(action@.verb) {
                    self@.verbs
                } else {
                    self@.verbs.push(action@.verb)
                },
                actions: self@.actions.push(action@),
                ..self@
            }),
    {
        let mut r = self;
        let mut found = false;
        let mut i: usize = 0;
        while i < r.verbs.len()
            invariant
                i <= r.verbs@.len(),
                found == exists|k: int| 0 <= k < i && r.verbs@[k] == action.verb,
            decreases r.verbs@.len() - i,
        {
            if r.verbs[i] == action.verb {
                found = true;
            }
            i = i + 1;
        }
        proof {
            if r.verbs@.contains(action.verb) {
                let k = choose|k: int| 0 <= k < r.verbs@.len() && r.verbs@[k] == action.verb;
                assert(found);
            }
        }
        if !found {
            r.verbs.push(action.verb);
        }
        r.actions.push(action);
        assert(actions_view(r.actions@) =~= self@.actions.push(action@));
        r
    }

    /// The normalized per-verb view: one action spec per declared verb other
    /// than `Meta`, the explicit action for a verb winning over one
    /// synthesized from the flat fields.
    pub fn action_specs(&self) -> (r: Vec<ActionSpec>)
        ensures
            actions_view(r@) == normalized_actions(self@),
    {
        let mut out: Vec<ActionSpec> = Vec::new();
        let mut i: usize = 0;
        while i < self.verbs.len()
            invariant
                i <= self.verbs@.len(),
                actions_view(out@) == selectable_verbs(self.verbs@.take(i as int)).map_values(
                    |v: Verb| action_for(self@, v),
                ),
            decreases self.verbs@.len() - i,
        {
            let verb = self.verbs[i];
            let ghost before = actions_view(out@);
            proof {
                assert(self.verbs@.take(i + 1).drop_last() =~= self.verbs@.take(i as int));
            }
            if verb != Verb::Meta {
                let mut found: Option<usize> = None;
                let mut k: usize = 0;
                while k < self.actions.len()
                    invariant
                        k <= self.actions@.len(),
                        found is None ==> explicit_action(self@.actions, verb, 0) == explicit_action(
                            self@.actions,
                            verb,
                            k as int,
                        ),
                        found matches Some(j) ==> j < self.actions@.len() && explicit_action(
                            self@.actions,
                            verb,
                            0,
                        ) == Some(self@.actions[j as int]),
                    decreases self.actions@.len() - k,
                {
                    if found.is_none() && self.actions[k].verb == verb {
                        found = Some(k);
                    }
                    k = k + 1;
                }
                let spec = match found {
                    Some(j) => self.actions[j].duplicate(),
                    None => ActionSpec {
                        verb,
                        summary: String::new(),
                        inputs: copy_args(self.inputs.as_slice()),
                        outputs: copy_strings(self.outputs.as_slice()),
                        requires: copy_strings(self.requires.as_slice()),
                    },
                };
                proof {
                    assert(spec@ == action_for(self@, verb));
                }
                out.push(spec);
                proof {
                    assert(actions_view(out@) =~= before.push(action_for(self@, verb)));
                }
            }
            proof {
                let t = selectable_verbs(self.verbs@.take(i + 1));
                assert(t.map_values(|v: Verb| action_for(self@, v)) =~= actions_view(out@));
            }
            i = i + 1;
        }
        proof {
            assert(self.verbs@.take(self.verbs@.len() as int) =~= self.verbs@);
        }
        out
    }

    /// Mark this endpoint a transreptor converting from any of `from` to any
    /// of `to` (builder).
    pub fn transreptor(self, from: &[&str], to: &[&str]) -> (r: Description)
        ensures
            r@ == (DescriptionView {
                kind: KindView::Transreptor(
                    from@.map_values(|s: &str| s@),
                    to@.map_values(|s: &str| s@),
                ),
                ..self@
            }),
    {
        Description {
            kind: EndpointKind::Transreptor(
                Transreption { from: own_strings(from), to: own_strings(to) },
            ),
            ..self
        }
    }

    /// The transreption this endpoint supports, if it is a transreptor.
    pub fn transreption(&self) -> (r: Option<&Transreption>)
        ensures
            match self@.kind {
                KindView::Transreptor(f, t) => r is Some && views_of(r->0.from@) == f && views_of(
                    r->0.to@,
                ) == t,
                KindView::Endpoint => r is None,
            },
    {
        match &self.kind {
            EndpointKind::Transreptor(t) => Some(t),
            EndpointKind::Endpoint => None,
        }
    }

    /// Check that every identifier this description projects into an RDF IRI
    /// position is safe there — the id, each input name and class, and each
    /// scope, across the flat fields and every explicit action. The first
    /// unsafe one is reported.
    pub fn validate(&self) -> (r: Result<(), Error>)
        ensures
            match first_unsafe(iri_positions(self@), 0) {
                None => r is Ok,
                Some(i) => r matches Err(Error::Endpoint(m)) && m@ == unsafe_message(
                    self@.id,
                    iri_positions(self@)[i].0,
                    iri_positions(self@)[i].1,
                ),
            },
    {
        let mut ps: Vec<(&str, &str)> = Vec::new();
        ps.push(("id", self.id.as_str()));
        push_inputs_positions(&mut ps, &self.inputs);
        push_requires_positions(&mut ps, &self.requires);
        let ghost flat = ps@.map_values(|p: (&str, &str)| (p.0@, p.1@));
        let mut i: usize = 0;
        while i < self.actions.len()
            invariant
                i <= self.actions@.len(),
                ps@.map_values(|p: (&str, &str)| (p.0@, p.1@)) == flat + actions_positions(
                    actions_view(self.actions@).take(i as int),
                ),
            decreases self.actions@.len() - i,
        {
            push_inputs_positions(&mut ps, &self.actions[i].inputs);
            push_requires_positions(&mut ps, &self.actions[i].requires);
            proof {
                let t = actions_view(self.actions@).take(i + 1);
                assert(t.drop_last() =~= actions_view(self.actions@).take(i as int));
                assert(t.last() == self.actions@[i as int]@);
                assert(ps@.map_values(|p: (&str, &str)| (p.0@, p.1@)) =~= flat + actions_positions(t));
            }
            i = i + 1;
        }
        proof {
            assert(actions_view(self.actions@).take(self.actions@.len() as int) =~= actions_view(
                self.actions@,
            ));
            assert(ps@.map_values(|p: (&str, &str)| (p.0@, p.1@)) =~= iri_positions(self@));
        }
        let r = check_positions(self.id.as_str(), &ps);
        proof {
            match first_unsafe(iri_positions(self@), 0) {
                Some(i) => {
                    lemma_first_unsafe(iri_positions(self@), 0);
                    assert(ps@.map_values(|p: (&str, &str)| (p.0@, p.1@))[i] == (ps@[i].0@, ps@[i].1@));
                },
                None => {},
            }
        }
        r
    }

    /// A copy of this description.
    pub fn duplicate(&self) -> (r: Description)
        ensures
            r@ == self@,
    {
        let mut actions: Vec<ActionSpec> = Vec::new();
        let mut i: usize = 0;
        while i < self.actions.len()
            invariant
                i <= self.actions@.len(),
                actions@.len() == i,
                forall|k: int| 0 <= k < i ==> (#[trigger] actions@[k])@ == self.actions@[k]@,
            decreases self.actions@.len() - i,
        {
            actions.push(self.actions[i].duplicate());
            i = i + 1;
        }
        proof {
            assert(actions_view(actions@) =~= actions_view(self.actions@));
        }
        Description {
            id: copy_str(self.id.as_str()),
            title: copy_str(self.title.as_str()),
            summary: copy_str(self.summary.as_str()),
            verbs: self.verbs.clone(),
            inputs: copy_args(self.inputs.as_slice()),
            outputs: copy_strings(self.outputs.as_slice()),
            kind: self.kind.duplicate(),
            requires: copy_strings(self.requires.as_slice()),
            actions,
        }
    }
}


/// The explicit action found for a verb answers that verb.
proof fn lemma_explicit_action_verb(actions: Seq<ActionView>, verb: Verb, from: int)
    ensures
        explicit_action(actions, verb, from) matches Some(a) ==> a.verb == verb,
    decreases actions.len() - from,
{
    if 0 <= from < actions.len() && actions[from].verb != verb {
        lemma_explicit_action_verb(actions, verb, from + 1);
    }
}

/// The selectable verbs never include `Meta`.
proof fn lemma_selectable_verbs_exclude_meta(verbs: Seq<Verb>)
    ensures
        forall|k: int|
            0 <= k < selectable_verbs(verbs).len() ==> !(#[trigger] selectable_verbs(verbs)[k] is Meta),
    decreases verbs.len(),
{
    if verbs.len() > 0 {
        lemma_selectable_verbs_exclude_meta(verbs.drop_last());
    }
}

/// Actions none of which answers `verb` require no scope for it.
proof fn lemma_scopes_for_absent(actions: Seq<ActionView>, verb: Verb)
    requires
        forall|k: int| 0 <= k < actions.len() ==> (#[trigger] actions[k]).verb != verb,
    ensures
        scopes_for(actions, verb) == Seq::<Seq<char>>::empty(),
    decreases actions.len(),
{
    if actions.len() > 0 {
        let rest = actions.drop_last();
        assert forall|k: int| 0 <= k < rest.len() implies (#[trigger] rest[k]).verb != verb by {
            assert(rest[k] == actions[k]);
        }
        lemma_scopes_for_absent(rest, verb);
        assert(actions.last().verb != verb);
        assert(scopes_for(actions, verb) =~= Seq::<Seq<char>>::empty());
    }
}

/// `Meta` is never a gated action: whatever a description declares, the
/// capability scopes its normalized actions require for `Meta` are none,
/// because normalization leaves `Meta` out and every action answers the verb
/// it was normalized for.
pub proof fn lemma_meta_is_never_gated(d: DescriptionView)
    ensures
        scopes_for(normalized_actions(d), Verb::Meta) == Seq::<Seq<char>>::empty(),
{
    let acts = normalized_actions(d);
    let vs = selectable_verbs(d.verbs);
    lemma_selectable_verbs_exclude_meta(d.verbs);
    assert forall|k: int| 0 <= k < acts.len() implies (#[trigger] acts[k]).verb != Verb::Meta by {
        assert(acts[k] == action_for(d, vs[k]));
        lemma_explicit_action_verb(d.actions, vs[k], 0);
        assert(!(vs[k] is Meta));
    }
    lemma_scopes_for_absent(acts, Verb::Meta);
}

/// The contract normalized for a verb answers that verb.
proof fn lemma_action_for_verb(d: DescriptionView, verb: Verb)
    ensures
        action_for(d, verb).verb == verb,
{
    lemma_explicit_action_verb(d.actions, verb, 0);
}

/// Scanning a description's normalized actions for a verb it declares finds
/// that verb's contract.
proof fn lemma_explicit_in_normalized(d: DescriptionView, verb: Verb, from: int)
    requires
        0 <= from,
        exists|j: int| from <= j < selectable_verbs(d.verbs).len() && selectable_verbs(d.verbs)[j] == verb,
    ensures
        explicit_action(normalized_actions(d), verb, from) == Some(action_for(d, verb)),
    decreases selectable_verbs(d.verbs).len() - from,
{
    let vs = selectable_verbs(d.verbs);
    let acts = normalized_actions(d);
    assert(acts[from] == action_for(d, vs[from]));
    lemma_action_for_verb(d, vs[from]);
    if acts[from].verb != verb {
        let j = choose|j: int| from <= j < vs.len() && vs[j] == verb;
        assert(j != from);
        lemma_explicit_in_normalized(d, verb, from + 1);
    }
}

/// The two authoring forms normalize to the same view: re-authoring a
/// description with its normalized per-verb contracts as explicit actions, and
/// no flat inputs, outputs or scopes, yields the same normalized actions.
pub proof fn lemma_authoring_forms_agree(d: DescriptionView)
    ensures
        normalized_actions(
            DescriptionView {
                inputs: Seq::empty(),
                outputs: Seq::empty(),
                requires: Seq::empty(),
                actions: normalized_actions(d),
                ..d
            },
        ) == normalized_actions(d),
{
    let d2 = DescriptionView {
        inputs: Seq::empty(),
        outputs: Seq::empty(),
        requires: Seq::empty(),
        actions: normalized_actions(d),
        ..d
    };
    let vs = selectable_verbs(d.verbs);
    assert forall|k: int| 0 <= k < vs.len() implies action_for(d2, vs[k]) == action_for(d, vs[k]) by {
        lemma_explicit_in_normalized(d, vs[k], 0);
    }
    assert(normalized_actions(d2) =~= normalized_actions(d));
}

} // verus!
