//! The RDF (Turtle) projection of endpoint self-descriptions, and their plain
//! text form.
//!
//! A description renders to one subject node for the endpoint, one skolemized
//! node per flat input and one `ik:Action` node per selectable verb. Actions
//! synthesized from the flat fields reference the flat input nodes; explicit
//! actions carry input nodes of their own. Every name written inside an IRI
//! (the id, input names and classes, scopes) is percent-encoded there.

use vstd::prelude::*;
use vstd::utf8::encode_utf8;

use crate::describe::{
    actions_view, args_view, arg_safe, first_unsafe, iri_positions, lemma_validated_fields_are_safe,
    normalized_actions, ActionSpec, ActionView, ArgSpec, ArgView, Description, DescriptionView,
    InputSource, KindView,
};
use crate::iri::{escape_iri_fragment, escape_seq, iri_safe};
use crate::error::Error;
use crate::repr::{Expiry, ReprType, Representation};
use crate::text::{concat_str, copy_str, str_eq, seq_starts_with, str_starts_with, views_of};
use crate::verb::Verb;

verus! {

/// The ikigai vocabulary namespace.
pub const NS: &'static str = "https://ikigai-rs.dev/ns#";

/// The conventional IRI the vocabulary is bound to.
pub const VOCAB_IRI: &'static str = "urn:ikigai:vocab";

/// The separator between the predicates of one Turtle subject.
pub const PRED_SEP: &'static str = " ;\n    ";

/// One character escaped for a Turtle double-quoted literal.
pub open spec fn escape_char(c: char) -> Seq<char> {
    if c == '\\' {
        seq!['\\', '\\']
    } else if c == '"' {
        seq!['\\', '"']
    } else if c == '\n' {
        seq!['\\', 'n']
    } else if c == '\r' {
        seq!['\\', 'r']
    } else if c == '\t' {
        seq!['\\', 't']
    } else {
        seq![c]
    }
}

/// A string escaped for a Turtle double-quoted literal.
pub open spec fn escaped(s: Seq<char>) -> Seq<char>
    decreases s.len(),
{
    if s.len() == 0 {
        Seq::empty()
    } else {
        escaped(s.drop_last()) + escape_char(s.last())
    }
}

/// A Turtle string literal.
pub open spec fn lit_text(s: Seq<char>) -> Seq<char> {
    seq!['"'] + escaped(s) + seq!['"']
}

/// `parts` joined by `sep`.
pub open spec fn join_with(parts: Seq<Seq<char>>, sep: Seq<char>) -> Seq<char>
    decreases parts.len(),
{
    if parts.len() == 0 {
        Seq::empty()
    } else if parts.len() == 1 {
        parts[0]
    } else {
        join_with(parts.drop_last(), sep) + sep + parts.last()
    }
}

/// The vocabulary's name of a verb.
pub open spec fn verb_label(v: Verb) -> Seq<char> {
    match v {
        Verb::Source => "Source"@,
        Verb::Sink => "Sink"@,
        Verb::Exists => "Exists"@,
        Verb::Delete => "Delete"@,
        Verb::Meta => "Meta"@,
    }
}

/// The lower-case name of a verb, as it appears in action IRIs.
pub open spec fn verb_lower(v: Verb) -> Seq<char> {
    match v {
        Verb::Source => "source"@,
        Verb::Sink => "sink"@,
        Verb::Exists => "exists"@,
        Verb::Delete => "delete"@,
        Verb::Meta => "meta"@,
    }
}

/// The vocabulary's name of an input source.
pub open spec fn source_label(s: InputSource) -> Seq<char> {
    match s {
        InputSource::Argument => "argument"@,
        InputSource::Binding => "binding"@,
    }
}

/// A boolean as a Turtle literal.
pub open spec fn bool_text(b: bool) -> Seq<char> {
    if b {
        "true"@
    } else {
        "false"@
    }
}

/// Whether a capability scope looks like an IRI.
pub open spec fn scope_is_iri(s: Seq<char>) -> bool {
    seq_starts_with(s, "urn:"@) || seq_starts_with(s, "http://"@) || seq_starts_with(
        s,
        "https://"@,
    )
}

/// A capability scope as a Turtle term: a resource when it looks like an
/// IRI, else a literal.
pub open spec fn cap_text(s: Seq<char>) -> Seq<char> {
    if scope_is_iri(s) {
        "<"@ + escape_seq(s) + ">"@
    } else {
        lit_text(s)
    }
}

/// One `ik:oneOf` predicate per accepted value.
pub open spec fn one_of_text(vals: Seq<Seq<char>>) -> Seq<char>
    decreases vals.len(),
{
    if vals.len() == 0 {
        Seq::empty()
    } else {
        one_of_text(vals.drop_last()) + PRED_SEP@ + "ik:oneOf "@ + lit_text(vals.last())
    }
}

/// The predicates of one input node.
pub open spec fn input_predicates_text(a: ArgView) -> Seq<char> {
    "ik:inputName "@ + lit_text(a.name) + PRED_SEP@ + "ik:source "@ + lit_text(
        source_label(a.source),
    ) + PRED_SEP@ + "ik:required "@ + bool_text(a.required) + (if a.summary.len() > 0 {
        PRED_SEP@ + "ik:summary "@ + lit_text(a.summary)
    } else {
        Seq::empty()
    }) + (match a.class {
        Some(c) => PRED_SEP@ + "ik:class <"@ + escape_seq(c) + ">"@,
        None => Seq::empty(),
    }) + (match a.default {
        Some(x) => PRED_SEP@ + "ik:default "@ + lit_text(x),
        None => Seq::empty(),
    }) + one_of_text(a.one_of)
}

/// The endpoint's IRI.
pub open spec fn endpoint_iri(d: DescriptionView) -> Seq<char> {
    "urn:ikigai:endpoint:"@ + escape_seq(d.id)
}

/// The IRI of an input node under `prefix`.
pub open spec fn input_iri(prefix: Seq<char>, name: Seq<char>) -> Seq<char> {
    prefix + ":input:"@ + escape_seq(name)
}

/// The `ik:input` predicate referencing an input node under `prefix`.
pub open spec fn input_ref(prefix: Seq<char>, a: ArgView) -> Seq<char> {
    "ik:input <"@ + input_iri(prefix, a.name) + ">"@
}

/// An input node under `prefix`.
pub open spec fn input_node(prefix: Seq<char>, a: ArgView) -> Seq<char> {
    "<"@ + input_iri(prefix, a.name) + "> "@ + input_predicates_text(a) + " ."@
}

/// The IRI of the action node for `v`.
pub open spec fn action_iri(ep: Seq<char>, v: Verb) -> Seq<char> {
    ep + ":action:"@ + verb_lower(v)
}

/// The `ik:action` predicate referencing an action node.
pub open spec fn action_ref(ep: Seq<char>, a: ActionView) -> Seq<char> {
    "ik:action <"@ + action_iri(ep, a.verb) + ">"@
}

/// Whether an explicit action is declared for `v`.
pub open spec fn declares(actions: Seq<ActionView>, v: Verb) -> bool {
    exists|k: int| 0 <= k < actions.len() && (#[trigger] actions[k]).verb == v
}

/// The prefix under which an action's input nodes live: its own IRI for an
/// explicit action, the endpoint's for one synthesized from the flat fields.
pub open spec fn inputs_prefix(ep: Seq<char>, declared: bool, a: ActionView) -> Seq<char> {
    if declared {
        action_iri(ep, a.verb)
    } else {
        ep
    }
}

/// The predicates of an action node.
pub open spec fn action_preds(ep: Seq<char>, declared: bool, a: ActionView) -> Seq<Seq<char>> {
    seq!["a ik:Action"@, "ik:verb "@ + lit_text(verb_label(a.verb))] + (if a.summary.len() > 0 {
        seq!["ik:summary "@ + lit_text(a.summary)]
    } else {
        Seq::empty()
    }) + a.outputs.map_values(|o: Seq<char>| "ik:output "@ + lit_text(o)) + a.requires.map_values(
        |c: Seq<char>| "ik:requires "@ + cap_text(c),
    ) + a.inputs.map_values(|i: ArgView| input_ref(inputs_prefix(ep, declared, a), i))
}

/// The action node itself.
pub open spec fn action_node(ep: Seq<char>, declared: bool, a: ActionView) -> Seq<char> {
    "<"@ + action_iri(ep, a.verb) + "> "@ + join_with(action_preds(ep, declared, a), PRED_SEP@)
        + " ."@
}

/// The nodes one action contributes: an explicit action's own input nodes,
/// then the action node.
pub open spec fn action_extra(ep: Seq<char>, declared: bool, a: ActionView) -> Seq<Seq<char>> {
    (if declared {
        a.inputs.map_values(|i: ArgView| input_node(action_iri(ep, a.verb), i))
    } else {
        Seq::empty()
    }).push(action_node(ep, declared, a))
}

/// The nodes all of `acts` contribute, in order.
pub open spec fn action_extras(d: DescriptionView, acts: Seq<ActionView>) -> Seq<Seq<char>>
    decreases acts.len(),
{
    if acts.len() == 0 {
        Seq::empty()
    } else {
        action_extras(d, acts.drop_last()) + action_extra(
            endpoint_iri(d),
            declares(d.actions, acts.last().verb),
            acts.last(),
        )
    }
}

/// A single predicate when `c` holds.
pub open spec fn when(c: bool, x: Seq<char>) -> Seq<Seq<char>> {
    if c {
        seq![x]
    } else {
        Seq::empty()
    }
}

/// Each string as a literal.
pub open spec fn lits(ss: Seq<Seq<char>>) -> Seq<Seq<char>> {
    ss.map_values(|s: Seq<char>| lit_text(s))
}

/// The endpoint's class statement.
pub open spec fn rdf_type(d: DescriptionView) -> Seq<char> {
    if d.kind is Transreptor {
        "a ik:Endpoint, ik:Transreptor"@
    } else {
        "a ik:Endpoint"@
    }
}

/// The endpoint's own predicates, before its input and action references.
pub open spec fn head_preds(d: DescriptionView) -> Seq<Seq<char>> {
    seq![rdf_type(d), "ik:id "@ + lit_text(d.id)] + when(
        d.title.len() > 0,
        "ik:title "@ + lit_text(d.title),
    ) + when(d.summary.len() > 0, "ik:summary "@ + lit_text(d.summary)) + when(
        d.verbs.len() > 0,
        "ik:verb "@ + join_with(d.verbs.map_values(|v: Verb| lit_text(verb_label(v))), ", "@),
    ) + when(d.outputs.len() > 0, "ik:output "@ + join_with(lits(d.outputs), ", "@)) + when(
        d.requires.len() > 0,
        "ik:requires "@ + join_with(d.requires.map_values(|c: Seq<char>| cap_text(c)), ", "@),
    ) + match d.kind {
        KindView::Transreptor(f, t) => when(
            f.len() > 0,
            "ik:transreptsFrom "@ + join_with(lits(f), ", "@),
        ) + when(t.len() > 0, "ik:transreptsTo "@ + join_with(lits(t), ", "@)),
        KindView::Endpoint => Seq::empty(),
    }
}

/// All predicates of the endpoint's subject node.
pub open spec fn turtle_predicates(d: DescriptionView) -> Seq<Seq<char>> {
    head_preds(d) + d.inputs.map_values(|a: ArgView| input_ref(endpoint_iri(d), a))
        + normalized_actions(d).map_values(|a: ActionView| action_ref(endpoint_iri(d), a))
}

/// The nodes after the subject: flat inputs, then each action's nodes.
pub open spec fn turtle_nodes(d: DescriptionView) -> Seq<Seq<char>> {
    d.inputs.map_values(|a: ArgView| input_node(endpoint_iri(d), a)) + action_extras(
        d,
        normalized_actions(d),
    )
}

/// Nodes laid out one per paragraph.
pub open spec fn nodes_text(ns: Seq<Seq<char>>) -> Seq<char>
    decreases ns.len(),
{
    if ns.len() == 0 {
        Seq::empty()
    } else {
        nodes_text(ns.drop_last()) + "\n"@ + ns.last() + "\n"@
    }
}

/// The Turtle document describing `d`.
pub open spec fn turtle(d: DescriptionView) -> Seq<char> {
    "@prefix ik: <"@ + NS@ + "> .\n\n"@ + "<"@ + endpoint_iri(d) + "> "@ + join_with(
        turtle_predicates(d),
        PRED_SEP@,
    ) + " .\n"@ + nodes_text(turtle_nodes(d))
}

/// Whether what an input writes between angle brackets is safe: its node's
/// IRI under `prefix`, and its class.
pub open spec fn input_iris_safe(prefix: Seq<char>, a: ArgView) -> bool {
    &&& iri_safe(input_iri(prefix, a.name))
    &&& (a.class matches Some(c) ==> iri_safe(escape_seq(c)))
}

/// Whether the IRIs an action contributes are safe: its own node's, each of
/// its input nodes' and classes, and each scope written as a resource.
pub open spec fn action_iris_safe(ep: Seq<char>, declared: bool, a: ActionView) -> bool {
    &&& iri_safe(action_iri(ep, a.verb))
    &&& forall|i: int|
        0 <= i < a.inputs.len() ==> input_iris_safe(
            inputs_prefix(ep, declared, a),
            #[trigger] a.inputs[i],
        )
    &&& forall|j: int| 0 <= j < a.requires.len() ==> iri_safe(escape_seq(#[trigger] a.requires[j]))
}

proof fn lemma_concat_safe(a: Seq<char>, b: Seq<char>)
    requires
        iri_safe(a),
        iri_safe(b),
    ensures
        iri_safe(a + b),
{
    assert forall|i: int| 0 <= i < (a + b).len() implies !crate::iri::iri_forbidden(
        #[trigger] (a + b)[i],
    ) by {
        if i < a.len() {
            assert((a + b)[i] == a[i]);
        } else {
            assert((a + b)[i] == b[i - a.len()]);
        }
    }
}

proof fn lemma_fixed_parts_safe()
    ensures
        iri_safe("urn:ikigai:endpoint:"@),
        iri_safe(":input:"@),
        iri_safe(":action:"@),
        forall|v: Verb| iri_safe(#[trigger] verb_lower(v)),
{
    reveal_strlit("urn:ikigai:endpoint:");
    reveal_strlit(":input:");
    reveal_strlit(":action:");
    reveal_strlit("source");
    reveal_strlit("sink");
    reveal_strlit("exists");
    reveal_strlit("delete");
    reveal_strlit("meta");
}

proof fn lemma_input_iris_safe(prefix: Seq<char>, a: ArgView)
    requires
        iri_safe(prefix),
    ensures
        input_iris_safe(prefix, a),
{
    lemma_fixed_parts_safe();
    crate::iri::lemma_escape_output_is_safe(a.name);
    lemma_concat_safe(prefix, ":input:"@);
    lemma_concat_safe(prefix + ":input:"@, escape_seq(a.name));
    if let Some(c) = a.class {
        crate::iri::lemma_escape_output_is_safe(c);
    }
}

/// Whatever the description holds, its Turtle projection writes only
/// IRI-safe text between angle brackets: the endpoint node, each flat input
/// node and class, each scope written as a resource, and every action node
/// with its own input nodes, classes and scopes. Every name is
/// percent-encoded where it stands in an IRI, so no name can close an IRI
/// early and inject triples.
pub proof fn lemma_turtle_iris_are_safe(d: DescriptionView)
    ensures
        iri_safe(endpoint_iri(d)),
        forall|i: int| 0 <= i < d.inputs.len() ==> input_iris_safe(endpoint_iri(d), #[trigger] d.inputs[i]),
        forall|j: int| 0 <= j < d.requires.len() ==> iri_safe(escape_seq(#[trigger] d.requires[j])),
        forall|k: int|
            0 <= k < normalized_actions(d).len() ==> action_iris_safe(
                endpoint_iri(d),
                declares(d.actions, normalized_actions(d)[k].verb),
                #[trigger] normalized_actions(d)[k],
            ),
{
    lemma_fixed_parts_safe();
    crate::iri::lemma_escape_output_is_safe(d.id);
    lemma_concat_safe("urn:ikigai:endpoint:"@, escape_seq(d.id));
    let ep = endpoint_iri(d);
    assert forall|i: int| 0 <= i < d.inputs.len() implies input_iris_safe(ep, #[trigger] d.inputs[i]) by {
        lemma_input_iris_safe(ep, d.inputs[i]);
    }
    assert forall|j: int| 0 <= j < d.requires.len() implies iri_safe(escape_seq(#[trigger] d.requires[j])) by {
        crate::iri::lemma_escape_output_is_safe(d.requires[j]);
    }
    let na = normalized_actions(d);
    assert forall|k: int| 0 <= k < na.len() implies action_iris_safe(
        ep,
        declares(d.actions, na[k].verb),
        #[trigger] na[k],
    ) by {
        let a = na[k];
        let declared = declares(d.actions, a.verb);
        assert(iri_safe(verb_lower(a.verb)));
        lemma_concat_safe(ep, ":action:"@);
        lemma_concat_safe(ep + ":action:"@, verb_lower(a.verb));
        let prefix = inputs_prefix(ep, declared, a);
        assert(iri_safe(prefix));
        assert forall|i: int| 0 <= i < a.inputs.len() implies input_iris_safe(prefix, #[trigger] a.inputs[i]) by {
            lemma_input_iris_safe(prefix, a.inputs[i]);
        }
        assert forall|j: int| 0 <= j < a.requires.len() implies iri_safe(escape_seq(#[trigger] a.requires[j])) by {
            crate::iri::lemma_escape_output_is_safe(a.requires[j]);
        }
    }
}

/// A description that validates is written as it is: encoding changes none
/// of the names its Turtle puts in an IRI position.
pub proof fn lemma_validated_names_are_written_unchanged(d: DescriptionView)
    requires
        first_unsafe(iri_positions(d), 0) is None,
    ensures
        endpoint_iri(d) == "urn:ikigai:endpoint:"@ + d.id,
        forall|i: int|
            0 <= i < d.inputs.len() ==> escape_seq((#[trigger] d.inputs[i]).name) == d.inputs[i].name
                && (d.inputs[i].class matches Some(c) ==> escape_seq(c) == c),
        forall|j: int| 0 <= j < d.requires.len() ==> escape_seq(#[trigger] d.requires[j]) == d.requires[j],
        forall|k: int, i: int|
            0 <= k < d.actions.len() && 0 <= i < d.actions[k].inputs.len() ==> escape_seq(
                (#[trigger] d.actions[k].inputs[i]).name,
            ) == d.actions[k].inputs[i].name,
        forall|k: int, j: int|
            0 <= k < d.actions.len() && 0 <= j < d.actions[k].requires.len() ==> escape_seq(
                #[trigger] d.actions[k].requires[j],
            ) == d.actions[k].requires[j],
{
    lemma_validated_fields_are_safe(d);
    crate::iri::lemma_escape_seq_of_safe(d.id);
    assert forall|i: int| 0 <= i < d.inputs.len() implies escape_seq((#[trigger] d.inputs[i]).name)
        == d.inputs[i].name && (d.inputs[i].class matches Some(c) ==> escape_seq(c) == c) by {
        assert(arg_safe(d.inputs[i]));
        crate::iri::lemma_escape_seq_of_safe(d.inputs[i].name);
        if let Some(c) = d.inputs[i].class {
            crate::iri::lemma_escape_seq_of_safe(c);
        }
    }
    assert forall|j: int| 0 <= j < d.requires.len() implies escape_seq(#[trigger] d.requires[j])
        == d.requires[j] by {
        crate::iri::lemma_escape_seq_of_safe(d.requires[j]);
    }
    assert forall|k: int, i: int| 0 <= k < d.actions.len() && 0 <= i < d.actions[k].inputs.len()
        implies escape_seq((#[trigger] d.actions[k].inputs[i]).name) == d.actions[k].inputs[i].name by {
        assert(crate::describe::action_safe(d.actions[k]));
        assert(arg_safe(d.actions[k].inputs[i]));
        crate::iri::lemma_escape_seq_of_safe(d.actions[k].inputs[i].name);
    }
    assert forall|k: int, j: int| 0 <= k < d.actions.len() && 0 <= j < d.actions[k].requires.len()
        implies escape_seq(#[trigger] d.actions[k].requires[j]) == d.actions[k].requires[j] by {
        assert(crate::describe::action_safe(d.actions[k]));
        crate::iri::lemma_escape_seq_of_safe(d.actions[k].requires[j]);
    }
}

/// What an input node writes before its required flag: its name and its
/// source, each as a predicate, then the `ik:required` predicate's name.
pub open spec fn required_lead(a: ArgView) -> Seq<char> {
    "ik:inputName "@ + lit_text(a.name) + PRED_SEP@ + "ik:source "@ + lit_text(source_label(a.source))
        + PRED_SEP@ + "ik:required "@
}

/// Whether `t` is empty or begins with the predicate separator.
pub open spec fn empty_or_sep(t: Seq<char>) -> bool {
    t.len() == 0 || (t.len() >= PRED_SEP@.len() && t.take(PRED_SEP@.len() as int) == PRED_SEP@)
}

proof fn lemma_sep_then(x: Seq<char>)
    ensures
        empty_or_sep(PRED_SEP@ + x),
{
    assert((PRED_SEP@ + x).take(PRED_SEP@.len() as int) =~= PRED_SEP@);
}

proof fn lemma_empty_or_sep_concat(x: Seq<char>, y: Seq<char>)
    requires
        empty_or_sep(x),
        empty_or_sep(y),
    ensures
        empty_or_sep(x + y),
{
    if x.len() == 0 {
        assert(x + y =~= y);
    } else {
        assert((x + y).take(PRED_SEP@.len() as int) =~= x.take(PRED_SEP@.len() as int));
    }
}

proof fn lemma_one_of_text_sep(vals: Seq<Seq<char>>)
    ensures
        empty_or_sep(one_of_text(vals)),
    decreases vals.len(),
{
    if vals.len() > 0 {
        lemma_one_of_text_sep(vals.drop_last());
        let x = one_of_text(vals.drop_last());
        let y = PRED_SEP@ + "ik:oneOf "@ + lit_text(vals.last());
        assert(y =~= PRED_SEP@ + ("ik:oneOf "@ + lit_text(vals.last())));
        lemma_sep_then("ik:oneOf "@ + lit_text(vals.last()));
        lemma_empty_or_sep_concat(x, y);
        assert(one_of_text(vals) =~= x + y);
    }
}

/// What an input node writes after its required flag.
pub open spec fn required_rest(a: ArgView) -> Seq<char> {
    (if a.summary.len() > 0 {
        PRED_SEP@ + "ik:summary "@ + lit_text(a.summary)
    } else {
        Seq::empty()
    }) + (match a.class {
        Some(c) => PRED_SEP@ + "ik:class <"@ + escape_seq(c) + ">"@,
        None => Seq::empty(),
    }) + (match a.default {
        Some(x) => PRED_SEP@ + "ik:default "@ + lit_text(x),
        None => Seq::empty(),
    }) + one_of_text(a.one_of)
}

proof fn lemma_required_rest_sep(a: ArgView)
    ensures
        empty_or_sep(required_rest(a)),
{
    let summary: Seq<char> = if a.summary.len() > 0 {
        PRED_SEP@ + "ik:summary "@ + lit_text(a.summary)
    } else {
        Seq::empty()
    };
    let class: Seq<char> = match a.class {
        Some(c) => PRED_SEP@ + "ik:class <"@ + escape_seq(c) + ">"@,
        None => Seq::empty(),
    };
    let default: Seq<char> = match a.default {
        Some(x) => PRED_SEP@ + "ik:default "@ + lit_text(x),
        None => Seq::empty(),
    };
    let ones = one_of_text(a.one_of);
    if a.summary.len() > 0 {
        assert(summary =~= PRED_SEP@ + ("ik:summary "@ + lit_text(a.summary)));
        lemma_sep_then("ik:summary "@ + lit_text(a.summary));
    }
    if let Some(c) = a.class {
        assert(class =~= PRED_SEP@ + ("ik:class <"@ + escape_seq(c) + ">"@));
        lemma_sep_then("ik:class <"@ + escape_seq(c) + ">"@);
    }
    if let Some(x) = a.default {
        assert(default =~= PRED_SEP@ + ("ik:default "@ + lit_text(x)));
        lemma_sep_then("ik:default "@ + lit_text(x));
    }
    lemma_one_of_text_sep(a.one_of);
    lemma_empty_or_sep_concat(default, ones);
    lemma_empty_or_sep_concat(class, default + ones);
    lemma_empty_or_sep_concat(summary, class + (default + ones));
    assert(required_rest(a) =~= summary + (class + (default + ones)));
}

/// An input node says whether the input is required: right after its name,
/// its source and `ik:required `, it writes the word `true` for a required
/// input and `false` for an optional one, and that word ends the node or is
/// followed by the next predicate.
#[verifier::spinoff_prover]
pub proof fn lemma_required_flag_is_written(a: ArgView)
    ensures
        input_predicates_text(a).len() >= required_lead(a).len(),
        input_predicates_text(a).take(required_lead(a).len() as int) == required_lead(a),
        a.required ==> input_predicates_text(a).skip(required_lead(a).len() as int).take(4) == "true"@,
        !a.required ==> input_predicates_text(a).skip(required_lead(a).len() as int).take(5) == "false"@,
        empty_or_sep(
            input_predicates_text(a).skip(required_lead(a).len() + (if a.required {
                4int
            } else {
                5int
            })),
        ),
{
    reveal_strlit("true");
    reveal_strlit("false");
    let lead = required_lead(a);
    let word: Seq<char> = if a.required {
        "true"@
    } else {
        "false"@
    };
    let rest = required_rest(a);
    let t = input_predicates_text(a);
    assert(bool_text(a.required) == word);
    lemma_input_predicates_split(a);
    lemma_split_at_word(lead, word, rest);
    lemma_required_rest_sep(a);
}

proof fn lemma_input_predicates_split(a: ArgView)
    ensures
        input_predicates_text(a) == required_lead(a) + bool_text(a.required) + required_rest(a),
{
    assert(input_predicates_text(a) =~= required_lead(a) + bool_text(a.required) + required_rest(a));
}

proof fn lemma_split_at_word(lead: Seq<char>, word: Seq<char>, rest: Seq<char>)
    ensures
        (lead + word + rest).take(lead.len() as int) == lead,
        (lead + word + rest).skip(lead.len() as int).take(word.len() as int) == word,
        (lead + word + rest).skip((lead.len() + word.len()) as int) == rest,
{
    let t = lead + word + rest;
    assert(t.take(lead.len() as int) =~= lead);
    assert(t.skip(lead.len() as int) =~= word + rest);
    assert((word + rest).take(word.len() as int) =~= word);
    assert(t.skip((lead.len() + word.len()) as int) =~= rest);
}

/// Escape a string for use inside a Turtle double-quoted literal.
pub fn escape_literal(s: &str) -> (r: String)
    ensures
        r@ == escaped(s@),
{
    let n = s.unicode_len();
    let mut out = String::new();
    let mut i: usize = 0;
    while i < n
        invariant
            n == s@.len(),
            i <= n,
            out@ == escaped(s@.take(i as int)),
        decreases n - i,
    {
        let c = s.get_char(i);
        proof {
            assert(s@.take(i + 1).drop_last() =~= s@.take(i as int));
        }
        if c == '\\' {
            out.append("\\\\");
        } else if c == '"' {
            out.append("\\\"");
        } else if c == '\n' {
            out.append("\\n");
        } else if c == '\r' {
            out.append("\\r");
        } else if c == '\t' {
            out.append("\\t");
        } else {
            out.push(c);
        }
        proof {
            reveal_strlit("\\\\");
            reveal_strlit("\\\"");
            reveal_strlit("\\n");
            reveal_strlit("\\r");
            reveal_strlit("\\t");
            assert(out@ =~= escaped(s@.take(i + 1)));
        }
        i = i + 1;
    }
    proof {
        assert(s@.take(n as int) =~= s@);
    }
    out
}

/// A Turtle string literal holding `s`.
pub fn lit(s: &str) -> (r: String)
    ensures
        r@ == lit_text(s@),
{
    let mut out = String::new();
    out.push('"');
    out.append(escape_literal(s).as_str());
    out.push('"');
    proof {
        assert(out@ =~= lit_text(s@));
    }
    out
}

/// `parts` joined by `sep`.
pub fn join_strs(parts: &[String], sep: &str) -> (r: String)
    ensures
        r@ == join_with(views_of(parts@), sep@),
{
    let mut out = String::new();
    let mut i: usize = 0;
    while i < parts.len()
        invariant
            i <= parts@.len(),
            out@ == join_with(views_of(parts@).take(i as int), sep@),
        decreases parts@.len() - i,
    {
        proof {
            assert(views_of(parts@).take(i + 1).drop_last() =~= views_of(parts@).take(i as int));
        }
        if i > 0 {
            out.append(sep);
        }
        out.append(parts[i].as_str());
        proof {
            if i == 0 {
                assert(out@ =~= join_with(views_of(parts@).take(1), sep@));
            }
        }
        i = i + 1;
    }
    proof {
        assert(views_of(parts@).take(parts@.len() as int) =~= views_of(parts@));
    }
    out
}

/// The vocabulary's name of a verb.
pub fn verb_name(v: Verb) -> (r: &'static str)
    ensures
        r@ == verb_label(v),
{
    match v {
        Verb::Source => "Source",
        Verb::Sink => "Sink",
        Verb::Exists => "Exists",
        Verb::Delete => "Delete",
        Verb::Meta => "Meta",
    }
}

/// The lower-case name of a verb.
fn verb_lower_name(v: Verb) -> (r: &'static str)
    ensures
        r@ == verb_lower(v),
{
    match v {
        Verb::Source => "source",
        Verb::Sink => "sink",
        Verb::Exists => "exists",
        Verb::Delete => "delete",
        Verb::Meta => "meta",
    }
}

/// The vocabulary's name of an input source.
pub fn source_name(s: InputSource) -> (r: &'static str)
    ensures
        r@ == source_label(s),
{
    match s {
        InputSource::Argument => "argument",
        InputSource::Binding => "binding",
    }
}

/// `s` percent-encoded for an IRI position, as an owned string.
fn iri_fragment(s: &str) -> (r: String)
    ensures
        r@ == escape_seq(s@),
{
    match escape_iri_fragment(s) {
        std::borrow::Cow::Borrowed(b) => copy_str(b),
        std::borrow::Cow::Owned(o) => o,
    }
}

/// A capability scope as a Turtle term.
pub fn cap_term(scope: &str) -> (r: String)
    ensures
        r@ == cap_text(scope@),
{
    if str_starts_with(scope, "urn:") || str_starts_with(scope, "http://") || str_starts_with(
        scope,
        "https://",
    ) {
        let mut out = String::new();
        out.push('<');
        out.append(iri_fragment(scope).as_str());
        out.push('>');
        proof {
            reveal_strlit("<");
            reveal_strlit(">");
            assert(out@ =~= cap_text(scope@));
        }
        out
    } else {
        lit(scope)
    }
}


/// The predicates of one input node.
#[verifier::rlimit(30)]
pub fn input_predicates(input: &ArgSpec) -> (r: String)
    ensures
        r@ == input_predicates_text(input@),
{
    let a = input;
    let mut node = String::new();
    node.append("ik:inputName ");
    node.append(lit(a.name.as_str()).as_str());
    node.append(PRED_SEP);
    node.append("ik:source ");
    node.append(lit(source_name(a.source)).as_str());
    node.append(PRED_SEP);
    node.append("ik:required ");
    if a.required {
        node.append("true");
    } else {
        node.append("false");
    }
    let ghost base = node@;
    if a.summary.unicode_len() > 0 {
        node.append(PRED_SEP);
        node.append("ik:summary ");
        node.append(lit(a.summary.as_str()).as_str());
    }
    let ghost with_summary = node@;
    match &a.class {
        Some(c) => {
            node.append(PRED_SEP);
            node.append("ik:class <");
            node.append(iri_fragment(c.as_str()).as_str());
            node.append(">");
        },
        None => {},
    }
    let ghost with_class = node@;
    match &a.default {
        Some(x) => {
            node.append(PRED_SEP);
            node.append("ik:default ");
            node.append(lit(x.as_str()).as_str());
        },
        None => {},
    }
    let ghost head = node@;
    let ghost vals = views_of(a.one_of@);
    let mut i: usize = 0;
    while i < a.one_of.len()
        invariant
            i <= a.one_of@.len(),
            vals == views_of(a.one_of@),
            node@ == head + one_of_text(vals.take(i as int)),
        decreases a.one_of@.len() - i,
    {
        proof {
            assert(vals.take(i + 1).drop_last() =~= vals.take(i as int));
        }
        node.append(PRED_SEP);
        node.append("ik:oneOf ");
        node.append(lit(a.one_of[i].as_str()).as_str());
        proof {
            assert(node@ =~= head + one_of_text(vals.take(i + 1)));
        }
        i = i + 1;
    }
    proof {
        assert(vals.take(vals.len() as int) =~= vals);
        assert(with_summary =~= base + (if a@.summary.len() > 0 {
            PRED_SEP@ + "ik:summary "@ + lit_text(a@.summary)
        } else {
            Seq::empty()
        }));
        assert(with_class =~= with_summary + (match a@.class {
            Some(c) => PRED_SEP@ + "ik:class <"@ + escape_seq(c) + ">"@,
            None => Seq::empty(),
        }));
        assert(head =~= with_class + (match a@.default {
            Some(x) => PRED_SEP@ + "ik:default "@ + lit_text(x),
            None => Seq::empty(),
        }));
        assert(node@ =~= input_predicates_text(a@));
    }
    node
}

/// Each string as a Turtle literal.
fn lits_of(ss: &[String]) -> (r: Vec<String>)
    ensures
        views_of(r@) == lits(views_of(ss@)),
{
    let mut out: Vec<String> = Vec::new();
    let mut i: usize = 0;
    while i < ss.len()
        invariant
            i <= ss@.len(),
            out@.len() == i,
            forall|k: int| 0 <= k < i ==> (#[trigger] out@[k])@ == lit_text(ss@[k]@),
        decreases ss@.len() - i,
    {
        out.push(lit(ss[i].as_str()));
        i = i + 1;
    }
    proof {
        assert(views_of(out@) =~= lits(views_of(ss@)));
    }
    out
}

/// Each capability scope as a Turtle term.
fn caps_of(ss: &[String]) -> (r: Vec<String>)
    ensures
        views_of(r@) == views_of(ss@).map_values(|c: Seq<char>| cap_text(c)),
{
    let mut out: Vec<String> = Vec::new();
    let mut i: usize = 0;
    while i < ss.len()
        invariant
            i <= ss@.len(),
            out@.len() == i,
            forall|k: int| 0 <= k < i ==> (#[trigger] out@[k])@ == cap_text(ss@[k]@),
        decreases ss@.len() - i,
    {
        out.push(cap_term(ss[i].as_str()));
        i = i + 1;
    }
    proof {
        assert(views_of(out@) =~= views_of(ss@).map_values(|c: Seq<char>| cap_text(c)));
    }
    out
}

/// Each verb's name as a Turtle literal.
fn verb_lits(vs: &[Verb]) -> (r: Vec<String>)
    ensures
        views_of(r@) == vs@.map_values(|v: Verb| lit_text(verb_label(v))),
{
    let mut out: Vec<String> = Vec::new();
    let mut i: usize = 0;
    while i < vs.len()
        invariant
            i <= vs@.len(),
            out@.len() == i,
            forall|k: int| 0 <= k < i ==> (#[trigger] out@[k])@ == lit_text(verb_label(vs@[k])),
        decreases vs@.len() - i,
    {
        out.push(lit(verb_name(vs[i])));
        i = i + 1;
    }
    proof {
        assert(views_of(out@) =~= vs@.map_values(|v: Verb| lit_text(verb_label(v))));
    }
    out
}

/// `label` followed by the joined terms.
fn labelled(label: &str, terms: &Vec<String>) -> (r: String)
    ensures
        r@ == label@ + join_with(views_of(terms@), ", "@),
{
    concat_str(label, join_strs(terms.as_slice(), ", ").as_str())
}

/// Push `x` when `cond` holds.
fn push_if(p: &mut Vec<String>, cond: bool, x: String)
    ensures
        views_of(final(p)@) == views_of(old(p)@) + when(cond, x@),
{
    let ghost before = views_of(p@);
    if cond {
        p.push(x);
    }
    proof {
        assert(views_of(p@) =~= before + when(cond, x@));
    }
}

/// The transreption predicates of a description.
fn transreption_predicates(d: &Description) -> (r: Vec<String>)
    ensures
        views_of(r@) == match d@.kind {
            KindView::Transreptor(f, t) => when(
                f.len() > 0,
                "ik:transreptsFrom "@ + join_with(lits(f), ", "@),
            ) + when(t.len() > 0, "ik:transreptsTo "@ + join_with(lits(t), ", "@)),
            KindView::Endpoint => Seq::empty(),
        },
{
    let mut p: Vec<String> = Vec::new();
    match d.transreption() {
        Some(tr) => {
            push_if(&mut p, tr.from.len() > 0, labelled("ik:transreptsFrom ", &lits_of(tr.from.as_slice())));
            push_if(&mut p, tr.to.len() > 0, labelled("ik:transreptsTo ", &lits_of(tr.to.as_slice())));
            proof {
                assert(views_of(Seq::<String>::empty()) =~= Seq::<Seq<char>>::empty());
            }
        },
        None => {
            proof {
                assert(views_of(p@) =~= Seq::<Seq<char>>::empty());
            }
        },
    }
    p
}

/// The endpoint's own predicates, before its input and action references.
#[verifier::rlimit(40)]
fn head_predicates(d: &Description) -> (r: Vec<String>)
    ensures
        views_of(r@) == head_preds(d@),
{
    let ghost dv = d@;
    let mut p: Vec<String> = Vec::new();
    match d.transreption() {
        Some(_) => p.push(copy_str("a ik:Endpoint, ik:Transreptor")),
        None => p.push(copy_str("a ik:Endpoint")),
    }
    p.push(concat_str("ik:id ", lit(d.id.as_str()).as_str()));
    proof {
        assert(views_of(p@) =~= seq![rdf_type(dv), "ik:id "@ + lit_text(dv.id)]);
    }
    push_if(&mut p, d.title.unicode_len() > 0, concat_str("ik:title ", lit(d.title.as_str()).as_str()));
    push_if(
        &mut p,
        d.summary.unicode_len() > 0,
        concat_str("ik:summary ", lit(d.summary.as_str()).as_str()),
    );
    push_if(&mut p, d.verbs.len() > 0, labelled("ik:verb ", &verb_lits(d.verbs.as_slice())));
    push_if(&mut p, d.outputs.len() > 0, labelled("ik:output ", &lits_of(d.outputs.as_slice())));
    push_if(&mut p, d.requires.len() > 0, labelled("ik:requires ", &caps_of(d.requires.as_slice())));
    let tp = transreption_predicates(d);
    crate::text::extend_strings(&mut p, tp.as_slice());
    proof {
        assert(views_of(p@) =~= head_preds(dv));
    }
    p
}

/// The `ik:input` predicate referencing the node of `a` under `prefix`.
fn input_ref_str(prefix: &str, a: &ArgSpec) -> (r: String)
    ensures
        r@ == input_ref(prefix@, a@),
{
    let mut out = String::new();
    out.append("ik:input <");
    out.append(prefix);
    out.append(":input:");
    out.append(iri_fragment(a.name.as_str()).as_str());
    out.append(">");
    proof {
        assert(out@ =~= input_ref(prefix@, a@));
    }
    out
}

/// The node of `a` under `prefix`.
fn input_node_str(prefix: &str, a: &ArgSpec) -> (r: String)
    ensures
        r@ == input_node(prefix@, a@),
{
    let mut out = String::new();
    out.append("<");
    out.append(prefix);
    out.append(":input:");
    out.append(iri_fragment(a.name.as_str()).as_str());
    out.append("> ");
    out.append(input_predicates(a).as_str());
    out.append(" .");
    proof {
        assert(out@ =~= input_node(prefix@, a@));
    }
    out
}

/// The `ik:input` references of `inputs` under `prefix`.
fn input_refs(prefix: &str, inputs: &[ArgSpec]) -> (r: Vec<String>)
    ensures
        views_of(r@) == args_view(inputs@).map_values(|a: ArgView| input_ref(prefix@, a)),
{
    let mut out: Vec<String> = Vec::new();
    let mut i: usize = 0;
    while i < inputs.len()
        invariant
            i <= inputs@.len(),
            out@.len() == i,
            forall|k: int| 0 <= k < i ==> (#[trigger] out@[k])@ == input_ref(prefix@, inputs@[k]@),
        decreases inputs@.len() - i,
    {
        out.push(input_ref_str(prefix, &inputs[i]));
        i = i + 1;
    }
    proof {
        assert(views_of(out@) =~= args_view(inputs@).map_values(|a: ArgView| input_ref(prefix@, a)));
    }
    out
}

/// The nodes of `inputs` under `prefix`.
fn input_nodes(prefix: &str, inputs: &[ArgSpec]) -> (r: Vec<String>)
    ensures
        views_of(r@) == args_view(inputs@).map_values(|a: ArgView| input_node(prefix@, a)),
{
    let mut out: Vec<String> = Vec::new();
    let mut i: usize = 0;
    while i < inputs.len()
        invariant
            i <= inputs@.len(),
            out@.len() == i,
            forall|k: int| 0 <= k < i ==> (#[trigger] out@[k])@ == input_node(prefix@, inputs@[k]@),
        decreases inputs@.len() - i,
    {
        out.push(input_node_str(prefix, &inputs[i]));
        i = i + 1;
    }
    proof {
        assert(views_of(out@) =~= args_view(inputs@).map_values(|a: ArgView| input_node(prefix@, a)));
    }
    out
}

/// One `label` predicate per string in `ss`, each a literal.
fn labelled_lits(label: &str, ss: &[String]) -> (r: Vec<String>)
    ensures
        views_of(r@) == views_of(ss@).map_values(|o: Seq<char>| label@ + lit_text(o)),
{
    let mut out: Vec<String> = Vec::new();
    let mut i: usize = 0;
    while i < ss.len()
        invariant
            i <= ss@.len(),
            out@.len() == i,
            forall|k: int| 0 <= k < i ==> (#[trigger] out@[k])@ == label@ + lit_text(ss@[k]@),
        decreases ss@.len() - i,
    {
        out.push(concat_str(label, lit(ss[i].as_str()).as_str()));
        i = i + 1;
    }
    proof {
        assert(views_of(out@) =~= views_of(ss@).map_values(|o: Seq<char>| label@ + lit_text(o)));
    }
    out
}

/// One `ik:requires` predicate per capability scope.
fn requires_preds(ss: &[String]) -> (r: Vec<String>)
    ensures
        views_of(r@) == views_of(ss@).map_values(|c: Seq<char>| "ik:requires "@ + cap_text(c)),
{
    let mut out: Vec<String> = Vec::new();
    let mut i: usize = 0;
    while i < ss.len()
        invariant
            i <= ss@.len(),
            out@.len() == i,
            forall|k: int|
                0 <= k < i ==> (#[trigger] out@[k])@ == "ik:requires "@ + cap_text(ss@[k]@),
        decreases ss@.len() - i,
    {
        out.push(concat_str("ik:requires ", cap_term(ss[i].as_str()).as_str()));
        i = i + 1;
    }
    proof {
        assert(views_of(out@) =~= views_of(ss@).map_values(
            |c: Seq<char>| "ik:requires "@ + cap_text(c),
        ));
    }
    out
}

/// The IRI of the action node for `v`.
fn action_iri_str(ep: &str, v: Verb) -> (r: String)
    ensures
        r@ == action_iri(ep@, v),
{
    let mut out = String::new();
    out.append(ep);
    out.append(":action:");
    out.append(verb_lower_name(v));
    proof {
        assert(out@ =~= action_iri(ep@, v));
    }
    out
}

/// The predicates of an action node.
#[verifier::rlimit(40)]
fn action_predicates(ep: &str, declared: bool, a: &ActionSpec) -> (r: Vec<String>)
    ensures
        views_of(r@) == action_preds(ep@, declared, a@),
{
    let mut p: Vec<String> = Vec::new();
    p.push(copy_str("a ik:Action"));
    p.push(concat_str("ik:verb ", lit(verb_name(a.verb)).as_str()));
    proof {
        assert(views_of(p@) =~= seq!["a ik:Action"@, "ik:verb "@ + lit_text(verb_label(a.verb))]);
    }
    push_if(&mut p, a.summary.unicode_len() > 0, concat_str("ik:summary ", lit(a.summary.as_str()).as_str()));
    let outs = labelled_lits("ik:output ", a.outputs.as_slice());
    crate::text::extend_strings(&mut p, outs.as_slice());
    let reqs = requires_preds(a.requires.as_slice());
    crate::text::extend_strings(&mut p, reqs.as_slice());
    let prefix = if declared {
        action_iri_str(ep, a.verb)
    } else {
        copy_str(ep)
    };
    let ins = input_refs(prefix.as_str(), a.inputs.as_slice());
    crate::text::extend_strings(&mut p, ins.as_slice());
    proof {
        assert(prefix@ == inputs_prefix(ep@, declared, a@));
        assert(views_of(p@) =~= action_preds(ep@, declared, a@));
    }
    p
}

/// Append the nodes one action contributes.
fn push_action_extra(nodes: &mut Vec<String>, ep: &str, declared: bool, a: &ActionSpec)
    ensures
        views_of(final(nodes)@) == views_of(old(nodes)@) + action_extra(ep@, declared, a@),
{
    let ghost before = views_of(nodes@);
    let iri = action_iri_str(ep, a.verb);
    if declared {
        let ins = input_nodes(iri.as_str(), a.inputs.as_slice());
        crate::text::extend_strings(nodes, ins.as_slice());
    }
    let ghost mid = views_of(nodes@);
    let preds = action_predicates(ep, declared, a);
    let mut node = String::new();
    node.append("<");
    node.append(iri.as_str());
    node.append("> ");
    node.append(join_strs(preds.as_slice(), PRED_SEP).as_str());
    node.append(" .");
    proof {
        assert(node@ =~= action_node(ep@, declared, a@));
    }
    nodes.push(node);
    proof {
        assert(mid =~= before + (if declared {
            a@.inputs.map_values(|i: ArgView| input_node(action_iri(ep@, a@.verb), i))
        } else {
            Seq::empty()
        }));
        assert(views_of(nodes@) =~= mid.push(node@));
        assert(views_of(nodes@) =~= before + action_extra(ep@, declared, a@));
    }
}

/// Whether an explicit action is declared for `v`.
fn declares_verb(actions: &[ActionSpec], v: Verb) -> (r: bool)
    ensures
        r == declares(actions_view(actions@), v),
{
    let mut i: usize = 0;
    while i < actions.len()
        invariant
            i <= actions@.len(),
            forall|k: int| 0 <= k < i ==> (#[trigger] actions@[k]).verb != v,
        decreases actions@.len() - i,
    {
        if actions[i].verb == v {
            proof {
                assert(actions_view(actions@)[i as int].verb == v);
            }
            return true;
        }
        i = i + 1;
    }
    proof {
        if declares(actions_view(actions@), v) {
            let k = choose|k: int| 0 <= k < actions_view(actions@).len() && (#[trigger] actions_view(actions@)[k]).verb == v;
            assert(actions@[k].verb == v);
        }
    }
    false
}

/// Nodes laid out one per paragraph.
fn nodes_layout(nodes: &[String]) -> (r: String)
    ensures
        r@ == nodes_text(views_of(nodes@)),
{
    let mut out = String::new();
    let mut i: usize = 0;
    while i < nodes.len()
        invariant
            i <= nodes@.len(),
            out@ == nodes_text(views_of(nodes@).take(i as int)),
        decreases nodes@.len() - i,
    {
        proof {
            assert(views_of(nodes@).take(i + 1).drop_last() =~= views_of(nodes@).take(i as int));
        }
        out.append("\n");
        out.append(nodes[i].as_str());
        out.append("\n");
        proof {
            assert(out@ =~= nodes_text(views_of(nodes@).take(i + 1)));
        }
        i = i + 1;
    }
    proof {
        assert(views_of(nodes@).take(nodes@.len() as int) =~= views_of(nodes@));
    }
    out
}

/// Render a description as a Turtle document using the ikigai vocabulary.
pub fn to_turtle(description: &Description) -> (r: String)
    ensures
        r@ == turtle(description@),
{
    let d = description;
    let ghost dv = d@;
    let ep = concat_str("urn:ikigai:endpoint:", iri_fragment(d.id.as_str()).as_str());
    let mut predicates = head_predicates(d);
    let refs = input_refs(ep.as_str(), d.inputs.as_slice());
    crate::text::extend_strings(&mut predicates, refs.as_slice());
    let mut nodes = input_nodes(ep.as_str(), d.inputs.as_slice());
    let ghost preds0 = views_of(predicates@);
    let ghost nodes0 = views_of(nodes@);
    let acts = d.action_specs();
    let ghost norm = normalized_actions(dv);
    let mut j: usize = 0;
    while j < acts.len()
        invariant
            j <= acts@.len(),
            dv == d@,
            ep@ == endpoint_iri(dv),
            actions_view(acts@) == norm,
            norm == normalized_actions(dv),
            views_of(predicates@) == preds0 + norm.map_values(
                |a: ActionView| action_ref(endpoint_iri(dv), a),
            ).take(j as int),
            views_of(nodes@) == nodes0 + action_extras(dv, norm.take(j as int)),
        decreases acts@.len() - j,
    {
        let a = &acts[j];
        let ghost before_p = views_of(predicates@);
        let ghost before_n = views_of(nodes@);
        let mut r = String::new();
        r.append("ik:action <");
        r.append(action_iri_str(ep.as_str(), a.verb).as_str());
        r.append(">");
        predicates.push(r);
        let declared = declares_verb(d.actions.as_slice(), a.verb);
        push_action_extra(&mut nodes, ep.as_str(), declared, a);
        proof {
            assert(norm[j as int] == a@);
            assert(norm.take(j + 1).drop_last() =~= norm.take(j as int));
            assert(norm.map_values(|a: ActionView| action_ref(endpoint_iri(dv), a)).take(j + 1)
                =~= norm.map_values(|a: ActionView| action_ref(endpoint_iri(dv), a)).take(
                j as int,
            ).push(action_ref(endpoint_iri(dv), a@)));
            assert(views_of(predicates@) =~= before_p.push(action_ref(endpoint_iri(dv), a@)));
            assert(views_of(nodes@) =~= nodes0 + action_extras(dv, norm.take(j + 1)));
        }
        j = j + 1;
    }
    proof {
        assert(norm.take(acts@.len() as int) =~= norm);
        assert(norm.map_values(|a: ActionView| action_ref(endpoint_iri(dv), a)).take(
            acts@.len() as int,
        ) =~= norm.map_values(|a: ActionView| action_ref(endpoint_iri(dv), a)));
        assert(views_of(predicates@) =~= turtle_predicates(dv));
        assert(views_of(nodes@) =~= turtle_nodes(dv));
    }
    let mut ttl = String::new();
    ttl.append("@prefix ik: <");
    ttl.append(NS);
    ttl.append("> .\n\n");
    ttl.append("<");
    ttl.append(ep.as_str());
    ttl.append("> ");
    ttl.append(join_strs(predicates.as_slice(), PRED_SEP).as_str());
    ttl.append(" .\n");
    ttl.append(nodes_layout(nodes.as_slice()).as_str());
    proof {
        assert(ttl@ =~= turtle(dv));
    }
    ttl
}

/// One line per input in the plain-text form.
pub open spec fn inputs_text(inputs: Seq<ArgView>) -> Seq<char>
    decreases inputs.len(),
{
    if inputs.len() == 0 {
        Seq::empty()
    } else {
        let a = inputs.last();
        inputs_text(inputs.drop_last()) + "  input "@ + a.name + " ["@ + source_label(a.source)
            + "]"@ + (if a.required {
            Seq::empty()
        } else {
            " (optional)"@
        }) + ": "@ + a.summary + "\n"@
    }
}

/// A line when `c` holds.
pub open spec fn line_when(c: bool, x: Seq<char>) -> Seq<char> {
    if c {
        x + "\n"@
    } else {
        Seq::empty()
    }
}

/// The human-readable plain-text form of a description.
pub open spec fn description_text(d: DescriptionView) -> Seq<char> {
    d.id + " — "@ + d.title + "\n"@ + line_when(d.summary.len() > 0, d.summary) + line_when(
        d.verbs.len() > 0,
        "verbs: "@ + join_with(d.verbs.map_values(|v: Verb| verb_label(v)), ", "@),
    ) + inputs_text(d.inputs) + line_when(
        d.outputs.len() > 0,
        "outputs: "@ + join_with(d.outputs, ", "@),
    ) + match d.kind {
        KindView::Transreptor(f, t) => "transrepts: "@ + join_with(f, ", "@) + " → "@ + join_with(
            t,
            ", "@,
        ) + "\n"@,
        KindView::Endpoint => Seq::empty(),
    }
}

/// The verbs' names.
fn verb_names(vs: &[Verb]) -> (r: Vec<String>)
    ensures
        views_of(r@) == vs@.map_values(|v: Verb| verb_label(v)),
{
    let mut out: Vec<String> = Vec::new();
    let mut i: usize = 0;
    while i < vs.len()
        invariant
            i <= vs@.len(),
            out@.len() == i,
            forall|k: int| 0 <= k < i ==> (#[trigger] out@[k])@ == verb_label(vs@[k]),
        decreases vs@.len() - i,
    {
        out.push(copy_str(verb_name(vs[i])));
        i = i + 1;
    }
    proof {
        assert(views_of(out@) =~= vs@.map_values(|v: Verb| verb_label(v)));
    }
    out
}

/// The input lines of the plain-text form.
fn input_lines(inputs: &[ArgSpec]) -> (r: String)
    ensures
        r@ == inputs_text(args_view(inputs@)),
{
    let ghost av = args_view(inputs@);
    let mut out = String::new();
    let mut i: usize = 0;
    while i < inputs.len()
        invariant
            i <= inputs@.len(),
            av == args_view(inputs@),
            out@ == inputs_text(av.take(i as int)),
        decreases inputs@.len() - i,
    {
        let a = &inputs[i];
        proof {
            assert(av.take(i + 1).drop_last() =~= av.take(i as int));
            assert(av.take(i + 1).last() == a@);
        }
        out.append("  input ");
        out.append(a.name.as_str());
        out.append(" [");
        out.append(source_name(a.source));
        out.append("]");
        if !a.required {
            out.append(" (optional)");
        }
        out.append(": ");
        out.append(a.summary.as_str());
        out.append("\n");
        proof {
            assert(out@ =~= inputs_text(av.take(i + 1)));
        }
        i = i + 1;
    }
    proof {
        assert(av.take(inputs@.len() as int) =~= av);
    }
    out
}

/// `x` followed by a newline when `c` holds.
fn line_if(c: bool, x: String) -> (r: String)
    ensures
        r@ == line_when(c, x@),
{
    if c {
        let mut out = x;
        out.append("\n");
        out
    } else {
        let out = String::new();
        assert(out@ =~= line_when(c, x@));
        out
    }
}

/// The transreption line of the plain-text form.
fn transrepts_line(d: &Description) -> (r: String)
    ensures
        r@ == match d@.kind {
            KindView::Transreptor(f, t) => "transrepts: "@ + join_with(f, ", "@) + " → "@
                + join_with(t, ", "@) + "\n"@,
            KindView::Endpoint => Seq::empty(),
        },
{
    let mut s = String::new();
    match d.transreption() {
        Some(t) => {
            s.append("transrepts: ");
            s.append(join_strs(t.from.as_slice(), ", ").as_str());
            s.append(" → ");
            s.append(join_strs(t.to.as_slice(), ", ").as_str());
            s.append("\n");
        },
        None => {},
    }
    proof {
        assert(s@ =~= match d@.kind {
            KindView::Transreptor(f, t) => "transrepts: "@ + join_with(f, ", "@) + " → "@
                + join_with(t, ", "@) + "\n"@,
            KindView::Endpoint => Seq::<char>::empty(),
        });
    }
    s
}

/// Render a description as human-readable plain text.
pub fn to_text(description: &Description) -> (r: String)
    ensures
        r@ == description_text(description@),
{
    let d = description;
    let mut s = String::new();
    s.append(d.id.as_str());
    s.append(" — ");
    s.append(d.title.as_str());
    s.append("\n");
    let summary = line_if(d.summary.unicode_len() > 0, copy_str(d.summary.as_str()));
    let verbs = line_if(
        d.verbs.len() > 0,
        concat_str("verbs: ", join_strs(verb_names(d.verbs.as_slice()).as_slice(), ", ").as_str()),
    );
    let inputs = input_lines(d.inputs.as_slice());
    let outputs = line_if(
        d.outputs.len() > 0,
        concat_str("outputs: ", join_strs(d.outputs.as_slice(), ", ").as_str()),
    );
    let trans = transrepts_line(d);
    s.append(summary.as_str());
    s.append(verbs.as_str());
    s.append(inputs.as_str());
    s.append(outputs.as_str());
    s.append(trans.as_str());
    proof {
        assert(s@ =~= description_text(d@));
    }
    s
}

/// The bytes of a string, UTF-8 encoded.
fn utf8_bytes(s: &str) -> (r: Vec<u8>)
    ensures
        r@ == encode_utf8(s@),
{
    vstd::slice::slice_to_vec(s.as_bytes())
}

/// A description as a `text/turtle` representation.
pub fn describe_turtle(description: &Description) -> (r: Representation)
    ensures
        r.repr_type.spec_media_type() == "text/turtle"@,
        r.repr_type.spec_params().len() == 0,
        r.bytes@ == encode_utf8(turtle(description@)),
        r.expiry == Expiry::Always,
{
    let ttl = to_turtle(description);
    Representation::new(ReprType::new("text/turtle"), utf8_bytes(ttl.as_str()))
}

/// A description as a `text/plain;charset=utf-8` representation.
pub fn describe_text(description: &Description) -> (r: Representation)
    ensures
        r.repr_type.spec_media_type() == "text/plain"@,
        r.repr_type.spec_params() == seq![("charset"@, "utf-8"@)],
        r.bytes@ == encode_utf8(description_text(description@)),
        r.expiry == Expiry::Always,
{
    let text = to_text(description);
    let t = ReprType::new("text/plain").with_param("charset", "utf-8");
    assert(t.spec_params() =~= seq![("charset"@, "utf-8"@)]);
    Representation::new(t, utf8_bytes(text.as_str()))
}

/// The faces a description renders to.
#[derive(Clone, Copy, Debug, PartialEq, Eq, Structural)]
pub enum MetaFace {
    /// `text/turtle`, the default.
    Turtle,
    /// `text/plain`, human-readable.
    Text,
    /// `application/json`, the description's own serialized form.
    Json,
}

/// The message refusing an unsupported target.
pub open spec fn unsupported_target(media_type: Seq<char>) -> Seq<char> {
    "meta renderer does not support target `"@ + media_type + "`"@
}

/// The face a requested media type selects: Turtle for `text/turtle`, `*/*`
/// or no preference; plain text for `text/plain`; JSON for
/// `application/json`; anything else is refused.
pub fn meta_face(media_type: &str) -> (r: Result<MetaFace, Error>)
    ensures
        match r {
            Ok(MetaFace::Turtle) => media_type@ == "text/turtle"@ || media_type@ == "*/*"@
                || media_type@ == ""@,
            Ok(MetaFace::Text) => media_type@ == "text/plain"@,
            Ok(MetaFace::Json) => media_type@ == "application/json"@,
            Err(e) => {
                &&& media_type@ != "text/turtle"@
                &&& media_type@ != "*/*"@
                &&& media_type@ != ""@
                &&& media_type@ != "text/plain"@
                &&& media_type@ != "application/json"@
                &&& e matches Error::Endpoint(m) && m@ == unsupported_target(media_type@)
            },
        },
{
    if str_eq(media_type, "text/turtle") || str_eq(media_type, "*/*") || str_eq(media_type, "") {
        Ok(MetaFace::Turtle)
    } else if str_eq(media_type, "text/plain") {
        Ok(MetaFace::Text)
    } else if str_eq(media_type, "application/json") {
        Ok(MetaFace::Json)
    } else {
        let m = concat_str("meta renderer does not support target `", media_type);
        Err(Error::Endpoint(concat_str(m.as_str(), "`")))
    }
}

/// Renders an endpoint's self-description into a target representation type.
pub trait MetaRenderer {
    /// Render `description` as `target`.
    fn render(&self, description: &Description, target: &ReprType) -> Result<Representation, Error>;
}

/// The vocabulary endpoint's description.
pub open spec fn vocab_view() -> DescriptionView {
    DescriptionView {
        id: "ikigai-vocab"@,
        title: "ikigai vocabulary"@,
        summary: "The ikigai self-description vocabulary (the ns# ontology): the endpoint and transreptor classes and their properties."@,
        verbs: seq![Verb::Source, Verb::Meta],
        inputs: Seq::empty(),
        outputs: seq!["text/turtle;charset=utf-8"@],
        kind: KindView::Endpoint,
        requires: Seq::empty(),
        actions: Seq::empty(),
    }
}

/// The description of the endpoint serving the vocabulary.
pub fn vocab_description() -> (r: Description)
    ensures
        r@ == vocab_view(),
{
    let r = Description::new("ikigai-vocab").title("ikigai vocabulary").summary(
        "The ikigai self-description vocabulary (the ns# ontology): the endpoint and \
         transreptor classes and their properties.",
    ).verb(Verb::Source).verb(Verb::Meta).output("text/turtle;charset=utf-8");
    assert(r@ =~= vocab_view());
    r
}

/// The binding of the vocabulary: `urn:ikigai:vocab` to the `ikigai-vocab`
/// endpoint.
pub fn vocab_entry() -> (r: crate::space::SpaceEntry)
    ensures
        r.pattern@ == VOCAB_IRI@,
        r.endpoint@ == "ikigai-vocab"@,
        r.origin is None,
{
    crate::space::SpaceEntry::new(VOCAB_IRI, "ikigai-vocab")
}

} // verus!
