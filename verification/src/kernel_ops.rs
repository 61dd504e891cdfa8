//! The kernel's own operations, as self-describing resources.
//!
//! `urn:kernel:*` is served intrinsically by the kernel; this module gives
//! each operation a real [`Description`] so that the catalog, the action
//! manifold and describe-by-id can list them like any bound endpoint. Each
//! description's `requires` is the scope the kernel enforces for that
//! operation; `Meta` is never among the gated verbs.

use vstd::prelude::*;

use crate::describe::{
    normalized_actions, scopes_for, actions_view, ArgSpec, ArgView, Description, DescriptionView,
    InputSource, KindView,
};
use crate::space::SpaceEntry;
use crate::text::{concat_str, extend_strings, seq_starts_with, str_eq, str_skip, str_starts_with, views_of};
use crate::verb::Verb;

verus! {

/// The reserved namespace of the kernel's intrinsic operations.
pub const KERNEL_NS: &'static str = "urn:kernel:";

pub const TEXT_PLAIN_UTF8: &'static str = "text/plain;charset=utf-8";

pub const TEXT_TURTLE: &'static str = "text/turtle";

/// The capability gating the kernel's introspection operations.
pub const CAP_INSPECT: &'static str = "urn:cap:kernel:inspect";

/// The capability gating thread-cutting.
pub const CAP_CUT: &'static str = "urn:cap:kernel:cut";

pub const ACTIONS_SUMMARY: &'static str = "Given the RDF classes of the entities you have, list the endpoints whose required \
     typed inputs are all satisfied — \"what can I do with these?\". One endpoint IRI \
     per line; pipe into a `..` map to act on each.";

pub const VALIDATE_SUMMARY: &'static str = "Stage four of the selection funnel: check a proposed invocation against the \
     action's declared contract BEFORE firing it — required inputs present, one_of \
     respected, XSD scalars plausible, no unknown arguments, and the ambient \
     capability satisfying the action's requires. The answer is a SHACL validation \
     report: violations are data, and sh:resultPath joins each one back to the \
     catalog's input node.";

pub const CATALOG_SUMMARY: &'static str = "Every bound endpoint's self-description as one Turtle graph — the kernel made \
     queryable about itself with SPARQL, and renderable to HTML by transreption. \
     Says what EXISTS, for a caller with inspect authority; `urn:kernel:actions` is \
     the capability-scoped answer to what you MAY DO.";

pub const CUT_SUMMARY: &'static str = "Invalidate every cached representation depending on a golden thread, by \
     resolving rather than through a special method — so an endpoint, a filesystem \
     watcher or a remote peer all invalidate the same way. Name the thread in \
     `thread`, or sink it as content (`sink urn:kernel:cut <thread>`); exactly one \
     of the two is required, which a contract of independent arguments cannot say.";

pub const CACHE_SUMMARY: &'static str = "What the representation cache holds: a count, then one line per entry — the IRI \
     it was resolved from, its representation type and size, and how many golden \
     threads it depends on (cut any of them and the entry recomputes).";

pub const THREADS_SUMMARY: &'static str = "The golden threads that have been cut and their current generations — a cached \
     representation is valid only while every thread it depends on still stands at \
     the generation it was stored under.";

pub const ALIASES_SUMMARY: &'static str = "The installed logical-rewrite table as a resource: which logical names are \
     rewritten, to what, and — the part that matters when something is mysteriously \
     not resolving — how often each rule has fired, and how often it fired onto a \
     name nothing was bound to. Needs no tracer installed.";

pub const SCHEDULER_SUMMARY: &'static str = "The host scheduler as the kernel sees it — backend, threads, live task counts. \
     A kernel with no scheduler injected reports the runtime-free single-threaded \
     default.";

pub const CONSTRAINT_SUMMARY: &'static str = "Where the constraint is right now: the resources that consumed the most \
     *uncached* compute over the recent window, heaviest first. Cache hits are \
     excluded — they cost nothing — so the leader is the bottleneck (Goldratt step \
     one).";

/// The operations the kernel serves under `urn:kernel:`, in listing order.
pub open spec fn op_names() -> Seq<Seq<char>> {
    seq![
        "actions"@,
        "aliases"@,
        "cache"@,
        "catalog"@,
        "constraint"@,
        "cut"@,
        "scheduler"@,
        "threads"@,
        "validate"@,
    ]
}

/// An optional plain argument.
pub open spec fn optional_arg(name: Seq<char>, summary: Seq<char>) -> ArgView {
    ArgView {
        name,
        summary,
        required: false,
        source: InputSource::Argument,
        class: None,
        default: None,
        one_of: Seq::empty(),
    }
}

/// The names of the verbs a caller may pick.
pub open spec fn verb_choices() -> Seq<Seq<char>> {
    seq!["source"@, "sink"@, "exists"@, "delete"@]
}

/// A kernel operation's description: one verb besides `Meta`, no explicit
/// actions.
pub open spec fn op_view(
    id: Seq<char>,
    title: Seq<char>,
    summary: Seq<char>,
    verb: Verb,
    scopes: Seq<Seq<char>>,
    inputs: Seq<ArgView>,
    outputs: Seq<Seq<char>>,
) -> DescriptionView {
    DescriptionView {
        id,
        title,
        summary,
        verbs: seq![verb, Verb::Meta],
        inputs,
        outputs,
        kind: KindView::Endpoint,
        requires: scopes,
        actions: Seq::empty(),
    }
}

/// An introspection operation: `Source` and `Meta`, gated by the inspect
/// scope, answering plain text.
pub open spec fn inspect_view(id: Seq<char>, title: Seq<char>, summary: Seq<char>) -> DescriptionView {
    op_view(
        id,
        title,
        summary,
        Verb::Source,
        seq![CAP_INSPECT@],
        Seq::empty(),
        seq![TEXT_PLAIN_UTF8@],
    )
}

/// The description of each kernel operation, `None` for a name the kernel
/// does not serve.
pub open spec fn kernel_op_view(op: Seq<char>) -> Option<DescriptionView> {
    if op == "actions"@ {
        Some(
            op_view(
                "kernel-actions"@,
                "Action selection"@,
                ACTIONS_SUMMARY@,
                Verb::Source,
                Seq::empty(),
                seq![
                    optional_arg("types"@, "present RDF class IRIs, comma- or space-separated"@),
                    ArgView {
                        one_of: verb_choices(),
                        ..optional_arg("verb"@, "only actions answering this verb"@)
                    },
                    optional_arg("want"@, "only actions that can produce this media type"@),
                    ArgView {
                        one_of: seq!["text/plain"@, TEXT_TURTLE@],
                        default: Some("text/plain"@),
                        ..optional_arg("as"@, "response face"@)
                    },
                ],
                seq![TEXT_PLAIN_UTF8@, TEXT_TURTLE@],
            ),
        )
    } else if op == "aliases"@ {
        Some(inspect_view("kernel-aliases"@, "Logical rewrite table"@, ALIASES_SUMMARY@))
    } else if op == "cache"@ {
        Some(inspect_view("kernel-cache"@, "Cache readout"@, CACHE_SUMMARY@))
    } else if op == "catalog"@ {
        Some(
            op_view(
                "kernel-catalog"@,
                "Endpoint catalog"@,
                CATALOG_SUMMARY@,
                Verb::Source,
                seq![CAP_INSPECT@],
                Seq::empty(),
                seq![TEXT_TURTLE@],
            ),
        )
    } else if op == "constraint"@ {
        Some(inspect_view("kernel-constraint"@, "Throughput constraint"@, CONSTRAINT_SUMMARY@))
    } else if op == "cut"@ {
        Some(
            op_view(
                "kernel-cut"@,
                "Cut a golden thread"@,
                CUT_SUMMARY@,
                Verb::Sink,
                seq![CAP_CUT@],
                seq![
                    optional_arg("thread"@, "the golden thread to cut"@),
                    optional_arg(
                        "content"@,
                        "the thread as sunk content — the `sink urn:kernel:cut <thread>` form"@,
                    ),
                ],
                seq![TEXT_PLAIN_UTF8@],
            ),
        )
    } else if op == "scheduler"@ {
        Some(inspect_view("kernel-scheduler"@, "Scheduler readout"@, SCHEDULER_SUMMARY@))
    } else if op == "threads"@ {
        Some(inspect_view("kernel-threads"@, "Golden threads"@, THREADS_SUMMARY@))
    } else if op == "validate"@ {
        Some(
            op_view(
                "kernel-validate"@,
                "Validate a proposed invocation"@,
                VALIDATE_SUMMARY@,
                Verb::Source,
                Seq::empty(),
                seq![
                    optional_arg(
                        "action"@,
                        "the catalog action IRI (urn:ikigai:endpoint:<id>:action:<verb>)"@,
                    ),
                    optional_arg("endpoint"@, "alternative: the bound endpoint IRI, with verb="@),
                    ArgView {
                        one_of: verb_choices(),
                        ..optional_arg("verb"@, "the verb, when addressing by endpoint="@)
                    },
                    optional_arg(
                        "args"@,
                        "the proposed arguments: key=value pairs joined with & (or newlines)"@,
                    ),
                ],
                seq![TEXT_TURTLE@],
            ),
        )
    } else {
        None
    }
}

/// Every listed operation has a description, and the listed names are
/// distinct.
pub proof fn lemma_op_names()
    ensures
        forall|i: int| 0 <= i < op_names().len() ==> (#[trigger] kernel_op_view(op_names()[i])) is Some,
        forall|i: int, j: int|
            0 <= i < op_names().len() && 0 <= j < op_names().len() && i != j ==> op_names()[i]
                != op_names()[j],
{
    reveal_strlit("actions");
    reveal_strlit("aliases");
    reveal_strlit("cache");
    reveal_strlit("catalog");
    reveal_strlit("constraint");
    reveal_strlit("cut");
    reveal_strlit("scheduler");
    reveal_strlit("threads");
    reveal_strlit("validate");
    assert forall|i: int| 0 <= i < op_names().len() implies (#[trigger] kernel_op_view(
        op_names()[i],
    )) is Some by {
        assert(op_names()[i] == op_names()[i]);
    }
    assert forall|i: int, j: int|
        0 <= i < op_names().len() && 0 <= j < op_names().len() && i != j implies op_names()[i]
            != op_names()[j] by {
        if op_names()[i] == op_names()[j] {
            assert(op_names()[i].len() == op_names()[j].len());
            assert(op_names()[i][0] == op_names()[j][0]);
            assert(op_names()[i][1] == op_names()[j][1]);
            assert(op_names()[i][2] == op_names()[j][2]);
        }
    }
}

/// The operations the kernel serves, in listing order.
pub fn ops() -> (r: Vec<&'static str>)
    ensures
        r@.map_values(|s: &str| s@) == op_names(),
{
    let r = vec![
        "actions",
        "aliases",
        "cache",
        "catalog",
        "constraint",
        "cut",
        "scheduler",
        "threads",
        "validate",
    ];
    assert(r@.map_values(|s: &str| s@) =~= op_names());
    r
}

fn verb_arg(summary: &str) -> (r: ArgSpec)
    ensures
        r@ == (ArgView { one_of: verb_choices(), ..optional_arg("verb"@, summary@) }),
{
    let choices: [&str; 4] = ["source", "sink", "exists", "delete"];
    let r = ArgSpec::new("verb").summary(summary).one_of(&choices).optional();
    assert(choices@.map_values(|s: &str| s@) =~= verb_choices());
    r
}

fn optional(name: &str, summary: &str) -> (r: ArgSpec)
    ensures
        r@ == optional_arg(name@, summary@),
{
    ArgSpec::new(name).summary(summary).optional()
}

fn inspect(id: &str, title: &str, summary: &str) -> (r: Description)
    ensures
        r@ == inspect_view(id@, title@, summary@),
{
    let r = Description::new(id).title(title).summary(summary).verb(Verb::Source).verb(
        Verb::Meta,
    ).require(CAP_INSPECT).output(TEXT_PLAIN_UTF8);
    assert(r@.verbs =~= seq![Verb::Source, Verb::Meta]);
    assert(r@.requires =~= seq![CAP_INSPECT@]);
    assert(r@.outputs =~= seq![TEXT_PLAIN_UTF8@]);
    r
}

fn actions() -> (r: Description)
    ensures
        Some(r@) == kernel_op_view("actions"@),
{
    let faces: [&str; 2] = ["text/plain", TEXT_TURTLE];
    let face = ArgSpec::new("as").summary("response face").one_of(&faces).default_value(
        "text/plain",
    );
    assert(faces@.map_values(|s: &str| s@) =~= seq!["text/plain"@, TEXT_TURTLE@]);
    let r = Description::new("kernel-actions").title("Action selection").summary(
        ACTIONS_SUMMARY,
    ).verb(Verb::Source).verb(Verb::Meta).input(
        optional("types", "present RDF class IRIs, comma- or space-separated"),
    ).input(verb_arg("only actions answering this verb")).input(
        optional("want", "only actions that can produce this media type"),
    ).input(face).output(TEXT_PLAIN_UTF8).output(TEXT_TURTLE);
    assert(r@ =~= kernel_op_view("actions"@).unwrap());
    r
}

fn validate() -> (r: Description)
    ensures
        Some(r@) == kernel_op_view("validate"@),
{
    let r = Description::new("kernel-validate").title("Validate a proposed invocation").summary(
        VALIDATE_SUMMARY,
    ).verb(Verb::Source).verb(Verb::Meta).input(
        optional("action", "the catalog action IRI (urn:ikigai:endpoint:<id>:action:<verb>)"),
    ).input(optional("endpoint", "alternative: the bound endpoint IRI, with verb=")).input(
        verb_arg("the verb, when addressing by endpoint="),
    ).input(
        optional("args", "the proposed arguments: key=value pairs joined with & (or newlines)"),
    ).output(TEXT_TURTLE);
    proof {
        lemma_op_names();
        assert(op_names()[8] == "validate"@ && op_names()[3] == "catalog"@ && op_names()[5] == "cut"@);
    }
    assert(r@ =~= kernel_op_view("validate"@).unwrap());
    r
}

fn catalog() -> (r: Description)
    ensures
        Some(r@) == kernel_op_view("catalog"@),
{
    let r = Description::new("kernel-catalog").title("Endpoint catalog").summary(
        CATALOG_SUMMARY,
    ).verb(Verb::Source).verb(Verb::Meta).require(CAP_INSPECT).output(TEXT_TURTLE);
    proof {
        lemma_op_names();
        assert(op_names()[8] == "validate"@ && op_names()[3] == "catalog"@ && op_names()[5] == "cut"@);
    }
    assert(r@ =~= kernel_op_view("catalog"@).unwrap());
    r
}

fn cut() -> (r: Description)
    ensures
        Some(r@) == kernel_op_view("cut"@),
{
    let r = Description::new("kernel-cut").title("Cut a golden thread").summary(CUT_SUMMARY).verb(
        Verb::Sink,
    ).verb(Verb::Meta).require(CAP_CUT).input(optional("thread", "the golden thread to cut")).input(
        optional(
            "content",
            "the thread as sunk content — the `sink urn:kernel:cut <thread>` form",
        ),
    ).output(TEXT_PLAIN_UTF8);
    proof {
        lemma_op_names();
        assert(op_names()[8] == "validate"@ && op_names()[3] == "catalog"@ && op_names()[5] == "cut"@);
    }
    assert(r@ =~= kernel_op_view("cut"@).unwrap());
    r
}

/// The self-description of one kernel operation, or `None` for a name the
/// kernel does not serve.
pub fn description(op: &str) -> (r: Option<Description>)
    ensures
        match r {
            Some(d) => kernel_op_view(op@) == Some(d@),
            None => kernel_op_view(op@) is None,
        },
{
    if str_eq(op, "actions") {
        Some(actions())
    } else if str_eq(op, "aliases") {
        Some(inspect("kernel-aliases", "Logical rewrite table", ALIASES_SUMMARY))
    } else if str_eq(op, "cache") {
        Some(inspect("kernel-cache", "Cache readout", CACHE_SUMMARY))
    } else if str_eq(op, "catalog") {
        Some(catalog())
    } else if str_eq(op, "constraint") {
        Some(inspect("kernel-constraint", "Throughput constraint", CONSTRAINT_SUMMARY))
    } else if str_eq(op, "cut") {
        Some(cut())
    } else if str_eq(op, "scheduler") {
        Some(inspect("kernel-scheduler", "Scheduler readout", SCHEDULER_SUMMARY))
    } else if str_eq(op, "threads") {
        Some(inspect("kernel-threads", "Golden threads", THREADS_SUMMARY))
    } else if str_eq(op, "validate") {
        Some(validate())
    } else {
        None
    }
}

/// The capability scopes invoking `op` with `verb` requires, per its
/// declaration; empty for an undeclared pair, `Meta` included.
pub fn required_scopes(op: &str, verb: Verb) -> (r: Vec<String>)
    ensures
        views_of(r@) == match kernel_op_view(op@) {
            Some(d) => scopes_for(normalized_actions(d), verb),
            None => Seq::empty(),
        },
{
    let mut out: Vec<String> = Vec::new();
    match description(op) {
        None => {
            assert(views_of(out@) =~= Seq::<Seq<char>>::empty());
            out
        },
        Some(d) => {
            let specs = d.action_specs();
            let ghost acts = actions_view(specs@);
            let mut i: usize = 0;
            while i < specs.len()
                invariant
                    i <= specs@.len(),
                    acts == actions_view(specs@),
                    views_of(out@) == scopes_for(acts.take(i as int), verb),
                decreases specs@.len() - i,
            {
                proof {
                    assert(acts.take(i + 1).drop_last() =~= acts.take(i as int));
                }
                if specs[i].verb == verb {
                    extend_strings(&mut out, specs[i].requires.as_slice());
                } else {
                    assert(views_of(out@) =~= views_of(out@) + Seq::<Seq<char>>::empty());
                }
                i = i + 1;
            }
            proof {
                assert(acts.take(specs@.len() as int) =~= acts);
            }
            out
        },
    }
}

/// The kernel operation a target IRI names, as its description: `None` for a
/// target outside `urn:kernel:` or for an operation the kernel does not serve.
pub fn op_for_target(target: &str) -> (r: Option<Description>)
    ensures
        match r {
            Some(d) => seq_starts_with(target@, KERNEL_NS@) && kernel_op_view(
                target@.skip(KERNEL_NS@.len() as int),
            ) == Some(d@),
            None => !seq_starts_with(target@, KERNEL_NS@) || kernel_op_view(
                target@.skip(KERNEL_NS@.len() as int),
            ) is None,
        },
{
    if str_starts_with(target, KERNEL_NS) {
        let op = str_skip(target, KERNEL_NS.unicode_len());
        description(op.as_str())
    } else {
        None
    }
}

/// The entries of the kernel-operation space: one per listed operation, its
/// pattern the operation's IRI and its endpoint the description's id.
pub fn op_entries() -> (r: Vec<SpaceEntry>)
    ensures
        r@.len() == op_names().len(),
        forall|k: int|
            0 <= k < r@.len() ==> {
                &&& (#[trigger] r@[k]).pattern@ == KERNEL_NS@ + op_names()[k]
                &&& kernel_op_view(op_names()[k]) matches Some(d) && r@[k].endpoint@ == d.id
                &&& r@[k].origin is None
            },
{
    let names = ops();
    let mut out: Vec<SpaceEntry> = Vec::new();
    let mut i: usize = 0;
    while i < names.len()
        invariant
            i <= names@.len(),
            names@.map_values(|s: &str| s@) == op_names(),
            out@.len() == i,
            forall|k: int|
                0 <= k < i ==> {
                    &&& (#[trigger] out@[k]).pattern@ == KERNEL_NS@ + op_names()[k]
                    &&& kernel_op_view(op_names()[k]) matches Some(d) && out@[k].endpoint@
                        == d.id
                    &&& out@[k].origin is None
                },
        decreases names@.len() - i,
    {
        let op = names[i];
        proof {
            lemma_op_names();
            assert(op@ == op_names()[i as int]);
            assert(kernel_op_view(op_names()[i as int]) is Some);
        }
        let d = match description(op) {
            Some(d) => d,
            None => {
                proof {
                    assert(false);
                }
                return out;
            },
        };
        let pattern = concat_str(KERNEL_NS, op);
        out.push(SpaceEntry::new(pattern.as_str(), d.id.as_str()));
        i = i + 1;
    }
    out
}

} // verus!
