use ikigai_core::verb::Verb;
use ikigai_core::{ActionSpec, ArgSpec, Description, EndpointKind, InputSource};

#[test]
fn action_specs_normalize_both_authoring_forms() {
    let flat = Description::new("toUpper")
        .verb(Verb::Source)
        .verb(Verb::Meta)
        .input(ArgSpec::new("in"))
        .output("text/plain")
        .require("cap:demo");
    let specs = flat.action_specs();
    assert_eq!(specs.len(), 1);
    assert_eq!(specs[0].verb, Verb::Source);
    assert_eq!(specs[0].inputs[0].name, "in");
    assert_eq!(specs[0].requires, vec!["cap:demo".to_string()]);

    let mixed = Description::new("calendar")
        .verb(Verb::Source)
        .input(ArgSpec::new("calendar").optional())
        .action(
            ActionSpec::new(Verb::Sink)
                .require("urn:cap:personal:calendar:write")
                .input(ArgSpec::new("start")),
        );
    assert!(mixed.verbs.contains(&Verb::Sink), ".action() declares its verb");
    let specs = mixed.action_specs();
    assert_eq!(specs.len(), 2);
    let sink = specs.iter().find(|a| a.verb == Verb::Sink).unwrap();
    assert_eq!(sink.inputs[0].name, "start", "explicit action wins");
    let source = specs.iter().find(|a| a.verb == Verb::Source).unwrap();
    assert_eq!(source.inputs[0].name, "calendar", "synthesized from flat");
}

#[test]
fn builds_a_description() {
    let d = Description::new("toUpper")
        .title("Upper-case")
        .verb(Verb::Source)
        .input(ArgSpec::new("in").summary("the string").optional())
        .output("text/plain");
    assert_eq!(d.id, "toUpper");
    assert_eq!(d.verbs, vec![Verb::Source]);
    assert_eq!(d.inputs[0].name, "in");
    assert!(!d.inputs[0].required);
}

#[test]
fn inputs_default_to_arguments_and_can_be_bindings() {
    let arg = ArgSpec::new("in");
    assert_eq!(arg.source, InputSource::Argument);
    let bound = ArgSpec::new("message").binding();
    assert_eq!(bound.source, InputSource::Binding);
}

#[test]
fn validate_reaches_every_field_an_emitter_puts_in_an_iri_position() {
    let base = || {
        Description::new("cal").action(
            ActionSpec::new(Verb::Sink)
                .require("urn:cap:cal:write")
                .input(ArgSpec::new("start").class("http://www.w3.org/2001/XMLSchema#dateTime")),
        )
    };
    base().validate().expect("a real endpoint validates");

    let cases: [(&str, Description); 6] = [
        ("id", Description::new("ca>l")),
        ("input name", Description::new("cal").input(ArgSpec::new("a b"))),
        ("input class", Description::new("cal").input(ArgSpec::new("a").class("urn:x>y"))),
        ("requires", Description::new("cal").require("urn:cap:a b")),
        (
            "input name",
            Description::new("cal").action(ActionSpec::new(Verb::Sink).input(ArgSpec::new("a>b"))),
        ),
        (
            "requires",
            Description::new("cal").action(ActionSpec::new(Verb::Sink).require("urn:cap:a>b")),
        ),
    ];
    for (field, d) in cases {
        let err = d.validate().expect_err("must be refused").to_string();
        assert!(err.contains(field), "expected `{field}` to be blamed: {err}");
    }
}

#[test]
fn kind_defaults_to_endpoint() {
    let d = Description::new("toUpper").output("text/plain");
    assert_eq!(d.kind, EndpointKind::Endpoint);
    assert!(d.transreption().is_none());
}

#[test]
fn transreptor_builder_records_its_conversions() {
    let d = Description::new("rdf-transrept")
        .verb(Verb::Source)
        .transreptor(&["text/turtle", "application/rdf+xml"], &["text/turtle", "text/html"]);
    let t = d.transreption().expect("is a transreptor");
    assert_eq!(t.from, vec!["text/turtle", "application/rdf+xml"]);
    assert_eq!(t.to, vec!["text/turtle", "text/html"]);
    assert!(!d.kind.is_endpoint());
}

#[test]
fn requires_is_empty_by_default_and_accumulates() {
    let d = Description::new("toUpper").output("text/plain");
    assert!(d.requires.is_empty());
    let gated = Description::new("httpGet").verb(Verb::Source).require("cap:net").require("cap:fs:read");
    assert_eq!(gated.requires, vec!["cap:net", "cap:fs:read"]);
}

// Meta is never a selectable action, so no scope can gate it.
#[test]
fn meta_never_appears_among_the_actions() {
    let d = Description::new("x").verb(Verb::Meta).verb(Verb::Source).require("cap:a");
    let specs = d.action_specs();
    assert_eq!(specs.len(), 1);
    assert!(specs.iter().all(|a| a.verb != Verb::Meta));
}

// Re-authoring with the normalized actions as explicit ones changes nothing.
#[test]
fn the_explicit_form_normalizes_like_the_flat_one() {
    let flat = Description::new("t")
        .verb(Verb::Source)
        .input(ArgSpec::new("in"))
        .output("text/plain")
        .require("cap:x");
    let mut explicit = Description::new("t");
    for a in flat.action_specs() {
        explicit = explicit.action(a);
    }
    assert_eq!(explicit.action_specs(), flat.action_specs());
}

#[test]
fn validate_names_the_unsafe_value() {
    let err = Description::new("a b").validate().unwrap_err().to_string();
    assert!(err.contains("`a b`"), "{err}");
}
