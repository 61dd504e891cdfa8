use ikigai_core::verb::Verb;
use ikigai_core::vocab::{
    describe_text, describe_turtle, meta_face, to_text, to_turtle, vocab_description, vocab_entry,
    MetaFace, VOCAB_IRI,
};
use ikigai_core::{ActionSpec, ArgSpec, Description, Error};

fn sample() -> Description {
    Description::new("toUpper")
        .title("Upper-case")
        .summary("Upper-cases its input.")
        .verb(Verb::Source)
        .verb(Verb::Meta)
        .input(ArgSpec::new("in").summary("the string"))
        .output("text/plain;charset=utf-8")
}

#[test]
fn renders_expected_triples() {
    let ttl = to_turtle(&sample());
    assert!(ttl.starts_with("@prefix ik: <https://ikigai-rs.dev/ns#> ."));
    assert!(ttl.contains("a ik:Endpoint"));
    assert!(ttl.contains("ik:id \"toUpper\""));
    assert!(ttl.contains("ik:verb \"Source\", \"Meta\""));
    assert!(ttl.contains("ik:output \"text/plain;charset=utf-8\""));
    assert!(ttl.contains("ik:inputName \"in\""));
    assert!(ttl.contains("ik:source \"argument\""));
    assert!(ttl.contains("ik:required true"));
    assert!(ttl.trim_end().ends_with('.'));
}

#[test]
fn a_multi_verb_endpoint_projects_per_verb_actions() {
    let d = Description::new("personal-calendar")
        .action(
            ActionSpec::new(Verb::Source)
                .require("urn:cap:personal:calendar:read:detail")
                .output("text/turtle")
                .input(ArgSpec::new("calendar").optional()),
        )
        .action(
            ActionSpec::new(Verb::Sink)
                .require("urn:cap:personal:calendar:write")
                .input(
                    ArgSpec::new("start")
                        .class("http://www.w3.org/2001/XMLSchema#dateTime")
                        .summary("event start"),
                )
                .input(ArgSpec::new("alert").optional()),
        );
    let ttl = to_turtle(&d);
    assert!(ttl.contains("ik:action <urn:ikigai:endpoint:personal-calendar:action:source>"));
    assert!(ttl.contains("<urn:ikigai:endpoint:personal-calendar:action:sink> a ik:Action"), "{ttl}");
    assert!(ttl.contains("ik:requires <urn:cap:personal:calendar:write>"), "{ttl}");
    assert!(!ttl.contains("\"urn:cap:"), "cap IRIs must not be literals: {ttl}");
    assert!(ttl.contains(
        "<urn:ikigai:endpoint:personal-calendar:action:sink:input:start> ik:inputName \"start\""
    ));
    assert!(ttl.contains("ik:class <http://www.w3.org/2001/XMLSchema#dateTime>"));
    let sink = ttl.split("action:sink> ").nth(1).unwrap().split(" .").next().unwrap();
    assert!(!sink.contains("calendar:read"), "sink action carries only its own cap");
}

#[test]
fn a_single_verb_endpoint_synthesizes_its_action_from_flat_fields() {
    let d = Description::new("toUpper")
        .verb(Verb::Source)
        .input(ArgSpec::new("in").summary("the string"))
        .output("text/plain");
    let ttl = to_turtle(&d);
    assert!(ttl.contains("<urn:ikigai:endpoint:toUpper:action:source> a ik:Action"));
    assert!(ttl.contains("ik:input <urn:ikigai:endpoint:toUpper:input:in>"), "{ttl}");
    assert_eq!(ttl.matches("ik:inputName \"in\"").count(), 1, "{ttl}");
    assert!(!ttl.contains("action:meta"), "{ttl}");
}

#[test]
fn enumerated_inputs_project_default_and_one_of() {
    let d = Description::new("diff")
        .verb(Verb::Source)
        .input(ArgSpec::new("mode").one_of(&["added", "removed"]).default_value("added"));
    let ttl = to_turtle(&d);
    assert!(ttl.contains("ik:default \"added\""), "{ttl}");
    assert!(ttl.contains("ik:oneOf \"added\""), "{ttl}");
    assert!(ttl.contains("ik:oneOf \"removed\""), "{ttl}");
}

#[test]
fn projects_typed_inputs_and_required_capabilities() {
    let d = Description::new("schedule")
        .verb(Verb::Source)
        .require("cap:net")
        .input(ArgSpec::new("who").class("https://schema.org/Person"))
        .input(ArgSpec::new("content"));
    let ttl = to_turtle(&d);
    assert!(ttl.contains("ik:requires \"cap:net\""), "{ttl}");
    assert!(ttl.contains("ik:class <https://schema.org/Person>"), "{ttl}");
    assert_eq!(ttl.matches("ik:class").count(), 1, "{ttl}");
    assert!(!to_turtle(&sample()).contains("ik:requires"));
}

#[test]
fn renders_binding_inputs() {
    let d = Description::new("echo")
        .verb(Verb::Source)
        .input(ArgSpec::new("message").summary("captured from the path").binding());
    let ttl = to_turtle(&d);
    assert!(ttl.contains("ik:inputName \"message\""));
    assert!(ttl.contains("ik:source \"binding\""));
    let text = to_text(&d);
    assert!(text.contains("input message [binding]"));
}

#[test]
fn escapes_literals() {
    let d = Description::new("x").title("a \"quote\" and \\ slash");
    let ttl = to_turtle(&d);
    assert!(ttl.contains(r#"ik:title "a \"quote\" and \\ slash""#));
}

#[test]
fn describe_turtle_is_text_turtle() {
    let rep = describe_turtle(&sample());
    assert_eq!(rep.repr_type.media_type(), "text/turtle");
}

#[test]
fn vocab_space_binds_the_vocab_iri() {
    let entries = vec![vocab_entry()];
    assert!(entries.iter().any(|e| e.pattern == VOCAB_IRI), "{entries:?}");
    assert_eq!(entries[0].endpoint, vocab_description().id);
}

#[test]
fn renders_a_transreptor() {
    let d = Description::new("rdf-transrept")
        .verb(Verb::Source)
        .transreptor(&["text/turtle", "application/rdf+xml"], &["text/turtle", "text/html"]);
    let ttl = to_turtle(&d);
    assert!(ttl.contains("a ik:Endpoint, ik:Transreptor"), "{ttl}");
    assert!(ttl.contains("ik:transreptsFrom \"text/turtle\", \"application/rdf+xml\""), "{ttl}");
    assert!(ttl.contains("ik:transreptsTo \"text/turtle\", \"text/html\""), "{ttl}");
    let plain = to_turtle(&sample());
    assert!(plain.contains("a ik:Endpoint") && !plain.contains("ik:Transreptor"), "{plain}");
}

#[test]
fn the_whole_document_of_a_small_description() {
    let d = Description::new("e").verb(Verb::Source).input(ArgSpec::new("x"));
    let expected = "@prefix ik: <https://ikigai-rs.dev/ns#> .\n\n\
<urn:ikigai:endpoint:e> a ik:Endpoint ;\n    ik:id \"e\" ;\n    ik:verb \"Source\" ;\n    \
ik:input <urn:ikigai:endpoint:e:input:x> ;\n    ik:action <urn:ikigai:endpoint:e:action:source> .\n\
\n<urn:ikigai:endpoint:e:input:x> ik:inputName \"x\" ;\n    ik:source \"argument\" ;\n    ik:required true .\n\
\n<urn:ikigai:endpoint:e:action:source> a ik:Action ;\n    ik:verb \"Source\" ;\n    ik:input <urn:ikigai:endpoint:e:input:x> .\n";
    assert_eq!(to_turtle(&d), expected);
}

#[test]
fn control_characters_are_escaped() {
    let d = Description::new("x").summary("a\nb\tc\rd");
    assert!(to_turtle(&d).contains(r#"ik:summary "a\nb\tc\rd""#));
}

#[test]
fn the_text_form_lists_everything() {
    let d = Description::new("t")
        .title("T")
        .summary("S")
        .verb(Verb::Source)
        .input(ArgSpec::new("a").summary("first").optional())
        .output("text/plain")
        .transreptor(&["x/y"], &["z/w"]);
    assert_eq!(
        to_text(&d),
        "t — T\nS\nverbs: Source\n  input a [argument] (optional): first\noutputs: text/plain\ntransrepts: x/y → z/w\n"
    );
    let rep = describe_text(&d);
    assert_eq!(rep.repr_type.canonical(), "text/plain;charset=utf-8");
    assert_eq!(rep.bytes, to_text(&d).into_bytes());
}

#[test]
fn the_meta_face_follows_the_requested_type() {
    assert_eq!(meta_face("text/turtle").unwrap(), MetaFace::Turtle);
    assert_eq!(meta_face("*/*").unwrap(), MetaFace::Turtle);
    assert_eq!(meta_face("").unwrap(), MetaFace::Turtle);
    assert_eq!(meta_face("text/plain").unwrap(), MetaFace::Text);
    assert_eq!(meta_face("application/json").unwrap(), MetaFace::Json);
    match meta_face("image/png") {
        Err(Error::Endpoint(m)) => assert_eq!(m, "meta renderer does not support target `image/png`"),
        other => panic!("unexpected {other:?}"),
    }
}

#[test]
fn a_validated_description_writes_its_iris_unchanged() {
    let d = Description::new("cal")
        .verb(Verb::Sink)
        .action(
            ActionSpec::new(Verb::Sink)
                .require("urn:cap:cal:write")
                .input(ArgSpec::new("start").class("http://www.w3.org/2001/XMLSchema#dateTime")),
        );
    assert!(d.validate().is_ok());
    let ttl = to_turtle(&d);
    assert!(ttl.contains("<urn:ikigai:endpoint:cal>"));
    assert!(ttl.contains("<urn:ikigai:endpoint:cal:action:sink>"));
    assert!(ttl.contains("<urn:ikigai:endpoint:cal:action:sink:input:start>"));
    assert!(ttl.contains("ik:class <http://www.w3.org/2001/XMLSchema#dateTime>"));
    assert!(ttl.contains("ik:requires <urn:cap:cal:write>"));
}

#[test]
fn an_unsafe_id_is_percent_encoded_in_every_iri_position() {
    let d = Description::new("evil> ; a <urn:x> . <urn:y")
        .verb(Verb::Source)
        .input(ArgSpec::new("a b").class("urn:x>y"))
        .require("urn:cap:a b");
    let ttl = to_turtle(&d);
    assert!(ttl.contains("<urn:ikigai:endpoint:evil%3E%20;%20a%20%3Curn:x%3E%20.%20%3Curn:y>"));
    assert!(!ttl.contains("<urn:ikigai:endpoint:evil>"));
    assert!(ttl.contains(":input:a%20b>"));
    assert!(ttl.contains("ik:class <urn:x%3Ey>"));
    assert!(ttl.contains("<urn:cap:a%20b>"));
}
