use ikigai_core::select::{candidate_of, probe_accepted, probe_target, PROBE};
use ikigai_core::verb::Verb;
use ikigai_core::{
    is_auto_invocable, select_action, select_actions, select_transreptor, ActionMatch, ActionQuery,
    ActionSpec, ArgSpec, Candidate, Capability, DescribedEntry, Description,
};

fn transreptor(id: &str, from: &[&str], to: &[&str]) -> Description {
    Description::new(id)
        .verb(Verb::Source)
        .input(ArgSpec::new("content"))
        .input(ArgSpec::new("as"))
        .transreptor(from, to)
}

/// The candidates the kernel's described space yields: each bound transreptor
/// that is auto-invocable, in binding order.
fn candidates(bound: &[(&str, Description)]) -> Vec<Candidate> {
    bound.iter().filter_map(|(pattern, d)| candidate_of(pattern, d)).collect()
}

fn space() -> Vec<(&'static str, Description)> {
    vec![
        (
            "urn:rdf:transrept",
            transreptor(
                "rdf",
                &["text/turtle", "application/rdf+xml", "application/n-triples"],
                &["text/turtle", "application/rdf+xml", "application/n-triples", "text/html"],
            ),
        ),
        ("urn:fn:toUpper", Description::new("toUpper")),
    ]
}

#[test]
fn finds_a_direct_hop() {
    let plan = select_transreptor(&candidates(&space()), "application/rdf+xml", "text/turtle").unwrap();
    assert_eq!(plan.len(), 1);
    assert_eq!(plan[0].endpoint, "urn:rdf:transrept");
    assert_eq!(plan[0].to, "text/turtle");
}

#[test]
fn pivots_via_turtle_when_no_direct_hop() {
    let mut bound = space();
    bound.push(("urn:demo:csv", transreptor("csv", &["text/turtle"], &["text/csv"])));
    let plan = select_transreptor(&candidates(&bound), "application/rdf+xml", "text/csv").unwrap();
    assert_eq!(plan.len(), 2, "{plan:?}");
    assert_eq!(plan[0].to, "text/turtle");
    assert_eq!(plan[1].endpoint, "urn:demo:csv");
    assert_eq!(plan[1].to, "text/csv");
}

#[test]
fn none_when_unreachable_or_identity() {
    assert!(select_transreptor(&candidates(&space()), "text/turtle", "text/turtle").is_none());
    assert!(select_transreptor(&candidates(&space()), "application/pdf", "image/png").is_none());
}

#[test]
fn parameterized_transreptors_are_not_auto_invocable() {
    let xslt = Description::new("xslt")
        .verb(Verb::Source)
        .input(ArgSpec::new("content"))
        .input(ArgSpec::new("stylesheet"))
        .input(ArgSpec::new("as"))
        .transreptor(&["application/xml"], &["text/html"]);
    assert!(!is_auto_invocable(&xslt));
    let bound = vec![("urn:xslt:transform", xslt)];
    assert!(select_transreptor(&candidates(&bound), "application/xml", "text/html").is_none());
}

const PERSON: &str = "https://schema.org/Person";
const PLACE: &str = "https://schema.org/Place";
const DATE: &str = "https://schema.org/Date";

fn typed_action(id: &str, classes: &[&str]) -> Description {
    let mut d = Description::new(id).verb(Verb::Source);
    for (n, class) in classes.iter().enumerate() {
        d = d.input(ArgSpec::new(&format!("in{n}")).class(class));
    }
    d
}

fn exact(pattern: &str, description: Description) -> DescribedEntry {
    DescribedEntry { pattern: pattern.to_string(), description, template_vars: None }
}

fn action_space() -> Vec<DescribedEntry> {
    vec![
        exact("urn:demo:schedule", typed_action("schedule", &[PERSON, PLACE, DATE])),
        exact("urn:demo:greet", typed_action("greet", &[PERSON])),
        exact("urn:rdf:transrept", transreptor("rdf", &["text/turtle"], &["text/html"])),
    ]
}

fn endpoints(matches: &[ActionMatch]) -> Vec<&str> {
    let mut v: Vec<&str> = matches.iter().map(|m| m.endpoint.as_str()).collect();
    v.sort();
    v
}

#[test]
fn action_matches_when_all_required_typed_inputs_are_present() {
    let m = select_action(&action_space(), &[PERSON, PLACE, DATE]);
    assert_eq!(endpoints(&m), vec!["urn:demo:greet", "urn:demo:schedule"]);
}

#[test]
fn action_excluded_when_a_required_type_is_missing() {
    let m = select_action(&action_space(), &[PERSON]);
    assert_eq!(endpoints(&m), vec!["urn:demo:greet"]);
}

fn template_file_description() -> Description {
    Description::new("file").action(
        ActionSpec::new(Verb::Source)
            .require("urn:cap:fs:read:*")
            .input(ArgSpec::new("path").summary("captured from the IRI").binding()),
    )
}

/// A template entry as the describe step yields it: described through its probe.
fn template(pattern: &str, description: Description) -> DescribedEntry {
    let (vars, _probe) = probe_target(pattern).expect("a template");
    DescribedEntry { pattern: pattern.to_string(), description, template_vars: Some(vars) }
}

#[test]
fn a_template_action_with_declared_binding_args_joins_the_manifold() {
    let space = vec![template("urn:file:{path}", template_file_description())];
    let reader = Capability::scoped(&["urn:cap:fs:read:/notes"]);
    let query = ActionQuery { capability: Some(&reader), ..Default::default() };
    let m = select_actions(&space, &query);
    assert_eq!(m.len(), 1, "{m:?}");
    assert_eq!(m[0].endpoint, "urn:file:{path}");
    assert_eq!(m[0].id, "file");
    assert_eq!(m[0].verb, Verb::Source);
    assert_eq!(m[0].action, "urn:ikigai:endpoint:file:action:source");

    let denied = Capability::scoped(&["urn:cap:unrelated"]);
    let query = ActionQuery { capability: Some(&denied), ..Default::default() };
    assert!(select_actions(&space, &query).is_empty());
}

#[test]
fn a_template_whose_variables_lack_binding_argspecs_stays_out() {
    let undeclared = Description::new("file").verb(Verb::Source).input(ArgSpec::new("path"));
    let space = vec![template("urn:file:{path}", undeclared)];
    assert!(select_actions(&space, &ActionQuery::default()).is_empty());
}

#[test]
fn a_shadowed_probe_is_discarded_not_misattributed() {
    // The probe IRI of `urn:t:{v}:x` is `urn:t:probe:x`, which an exact binding
    // named `shadow` answers first: the identity guard refuses to attach it.
    let (_vars, probe) = probe_target("urn:t:{v}:x").unwrap();
    assert_eq!(probe, "urn:t:probe:x");
    let shadow = Description::new("shadow").verb(Verb::Source).input(ArgSpec::new("v").binding());
    assert!(!probe_accepted("shadow", &shadow.id, "file"));
    // Only the exact binding joins the manifold.
    let space = vec![exact("urn:t:probe:x", shadow)];
    let matches = select_actions(&space, &ActionQuery::default());
    assert!(!matches.iter().any(|m| m.endpoint == "urn:t:{v}:x"), "{matches:?}");
    assert!(matches.iter().any(|m| m.endpoint == "urn:t:probe:x"));
}

fn mounted_description(id: &str) -> Description {
    Description::new(id).action(ActionSpec::new(Verb::Source).input(ArgSpec::new("n").binding()))
}

#[test]
fn a_mounted_template_row_survives_a_sibling_that_shadows_only_the_local_guess() {
    // The local guess names the shorter sibling, but the remote's own description
    // names the row's endpoint: either witness suffices.
    assert!(probe_accepted("pr-page", "pr-explain", "pr-explain"));
    assert!(probe_accepted("pr-page", "pr-page", "pr-page"));
    let space = vec![
        template("urn:t:pr:{n}", mounted_description("pr-page")),
        template("urn:t:pr:{n}:explain", mounted_description("pr-explain")),
    ];
    let matches = select_actions(&space, &ActionQuery::default());
    assert_eq!(endpoints(&matches), vec!["urn:t:pr:{n}", "urn:t:pr:{n}:explain"]);
    let explain = matches.iter().find(|m| m.endpoint == "urn:t:pr:{n}:explain").unwrap();
    assert_eq!(explain.id, "pr-explain");
    assert_eq!(explain.action, "urn:ikigai:endpoint:pr-explain:action:source");
}

#[test]
fn a_row_whose_description_also_disowns_it_stays_invisible() {
    assert!(!probe_accepted("someone-else", "someone-else", "pr-explain"));
}

#[test]
fn untyped_and_no_required_endpoints_are_never_inferred_actions() {
    let m = select_action(&action_space(), &[PERSON, PLACE, DATE]);
    assert!(!endpoints(&m).contains(&"urn:rdf:transrept"));
    let space = vec![exact("urn:demo:ping", Description::new("ping"))];
    assert!(select_action(&space, &[PERSON]).is_empty());
}

#[test]
fn matches_come_best_fitted_first() {
    let d1 = Description::new("a")
        .verb(Verb::Source)
        .input(ArgSpec::new("who").class(PERSON))
        .input(ArgSpec::new("where").class(PLACE).optional());
    let d2 = Description::new("b").verb(Verb::Source).input(ArgSpec::new("who").class(PERSON));
    let space = vec![exact("urn:z:first", d1), exact("urn:y:second", d2)];
    let query = ActionQuery { present: &[PERSON], ..Default::default() };
    let m = select_actions(&space, &query);
    assert_eq!(m.len(), 2);
    assert_eq!(m[0].endpoint, "urn:y:second");
    assert_eq!(m[0].missing_optional, 0);
    assert_eq!(m[1].missing_optional, 1);
}

#[test]
fn the_probe_value_fills_every_variable() {
    let (vars, probe) = probe_target("urn:x:{a}/{b}").unwrap();
    assert_eq!(vars, vec!["a".to_string(), "b".to_string()]);
    assert_eq!(probe, format!("urn:x:{PROBE}/{PROBE}"));
    assert!(probe_target("urn:exact").is_none());
    assert!(probe_target("urn:{").is_none());
}
