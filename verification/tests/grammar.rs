use ikigai_core::iri::Iri;
use ikigai_core::{Bindings, Exact, Grammar, UriTemplate};

fn iri(s: &str) -> Iri {
    Iri::parse(s).unwrap()
}

#[test]
fn exact_matches_only_itself() {
    let g = Exact::new("urn:fn:toUpper");
    assert!(g.match_iri(&iri("urn:fn:toUpper")).is_some());
    assert!(g.match_iri(&iri("urn:fn:toLower")).is_none());
}

#[test]
fn template_captures_trailing_var() {
    let t = UriTemplate::parse("urn:fn:echo/{message}").unwrap();
    let b = t.match_iri(&iri("urn:fn:echo/hello")).unwrap();
    assert_eq!(b.get("message"), Some("hello"));
    assert!(t.match_iri(&iri("urn:fn:echo/")).is_none());
    assert!(t.match_iri(&iri("urn:other:echo/hi")).is_none());
}

#[test]
fn template_captures_middle_var() {
    let t = UriTemplate::parse("urn:r:{id}/data").unwrap();
    let b = t.match_iri(&iri("urn:r:42/data")).unwrap();
    assert_eq!(b.get("id"), Some("42"));
    assert!(t.match_iri(&iri("urn:r:42/other")).is_none());
}

#[test]
fn expand_is_inverse_of_match() {
    let t = UriTemplate::parse("urn:r:{id}/data").unwrap();
    let b = t.match_iri(&iri("urn:r:7/data")).unwrap();
    assert_eq!(t.expand(&b).as_deref(), Some("urn:r:7/data"));
}

#[test]
fn rejects_ambiguous_and_malformed() {
    assert!(UriTemplate::parse("urn:{a}{b}").is_err());
    assert!(UriTemplate::parse("urn:{a").is_err());
    assert!(UriTemplate::parse("urn:{}").is_err());
}

#[test]
fn a_template_lists_its_variables_in_order() {
    let t = UriTemplate::parse("urn:x:{a}/y/{b}").unwrap();
    assert_eq!(t.variables(), vec!["a".to_string(), "b".to_string()]);
    assert_eq!(t.source(), "urn:x:{a}/y/{b}");
    assert_eq!(t.pattern(), "urn:x:{a}/y/{b}");
}

#[test]
fn expansion_needs_every_variable() {
    let t = UriTemplate::parse("urn:x:{a}/{b}").unwrap();
    let mut b = Bindings::new();
    b.insert("a", "1");
    assert_eq!(t.expand(&b), None);
    b.insert("b", "2");
    assert_eq!(t.expand(&b).as_deref(), Some("urn:x:1/2"));
}

#[test]
fn bindings_keep_one_value_per_name() {
    let mut b = Bindings::new();
    assert!(b.is_empty());
    b.insert("k", "1");
    b.insert("k", "2");
    assert_eq!(b.len(), 1);
    assert_eq!(b.get("k"), Some("2"));
}
