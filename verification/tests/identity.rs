use ikigai_core::iri::Iri;
use ikigai_core::verb::Verb;
use ikigai_core::{ArgRef, ContentId, Request};

fn iri(s: &str) -> Iri {
    Iri::parse(s).unwrap()
}

#[test]
fn deterministic_and_distinct() {
    assert_eq!(ContentId::of(b"hello"), ContentId::of(b"hello"));
    assert_ne!(ContentId::of(b"hello"), ContentId::of(b"world"));
}

#[test]
fn display_is_b3_hex() {
    let id = ContentId::of(b"x");
    let s = id.to_text();
    assert!(s.starts_with("b3:"));
    assert_eq!(s.len(), 3 + 64);
}

#[test]
fn parse_round_trip() {
    let id = ContentId::of(b"round trip");
    assert_eq!(ContentId::parse(&id.to_text()).unwrap(), id);
    assert!(ContentId::parse("deadbeef").is_err());
    assert!(ContentId::parse("b3:zz").is_err());
}

#[test]
fn identity_is_deterministic() {
    let r = || Request::new(Verb::Source, iri("urn:r:1")).with_arg("in", ArgRef::Inline(b"hello".to_vec()));
    assert_eq!(r().id(), r().id());
}

#[test]
fn argument_order_does_not_matter() {
    let a = Request::new(Verb::Source, iri("urn:r:1"))
        .with_arg("a", ArgRef::Inline(b"1".to_vec()))
        .with_arg("b", ArgRef::Inline(b"2".to_vec()));
    let b = Request::new(Verb::Source, iri("urn:r:1"))
        .with_arg("b", ArgRef::Inline(b"2".to_vec()))
        .with_arg("a", ArgRef::Inline(b"1".to_vec()));
    assert_eq!(a.id(), b.id());
}

#[test]
fn equal_values_share_identity() {
    let one = Request::new(Verb::Source, iri("urn:upper")).with_arg("in", ArgRef::Inline(b"hello".to_vec()));
    let two = Request::new(Verb::Source, iri("urn:upper")).with_arg("in", ArgRef::Inline(b"hello".to_vec()));
    assert_eq!(one.id(), two.id());
}

#[test]
fn distinct_inputs_have_distinct_identity() {
    let base = Request::new(Verb::Source, iri("urn:r:1")).with_arg("in", ArgRef::Inline(b"x".to_vec()));
    let diff_verb = Request::new(Verb::Exists, iri("urn:r:1")).with_arg("in", ArgRef::Inline(b"x".to_vec()));
    let diff_target = Request::new(Verb::Source, iri("urn:r:2")).with_arg("in", ArgRef::Inline(b"x".to_vec()));
    let diff_value = Request::new(Verb::Source, iri("urn:r:1")).with_arg("in", ArgRef::Inline(b"y".to_vec()));
    let by_ref = Request::new(Verb::Source, iri("urn:r:1")).with_arg("in", ArgRef::Reference(iri("urn:x")));
    let ids = [base.id(), diff_verb.id(), diff_target.id(), diff_value.id(), by_ref.id()];
    for i in 0..ids.len() {
        for j in (i + 1)..ids.len() {
            assert_ne!(ids[i], ids[j], "ids {i} and {j} collided");
        }
    }
}
