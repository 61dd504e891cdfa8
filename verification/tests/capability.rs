use ikigai_core::Capability;

#[test]
fn root_is_root_and_allows_everything() {
    let cap = Capability::root();
    assert!(cap.is_root());
    assert!(cap.allows("urn:cap:anything:read"));
    assert!(cap.scopes().is_none());
}

#[test]
fn scoped_allows_only_its_scopes() {
    let cap = Capability::scoped(&["urn:cap:personal:calendar:read:freebusy"]);
    assert!(!cap.is_root());
    assert!(cap.allows("urn:cap:personal:calendar:read:freebusy"));
    assert!(!cap.allows("urn:cap:personal:calendar:read:detail"));
}

#[test]
fn attenuating_root_yields_exactly_the_requested_scopes() {
    let cap = Capability::root().attenuate(&["urn:cap:personal:calendar:read:freebusy"]);
    assert!(cap.allows("urn:cap:personal:calendar:read:freebusy"));
    assert!(!cap.allows("urn:cap:personal:calendar:read:detail"));
}

#[test]
fn attenuation_only_narrows_never_widens() {
    let freebusy = Capability::root().attenuate(&["urn:cap:personal:calendar:read:freebusy"]);
    let escalated = freebusy.attenuate(&[
        "urn:cap:personal:calendar:read:detail",
        "urn:cap:personal:calendar:read:freebusy",
    ]);
    assert!(!escalated.allows("urn:cap:personal:calendar:read:detail"));
    assert!(escalated.allows("urn:cap:personal:calendar:read:freebusy"));
}

#[test]
fn clamp_bounds_a_carried_capability_to_the_ceiling() {
    let ceiling = Capability::root().attenuate(&["a", "b"]);
    let c = ceiling.clamp(&Capability::root());
    assert!(c.allows("a") && c.allows("b") && !c.allows("c"));
    let c = ceiling.clamp(&Capability::root().attenuate(&["a", "c"]));
    assert!(c.allows("a") && !c.allows("b") && !c.allows("c"));
    let c = Capability::root().clamp(&Capability::root().attenuate(&["a"]));
    assert!(c.allows("a") && !c.allows("b"));
}

#[test]
fn scoped_lists_its_scopes_in_order() {
    let cap = Capability::scoped(&["b", "a", "b"]);
    let scopes = cap.scopes().unwrap();
    assert_eq!(scopes.len(), 2);
    assert_eq!(scopes.get(0), "a");
    assert_eq!(scopes.get(1), "b");
}
