use kirin::semantic::extract::{keeps_property, tracked_property};

#[test]
fn only_bom_relevant_properties_are_tracked() {
    assert!(tracked_property("MPN"));
    assert!(tracked_property("Footprint"));
    assert!(!tracked_property("Reference"));
    assert!(!tracked_property("Value"));
    assert!(!tracked_property("Datasheet"));
    assert!(!tracked_property("Description"));
    assert!(!tracked_property("ki_keywords"));
}

#[test]
fn blank_and_placeholder_values_are_dropped() {
    assert!(keeps_property("MPN", "LM339"));
    assert!(!keeps_property("MPN", ""));
    assert!(!keeps_property("MPN", " \t\u{a0}"));
    assert!(!keeps_property("MPN", "~"));
    assert!(!keeps_property("Datasheet", "http://x"));
}
