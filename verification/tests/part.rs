use kirin::ids::{EntityId, PageName, ProjectLabel, Reference};
use kirin::kicad::Kind;
use kirin::semantic::part::diff_entities;
use kirin::semantic::{ChangeKind, Entity, Point};

const MM: i32 = 1_000_000;

/// A placed `Lib:Box`-style symbol on the root sheet, with its tracked
/// properties (the reader drops Reference, Value, Datasheet, Description,
/// `ki_*` and blank fields).
fn symbol(reference: &str, lib: &str, props: &[(&str, &str)]) -> Entity {
    let mut properties: Vec<(String, String)> = props.iter().map(|&(k, v)| (k.to_string(), v.to_string())).collect();
    properties.sort();
    Entity {
        reference: Reference::new(reference),
        value: Some("v".to_string()),
        lib_id: Some(lib.to_string()),
        at: Some(Point { x: 15 * MM, y: 0 }),
        rotation: 0,
        sheet: Some(PageName::new("Root sheet")),
        layer: None,
        properties,
        pins: vec![],
        hidden_pins: vec![],
    }
}

fn footprint(reference: &str, layer: &str, at: (i32, i32), rotation: i32) -> Entity {
    Entity {
        reference: Reference::new(reference),
        value: None,
        lib_id: None,
        at: Some(Point { x: at.0 * MM, y: at.1 * MM }),
        rotation: rotation as i64 * 1_000_000_000,
        sheet: None,
        layer: Some(PageName::new(layer)),
        properties: vec![],
        pins: vec![],
        hidden_pins: vec![],
    }
}

fn one(key: &str, e: Entity) -> Vec<(EntityId, Entity)> {
    vec![(EntityId::new(key), e)]
}

fn p() -> ProjectLabel {
    ProjectLabel::new("p")
}

#[test]
fn properties_leaving_with_the_symbol_stay_silent() {
    let with_mpn = one("//U1", symbol("U1", "Lib:Box", &[("MPN", "X")]));
    let swapped = one("//U1", symbol("U1", "Lib:BoxLV", &[]));
    let same_symbol = one("//U1", symbol("U1", "Lib:Box", &[]));
    // The swap took its field along: only the symbol change reports.
    let changes = diff_entities(&p(), Kind::Sch, &with_mpn, &swapped);
    assert_eq!(changes.len(), 1);
    assert_eq!(changes[0].kind, ChangeKind::FootprintChanged);
    // Removing the field on the same symbol is its own edit.
    let changes = diff_entities(&p(), Kind::Sch, &with_mpn, &same_symbol);
    assert_eq!(changes.len(), 1);
    assert_eq!(changes[0].detail, "MPN: X -> -");
}

#[test]
fn multi_unit_part_facts_are_said_once() {
    let unit = |value: &str, lib: &str| Entity {
        reference: Reference::new("U1"),
        value: Some(value.to_string()),
        lib_id: Some(lib.to_string()),
        at: Some(Point { x: 0, y: 0 }),
        rotation: 0,
        sheet: Some(PageName::new("S")),
        layer: None,
        properties: vec![],
        pins: vec![],
        hidden_pins: vec![],
    };
    let a = vec![
        (EntityId::new("u1"), unit("LM339", "ti:LM339")),
        (EntityId::new("u2"), unit("LM339", "ti:LM339")),
    ];
    // Two facts change at once: each unit repeats both, interleaved, so
    // the duplicates are not adjacent until sorted by the full key.
    let b = vec![
        (EntityId::new("u1"), unit("LM339LV", "ti:LM339LV")),
        (EntityId::new("u2"), unit("LM339LV", "ti:LM339LV")),
    ];
    let changes = diff_entities(&p(), Kind::Sch, &a, &b);
    let details: Vec<&str> = changes.iter().map(|c| c.detail.as_str()).collect();
    assert_eq!(details, ["Library: ti:LM339 -> ti:LM339LV", "Value: LM339 -> LM339LV"]);
}

#[test]
fn side_flip_reports_a_row_on_each_layer() {
    let a = one("u1", footprint("R1", "F.Cu", (10, 10), 90));
    let b = one("u1", footprint("R1", "B.Cu", (10, 10), 90));
    let changes = diff_entities(&p(), Kind::Pcb, &a, &b);
    assert_eq!(changes.len(), 2);
    let on = |layer: &str| changes.iter().find(|c| c.layer.as_ref().map(|l| l.as_str()) == Some(layer));
    // The row on the layer the part left marks its base location only,
    // the one on the layer it landed on its head location only.
    let left = on("F.Cu").unwrap();
    assert_eq!(left.detail, "Flipped to B.Cu");
    assert_eq!(left.at_base, Some(Point { x: 10 * MM, y: 10 * MM }));
    assert_eq!(left.at_head, None);
    let landed = on("B.Cu").unwrap();
    assert_eq!(landed.detail, "Flipped from F.Cu");
    assert_eq!(landed.at_base, None);
    assert_eq!(landed.at_head, Some(Point { x: 10 * MM, y: 10 * MM }));
}

#[test]
fn side_flip_carries_the_motion_in_its_detail() {
    let a = one("u1", footprint("R1", "F.Cu", (10, 10), 90));
    let b = one("u1", footprint("R1", "B.Cu", (13, 14), 180));
    let changes = diff_entities(&p(), Kind::Pcb, &a, &b);
    let mut details: Vec<&str> = changes.iter().map(|c| c.detail.as_str()).collect();
    details.sort();
    assert_eq!(
        details,
        [
            "Flipped from F.Cu, moved 5.00 mm, rotated to 180\u{b0}",
            "Flipped to B.Cu, moved 5.00 mm, rotated to 180\u{b0}",
        ]
    );
}

#[test]
fn move_without_flip_stays_a_single_row() {
    let a = one("u1", footprint("R1", "F.Cu", (10, 10), 90));
    let b = one("u1", footprint("R1", "F.Cu", (13, 14), 90));
    let changes = diff_entities(&p(), Kind::Pcb, &a, &b);
    assert_eq!(changes.len(), 1);
    assert_eq!(changes[0].detail, "Moved 5.00 mm");
    assert_eq!(changes[0].layer.as_ref().map(|l| l.as_str()), Some("F.Cu"));
}

#[test]
fn replacement_under_a_fresh_key_pairs_with_the_removed_part() {
    // Re-placing R1 gives it a new key: one value row, no added/removed couple.
    let a = one("old", symbol("R1", "Device:R", &[]));
    let mut fresh = symbol("R1", "Device:R", &[]);
    fresh.value = Some("4k7".to_string());
    let b = one("new", fresh);
    let changes = diff_entities(&p(), Kind::Sch, &a, &b);
    assert_eq!(changes.len(), 1);
    assert_eq!(changes[0].kind, ChangeKind::ValueChanged);
    assert_eq!(changes[0].detail, "Value: v -> 4k7");
}

#[test]
fn added_parts_describe_what_arrived_and_removed_ones_stay_terse() {
    let a = one("k1", symbol("C1", "Device:C", &[]));
    let b = one("k2", symbol("R7", "Device:R", &[("MPN", "RC0603"), ("Note", "")]));
    let changes = diff_entities(&p(), Kind::Sch, &a, &b);
    assert_eq!(changes.len(), 2);
    assert_eq!(changes[0].kind, ChangeKind::Removed);
    assert_eq!(changes[0].reference.as_str(), "C1");
    assert_eq!(changes[0].detail, "");
    assert_eq!(changes[1].kind, ChangeKind::Added);
    assert_eq!(changes[1].detail, "Value: v\nLibrary: Device:R\nMPN: RC0603");
}

#[test]
fn rename_is_reported_under_the_head_reference() {
    let a = one("k", symbol("R1", "Device:R", &[]));
    let b = one("k", symbol("R2", "Device:R", &[]));
    let changes = diff_entities(&p(), Kind::Sch, &a, &b);
    assert_eq!(changes.len(), 1);
    assert_eq!(changes[0].kind, ChangeKind::Renamed);
    assert_eq!(changes[0].reference.as_str(), "R2");
    assert_eq!(changes[0].detail, "Renamed: R1 -> R2");
}

#[test]
fn rotation_prints_its_exact_decimals() {
    let a = one("u1", footprint("R1", "F.Cu", (10, 10), 0));
    let mut turned = footprint("R1", "F.Cu", (10, 10), 0);
    turned.rotation = 12_345_600_000; // 12.3456 degrees
    let changes = diff_entities(&p(), Kind::Pcb, &a, &one("u1", turned));
    assert_eq!(changes.len(), 1);
    assert_eq!(changes[0].detail, "Rotated to 12.3456\u{b0}");

    // A turn of a ten-thousandth of a degree is still a change.
    let mut nudged = footprint("R1", "F.Cu", (10, 10), 0);
    nudged.rotation = -100_000;
    let changes = diff_entities(&p(), Kind::Pcb, &a, &one("u1", nudged));
    assert_eq!(changes[0].detail, "Rotated to -0.0001\u{b0}");
}
