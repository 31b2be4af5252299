use kirin::ids::{EntityId, PageName, ProjectLabel, Reference};
use kirin::kicad::Kind;
use kirin::netlist::Net;
use kirin::semantic::{diff_pcb, diff_schematics, part_totals, sheet_renames, Bbox, ChangeKind, Entity, Frac, Point, Ratio};

fn sym(reference: &str, sheet: &str) -> Entity {
    Entity {
        reference: Reference::new(reference),
        value: Some("v".to_string()),
        lib_id: Some("Lib:Box".to_string()),
        at: Some(Point { x: 0, y: 0 }),
        rotation: 0,
        sheet: Some(PageName::new(sheet)),
        layer: None,
        properties: vec![],
        pins: vec![],
        hidden_pins: vec![],
    }
}

fn fp(reference: &str, layer: &str, x: i32, y: i32) -> Entity {
    Entity {
        reference: Reference::new(reference),
        value: None,
        lib_id: None,
        at: Some(Point { x, y }),
        rotation: 0,
        sheet: None,
        layer: Some(PageName::new(layer)),
        properties: vec![],
        pins: vec![],
        hidden_pins: vec![],
    }
}

fn names(list: &[(&str, &str)]) -> Vec<(String, PageName)> {
    list.iter().map(|&(k, n)| (k.to_string(), PageName::new(n))).collect()
}

#[test]
fn sheet_renames_pair_by_instance_uuid() {
    // s1 renames (file and all), s2 renames its display name only, s3
    // keeps its name, and s4 lands on a name s3 still owns - ambiguous,
    // so it stays out.
    let a = names(&[
        ("/root/s1", "48V to 5V"),
        ("/root/s2", "5V to 3.3V"),
        ("/root/s3", "Port A"),
        ("/root/s4", "Port B"),
    ]);
    let b = names(&[
        ("/root/s1", "48V to 4.2V"),
        ("/root/s2", "4.2V to 3.3V"),
        ("/root/s3", "Port A"),
        ("/root/s4", "Port A"),
    ]);
    let renames = sheet_renames(&a, &b);
    let pairs: Vec<_> = renames.iter().map(|(o, n)| (o.as_str(), n.as_str())).collect();
    assert_eq!(pairs, [("48V to 5V", "48V to 4.2V"), ("5V to 3.3V", "4.2V to 3.3V")]);
}

#[test]
fn sheet_renames_drop_a_name_split_two_ways_and_a_target_claimed_twice() {
    // A reused sheet whose instances go separate ways is ambiguous; so are
    // two sheets landing on the same new name.
    let a = names(&[("/s1", "Port"), ("/s2", "Port"), ("/s3", "X"), ("/s4", "Y")]);
    let b = names(&[("/s1", "Port A"), ("/s2", "Port B"), ("/s3", "Z"), ("/s4", "Z")]);
    assert!(sheet_renames(&a, &b).is_empty());
    // A sheet missing on the head side keeps its name on the base side.
    let a = names(&[("/s1", "Power"), ("/s2", "Power")]);
    let b = names(&[("/s1", "Supply")]);
    assert!(sheet_renames(&a, &b).is_empty());
}

#[test]
fn part_totals_count_unique_refs_per_page() {
    let a = vec![(EntityId::new("//R1"), sym("R1", "Root sheet")), (EntityId::new("//R2"), sym("R2", "Root sheet"))];
    let b = vec![(EntityId::new("//R2"), sym("R2", "Root sheet")), (EntityId::new("//R3"), sym("R3", "Root sheet"))];
    // Union of both sides, each reference once.
    let totals = part_totals(&a, &b, Kind::Sch);
    assert_eq!(totals.len(), 1);
    assert_eq!(totals[0].0.as_str(), "Root sheet");
    assert_eq!(totals[0].1, 3);
}

#[test]
fn board_changes_are_located_within_each_side_box() {
    const MM: i32 = 1_000_000;
    let a = vec![(EntityId::new("u1"), fp("R1", "F.Cu", 10 * MM, 20 * MM))];
    let b = vec![(EntityId::new("u1"), fp("R1", "F.Cu", 30 * MM, 20 * MM))];
    let bbox_a = Some(Bbox { min_x: 0, min_y: 0, max_x: 40 * MM, max_y: 80 * MM });
    // A box without extent yields no fraction.
    let bbox_b = Some(Bbox { min_x: 0, min_y: 0, max_x: 0, max_y: 80 * MM });
    let (changes, totals) = diff_pcb(&ProjectLabel::new("p"), &a, &b, bbox_a, bbox_b);
    assert_eq!(changes.len(), 1);
    assert_eq!(changes[0].kind, ChangeKind::Moved);
    assert_eq!(
        changes[0].frac_base,
        Some(Frac {
            x: Ratio { num: 10_000_000, den: 40_000_000 },
            y: Ratio { num: 20_000_000, den: 80_000_000 },
        })
    );
    assert_eq!(changes[0].detail, "Moved 20.00 mm");
    assert_eq!(changes[0].frac_head, None);
    assert_eq!(totals.len(), 1);
    assert_eq!((totals[0].0.as_str(), totals[0].1), ("F.Cu", 1));
}

#[test]
fn renamed_sheets_diff_under_their_head_name() {
    let a = vec![(EntityId::new("/s1/u"), sym("U1", "Old"))];
    let b = vec![(EntityId::new("/s1/u"), sym("U1", "New"))];
    let renames = vec![(PageName::new("Old"), PageName::new("New"))];
    let (changes, totals) = diff_schematics(&ProjectLabel::new("p"), a, &b, None, &renames);
    assert!(changes.is_empty());
    assert_eq!(totals.len(), 1);
    assert_eq!((totals[0].0.as_str(), totals[0].1), ("New", 1));
}

#[test]
fn schematic_changes_order_by_sheet_then_reference() {
    let a = vec![
        (EntityId::new("/k1"), sym("R2", "B")),
        (EntityId::new("/k2"), sym("R1", "A")),
    ];
    let b = vec![];
    let nets: Vec<Net> = vec![];
    let (changes, _) = diff_schematics(&ProjectLabel::new("p"), a, &b, Some((&nets, &nets)), &vec![]);
    let order: Vec<_> = changes
        .iter()
        .map(|c| (c.sheet.as_ref().unwrap().as_str().to_string(), c.reference.as_str().to_string()))
        .collect();
    assert_eq!(order, vec![("A".to_string(), "R1".to_string()), ("B".to_string(), "R2".to_string())]);
}
