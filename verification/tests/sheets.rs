use kirin::ids::{EntityId, PageName};
use kirin::semantic::extract::{
    board_parts, child_sheets, part_table, root_instance, sheet_parts, Footprint, SchSheet, SchSymbol, SymInstance,
};
use kirin::semantic::geometry::{
    edge_bbox, resolve_drawings, sheet_pos, unit_number_of, BoardGraphic, LibSymbol,
};
use kirin::semantic::symbols::{nm_of, schematic_symbols};
use kirin::ids::ProjectLabel;
use kirin::kicad::Kind;
use kirin::semantic::part::diff_entities;
use kirin::semantic::walk::SheetWalk;
use kirin::semantic::{Bbox, ChangeKind, Entity, Point};

const MM: i32 = 1_000_000;

/// A library of symbols exercising the marker centering:
/// - `Lib:Box` draws a rectangle whose center sits at (5, 10), up and to
///   the right of the anchor.
/// - `Lib:Quad` is multi-unit: shared unit-0 graphics around x 0..2, unit
///   1 around (2, 2), unit 2 around (22, 2), unit 3 with two visible pin
///   tips around (42, 2) and one hidden pin far away.
/// - `Lib:One` has a single pin "1".
/// - `Lib:BoxLV` derives from `Lib:Box` and has no drawing of its own.
const LIB: &str = r#"(lib_symbols
        (symbol "Lib:Box"
          (symbol "Box_1_1" (rectangle (start 0 0) (end 10 20))))
        (symbol "Lib:Quad"
          (symbol "Quad_0_1" (polyline (pts (xy 0 0) (xy 2 4))))
          (symbol "Quad_1_1" (rectangle (start 0 0) (end 4 4)))
          (symbol "Quad_2_1" (rectangle (start 20 0) (end 24 4)))
          (symbol "Quad_3_1"
            (pin passive line (at 40 0 0) (length 2) (name "A") (number "1"))
            (pin passive line (at 44 4 0) (length 2) (name "B") (number "2"))
            (pin power_in line (at 70 70 0) (length 2) hide (name "V") (number "3"))))
        (symbol "Lib:One"
          (symbol "One_1_1" (pin passive line (at 0 0 0) (length 2) (name "P") (number "1"))))
        (symbol "Lib:BoxLV" (extends "Box")))"#;

fn library() -> Vec<LibSymbol> {
    let text = format!("(kicad_sch (version 20250114) (generator \"eeschema\")\n{LIB})\n");
    schematic_symbols(&text).ok().unwrap().0
}

fn mm(x: i32, y: i32) -> Point {
    Point { x: x * MM, y: y * MM }
}

/// A symbol placed at `(x, y)` turned by `angle` degrees, as the schematic
/// reader gives it.
fn instance(reference: &str, lib: &str, at: (i32, i32, i32), unit: i32, mirror: Option<&str>) -> SchSymbol {
    SchSymbol {
        lib_id: Some(lib.to_string()),
        at: Some(mm(at.0, at.1)),
        angle: at.2 as i64 * 1_000_000_000,
        mirror: mirror.map(|m| m.to_string()),
        unit: Some(unit),
        uuid: Some(reference.to_string()),
        reference: Some(reference.to_string()),
        value: Some("v".to_string()),
        properties: vec![
            ("Reference".to_string(), reference.to_string()),
            ("Value".to_string(), "v".to_string()),
        ],
    }
}

fn entities(symbols: Vec<SchSymbol>) -> Vec<(EntityId, Entity)> {
    let lib = library();
    let table = resolve_drawings(&lib);
    let parts = sheet_parts(&symbols, &vec![], &PageName::new("Root sheet"), "/", &lib, &table);
    part_table(parts)
}

fn at_of(entities: &[(EntityId, Entity)], reference: &str) -> Point {
    entities.iter().find(|(_, e)| e.reference.as_str() == reference).unwrap().1.at.unwrap()
}

#[test]
fn marker_centers_on_symbol_drawing() {
    let e = entities(vec![
        instance("U1", "Lib:Box", (100, 100, 0), 1, None),
        instance("U2", "Lib:BoxLV", (100, 100, 0), 1, None),
    ]);
    // Drawing center (5, 10) in Y-up symbol space lands above and to the
    // right of the anchor on the Y-down sheet; extends borrows it.
    assert_eq!(at_of(&e, "U1"), mm(105, 90));
    assert_eq!(at_of(&e, "U2"), mm(105, 90));
}

#[test]
fn marker_follows_instance_rotation_and_mirror() {
    let e = entities(vec![
        instance("R90", "Lib:Box", (100, 100, 90), 1, None),
        instance("R180", "Lib:Box", (100, 100, 180), 1, None),
        instance("R270", "Lib:Box", (100, 100, 270), 1, None),
        instance("MX", "Lib:Box", (100, 100, 0), 1, Some("x")),
        instance("MY", "Lib:Box", (100, 100, 0), 1, Some("y")),
        instance("MXR90", "Lib:Box", (100, 100, 90), 1, Some("x")),
    ]);
    // (5, 10) rotated CCW per the instance angle, then flipped to Y-down.
    assert_eq!(at_of(&e, "R90"), mm(90, 95));
    assert_eq!(at_of(&e, "R180"), mm(95, 110));
    assert_eq!(at_of(&e, "R270"), mm(110, 105));
    // Mirror is applied to the already-rotated drawing.
    assert_eq!(at_of(&e, "MX"), mm(105, 110));
    assert_eq!(at_of(&e, "MY"), mm(95, 90));
    assert_eq!(at_of(&e, "MXR90"), mm(90, 105));
}

#[test]
fn marker_centers_on_the_placed_unit() {
    let e = entities(vec![
        instance("Q1", "Lib:Quad", (100, 100, 0), 1, None),
        instance("Q2", "Lib:Quad", (100, 100, 0), 2, None),
        instance("Q3", "Lib:Quad", (100, 100, 0), 3, None),
    ]);
    // Each unit joins its own drawing with the shared unit-0 graphics;
    // the hidden pin of unit 3 does not count.
    assert_eq!(at_of(&e, "Q1"), mm(102, 98));
    assert_eq!(at_of(&e, "Q2"), mm(112, 98));
    assert_eq!(at_of(&e, "Q3"), mm(122, 98));
}

/// A root sheet instantiating the same sub-sheet twice; the sub-sheet's
/// one symbol carries per-instance references.
#[test]
fn reused_sheet_yields_one_entity_per_instance() {
    let sub = r#"(kicad_sch (version 20250114) (generator "eeschema") (uuid "sub")
      (lib_symbols (symbol "Lib:Box" (symbol "Box_1_1" (rectangle (start 0 0) (end 10 20)))))
      (symbol (lib_id "Lib:Box") (at 100 100 0) (unit 1) (uuid "u")
        (property "Reference" "U?" (at 0 0 0))
        (property "Value" "v" (at 0 0 0))
        (instances (project "p"
          (path "/root/s1" (reference "U1") (unit 1))
          (path "/root/s2" (reference "U2") (unit 1))))))
"#;
    let root_sheets = vec![
        SchSheet {
            name: Some("Port A".to_string()),
            filename: Some("sub.kicad_sch".to_string()),
            uuid: Some("s1".to_string()),
        },
        SchSheet {
            name: Some("Port B".to_string()),
            filename: Some("sub.kicad_sch".to_string()),
            uuid: Some("s2".to_string()),
        },
    ];
    let root = root_instance(&Some("root".to_string()));
    assert_eq!(root, "/root");
    let children = child_sheets(&root_sheets, &root);
    assert_eq!(children.len(), 2);
    assert_eq!(children[0].0, "sub.kicad_sch");
    assert_eq!(children[1].2, "/root/s2");

    let (lib, insts) = schematic_symbols(sub).ok().unwrap();
    let table = resolve_drawings(&lib);
    let mut sym = instance("U?", "Lib:Box", (100, 100, 0), 1, None);
    sym.uuid = Some("u".to_string());
    let mut all = Vec::new();
    for (_, page, inst) in &children {
        all.extend(sheet_parts(&vec![sym.clone_for_test()], &insts, page, inst, &lib, &table));
    }
    let ents = part_table(all);

    let find = |r: &str| &ents.iter().find(|(_, e)| e.reference.as_str() == r).unwrap().1;
    assert_eq!(ents.len(), 2);
    assert_eq!(find("U1").sheet.as_ref().map(|p| p.as_str()), Some("Port A"));
    assert_eq!(find("U2").sheet.as_ref().map(|p| p.as_str()), Some("Port B"));
    // Both instances still get the drawing-centered position.
    assert_eq!(find("U2").at, Some(mm(105, 90)));
}

trait CloneForTest {
    fn clone_for_test(&self) -> Self;
}

impl CloneForTest for SchSymbol {
    fn clone_for_test(&self) -> Self {
        SchSymbol {
            lib_id: self.lib_id.clone(),
            at: self.at,
            angle: self.angle,
            mirror: self.mirror.clone(),
            unit: self.unit,
            uuid: self.uuid.clone(),
            reference: self.reference.clone(),
            value: self.value.clone(),
            properties: self.properties.clone(),
        }
    }
}

#[test]
fn parts_carry_sorted_tracked_properties_and_pins() {
    let mut sym = instance("J1", "Lib:Quad", (100, 100, 0), 3, None);
    sym.properties.push(("MPN".to_string(), "X1".to_string()));
    sym.properties.push(("Datasheet".to_string(), "http://x".to_string()));
    sym.properties.push(("LCSC".to_string(), "C1".to_string()));
    sym.properties.push(("MPN".to_string(), "X2".to_string()));
    sym.properties.push(("Note".to_string(), "~".to_string()));
    let e = entities(vec![sym]);
    let part = &e[0].1;
    assert_eq!(e[0].0.as_str(), "//J1");
    let props: Vec<(&str, &str)> = part.properties.iter().map(|(k, v)| (k.as_str(), v.as_str())).collect();
    // Sorted by name, the later MPN wins, untracked and placeholder values drop.
    assert_eq!(props, vec![("LCSC", "C1"), ("MPN", "X2")]);
    let pins: Vec<(&str, Point)> = part.pins.iter().map(|(p, at)| (p.as_str(), *at)).collect();
    assert_eq!(pins, vec![("1", mm(140, 100)), ("2", mm(144, 96)), ("3", mm(170, 30))]);
    let hidden: Vec<&str> = part.hidden_pins.iter().map(|p| p.as_str()).collect();
    assert_eq!(hidden, vec!["3"]);
}

#[test]
fn power_symbols_and_instances_without_reference_make_no_part() {
    let mut flag = instance("#PWR01", "Lib:One", (10, 10, 0), 1, None);
    flag.uuid = Some("p".to_string());
    let mut bare = instance("U9", "Lib:One", (10, 10, 0), 1, None);
    bare.reference = None;
    let mut anonymous = instance("U8", "Lib:One", (10, 10, 0), 1, None);
    anonymous.uuid = None;
    assert!(entities(vec![flag, bare, anonymous]).is_empty());
}

#[test]
fn instance_reference_and_unit_override_the_symbol_own() {
    let lib = library();
    let table = resolve_drawings(&lib);
    let sym = instance("Q?", "Lib:Quad", (100, 100, 0), 1, None);
    let insts = vec![(
        "Q?".to_string(),
        vec![
            SymInstance { path: Some("/other".to_string()), reference: Some("Q7".to_string()), unit: Some(1) },
            SymInstance { path: Some("/".to_string()), reference: Some("Q5".to_string()), unit: Some(2) },
        ],
    )];
    let parts = sheet_parts(&vec![sym], &insts, &PageName::new("Root sheet"), "/", &lib, &table);
    assert_eq!(parts.len(), 1);
    assert_eq!(parts[0].1.reference.as_str(), "Q5");
    assert_eq!(parts[0].1.at, Some(mm(112, 98)));
}

#[test]
fn lengths_read_in_millimetres() {
    assert_eq!(nm_of("1.27"), Some(1_270_000));
    assert_eq!(nm_of("-2.54"), Some(-2_540_000));
    assert_eq!(nm_of("+3"), Some(3_000_000));
    assert_eq!(nm_of("100"), Some(100_000_000));
    assert_eq!(nm_of(".5"), Some(500_000));
    assert_eq!(nm_of("7."), Some(7_000_000));
    assert_eq!(nm_of("1.2345678"), Some(1_234_567));
    assert_eq!(nm_of("2147.483647"), Some(i32::MAX));
    assert_eq!(nm_of("-2147.483648"), Some(i32::MIN));
    assert_eq!(nm_of("2147.483648"), None);
    assert_eq!(nm_of("3000"), None);
    assert_eq!(nm_of("."), None);
    assert_eq!(nm_of(""), None);
    assert_eq!(nm_of("1e3"), None);
    assert_eq!(nm_of("1.2.3"), None);
}

#[test]
fn sub_symbol_names_give_their_unit() {
    assert_eq!(unit_number_of(&Some("Quad_2_1".to_string())), 2);
    assert_eq!(unit_number_of(&Some("My_Part_3_1".to_string())), 3);
    assert_eq!(unit_number_of(&Some("Box_0_1".to_string())), 0);
    assert_eq!(unit_number_of(&Some("Box".to_string())), 0);
    assert_eq!(unit_number_of(&Some("Box_x_1".to_string())), 0);
    assert_eq!(unit_number_of(&None), 0);
}

#[test]
fn only_quarter_turns_place_a_point() {
    let anchor = mm(100, 100);
    assert_eq!(sheet_pos(anchor, 90_000_000_000, &None, mm(5, 10)), Some(mm(90, 95)));
    assert_eq!(sheet_pos(anchor, -90_000_000_000, &None, mm(5, 10)), Some(mm(110, 105)));
    assert_eq!(sheet_pos(anchor, 450_000_000_000, &None, mm(5, 10)), Some(mm(90, 95)));
    assert_eq!(sheet_pos(anchor, 45_000_000_000, &None, mm(5, 10)), None);
}

#[test]
fn board_outline_box_takes_edge_cuts_only() {
    let g = |token: &str, layer: &str, start: Option<Point>, end: Option<Point>, center: Option<Point>| BoardGraphic {
        token: token.to_string(),
        layer: Some(layer.to_string()),
        start,
        end,
        center,
        at: None,
    };
    let outline = vec![
        g("gr_line", "Edge.Cuts", Some(mm(10, 10)), Some(mm(60, 10)), None),
        g("gr_line", "Edge.Cuts", Some(mm(60, 10)), Some(mm(60, 40)), None),
        g("gr_line", "F.SilkS", Some(mm(0, 0)), Some(mm(200, 200)), None),
        g("gr_circle", "Edge.Cuts", None, Some(mm(73, 40)), Some(mm(70, 44))),
    ];
    // The circle of radius 5 around (70, 44) reaches out to (75, 49).
    assert_eq!(
        edge_bbox(&outline),
        Some(Bbox { min_x: 10 * MM, min_y: 10 * MM, max_x: 75 * MM, max_y: 49 * MM })
    );
    assert_eq!(edge_bbox(&vec![]), None);
}

#[test]
fn footprints_become_parts_keyed_by_uuid() {
    let fp = |uuid: Option<&str>, reference: Option<&str>, x: i32| Footprint {
        uuid: uuid.map(|s| s.to_string()),
        reference: reference.map(|s| s.to_string()),
        value: Some("10k".to_string()),
        lib_id: Some("R:0603".to_string()),
        at: Some(mm(x, 5)),
        rotation: None,
        layer: Some("F.Cu".to_string()),
    };
    let parts = board_parts(&vec![
        fp(Some("b"), Some("R2"), 1),
        fp(None, Some("R9"), 2),
        fp(Some("c"), None, 3),
        fp(Some("a"), Some("R1"), 4),
        fp(Some("b"), Some("R3"), 5),
    ]);
    assert_eq!(parts.len(), 3);
    let table = part_table(parts);
    let keys: Vec<&str> = table.iter().map(|(k, _)| k.as_str()).collect();
    assert_eq!(keys, vec!["a", "b"]);
    // A later footprint of the same UUID replaces the earlier one.
    assert_eq!(table[1].1.reference.as_str(), "R3");
    assert_eq!(table[1].1.rotation, 0);
    assert_eq!(table[1].1.layer.as_ref().map(|l| l.as_str()), Some("F.Cu"));
}

#[test]
fn unreadable_schematic_text_is_an_error() {
    assert!(schematic_symbols("(kicad_sch (lib_symbols").is_err());
}

#[test]
fn property_changes_hint_at_a_different_part() {
    // Read from the placed symbols, then diffed: the whole way a sheet's
    // properties travel.
    let build = |mpn: &str, datasheet: &str, extra: &[(&str, &str)]| {
        let mut sym = instance("U1", "Lib:Box", (10, 10, 0), 1, None);
        sym.properties.push(("MPN".to_string(), mpn.to_string()));
        sym.properties.push(("Datasheet".to_string(), datasheet.to_string()));
        for (k, v) in extra {
            sym.properties.push((k.to_string(), v.to_string()));
        }
        entities(vec![sym])
    };
    let a = build("LM339", "http://old", &[]);
    // The filled-in LCSC field reports; the documentation-only datasheet
    // edit and the empty addition stay silent.
    let b = build("LM339LV", "http://new", &[("LCSC", "C123"), ("Empty", "")]);
    let changes = diff_entities(&ProjectLabel::new("p"), Kind::Sch, &a, &b);
    let details: Vec<&str> = changes.iter().map(|c| c.detail.as_str()).collect();
    assert_eq!(details, ["LCSC: - -> C123", "MPN: LM339 -> LM339LV"]);
    assert!(changes.iter().all(|c| c.kind == ChangeKind::PropertyChanged));
}

#[test]
fn sheet_walk_visits_children_next_to_their_parent_and_stops_at_loops() {
    let sheet = |name: &str, file: &str, uuid: &str| SchSheet {
        name: Some(name.to_string()),
        filename: Some(file.to_string()),
        uuid: Some(uuid.to_string()),
    };
    let mut walk = SheetWalk::start("proj/root.kicad_sch", &Some("r".to_string()));
    let root = walk.next_visit().unwrap();
    assert_eq!((root.file.as_str(), root.page.as_str(), root.inst.as_str()), ("proj/root.kicad_sch", "Root sheet", "/r"));
    let names = walk.enter(
        &root,
        &vec![sheet("Power", "power.kicad_sch", "s1"), sheet("IO", "sub/io.kicad_sch", "s2"), SchSheet {
            name: None,
            filename: Some("x.kicad_sch".to_string()),
            uuid: Some("s3".to_string()),
        }],
    );
    let got: Vec<(&str, &str)> = names.iter().map(|(i, n)| (i.as_str(), n.as_str())).collect();
    assert_eq!(got, vec![("/r/s1", "Power"), ("/r/s2", "IO")]);

    // The last queued sheet comes first.
    let io = walk.next_visit().unwrap();
    assert_eq!((io.file.as_str(), io.page.as_str(), io.inst.as_str()), ("proj/sub/io.kicad_sch", "IO", "/r/s2"));
    let ancestry: Vec<&str> = io.ancestry.iter().map(|a| a.as_str()).collect();
    assert_eq!(ancestry, vec!["proj/root.kicad_sch"]);

    // A sheet naming the file of a sheet above it ("./io" is "io") is not
    // followed; a path through ".." is compared as written, component by
    // component, and so counts as another file.
    walk.enter(&io, &vec![sheet("Again", "../root.kicad_sch", "s4"), sheet("Self", "./io.kicad_sch", "s5")]);
    let again = walk.next_visit().unwrap();
    assert_eq!(again.file, "proj/sub/../root.kicad_sch");
    assert_eq!(again.inst, "/r/s2/s4");
    let power = walk.next_visit().unwrap();
    assert_eq!((power.file.as_str(), power.inst.as_str()), ("proj/power.kicad_sch", "/r/s1"));
    assert!(walk.next_visit().is_none());
}

#[test]
fn sheet_walk_joins_paths_like_the_file_system() {
    let mut walk = SheetWalk::start("/top.kicad_sch", &None);
    let root = walk.next_visit().unwrap();
    assert_eq!(root.inst, "/");
    let one = |name: &str, file: &str| {
        vec![SchSheet { name: Some(name.to_string()), filename: Some(file.to_string()), uuid: Some("u".to_string()) }]
    };
    walk.enter(&root, &one("A", "a.kicad_sch"));
    assert_eq!(walk.next_visit().unwrap().file, "/a.kicad_sch");
    let mut walk = SheetWalk::start("top.kicad_sch", &None);
    let root = walk.next_visit().unwrap();
    walk.enter(&root, &one("B", "/abs/b.kicad_sch"));
    assert_eq!(walk.next_visit().unwrap().file, "/abs/b.kicad_sch");
    walk.enter(&root, &one("C", "c.kicad_sch"));
    assert_eq!(walk.next_visit().unwrap().file, "c.kicad_sch");
}
