use kirin::ids::{EntityId, NetName, PageName, Pin, ProjectLabel, Reference};
use kirin::netlist::Net;
use kirin::semantic::connectivity::{diff_connectivity, short_net};
use kirin::semantic::{Change, Entity, Point};

const MM: i32 = 1_000_000;

/// Library symbols the placed parts below draw from, as the schematic
/// reader sees them: `Box` is a plain body centered (5, 10) off its anchor;
/// `Quad` unit 3 has pins "1" at (40, 0) and "2" at (44, 4) and a hidden
/// pin "3"; `One` has a single pin "1" at its anchor.
fn part(reference: &str, lib: &str, anchor: (i32, i32), unit: i32) -> (EntityId, Entity) {
    let (ax, ay) = anchor;
    let pt = |x: i32, y: i32| Point { x: (ax + x) * MM, y: (ay - y) * MM };
    let (center, pins, hidden): (Point, Vec<(Pin, Point)>, Vec<Pin>) = match (lib, unit) {
        ("Lib:Box", _) => (pt(5, 10), vec![], vec![]),
        ("Lib:Quad", 1) => (pt(2, 2), vec![], vec![]),
        ("Lib:Quad", 2) => (pt(12, 2), vec![], vec![]),
        ("Lib:Quad", _) => (
            pt(22, 2),
            vec![(Pin::new("1"), pt(40, 0)), (Pin::new("2"), pt(44, 4)), (Pin::new("3"), pt(70, 70))],
            vec![Pin::new("3")],
        ),
        ("Lib:One", _) => (pt(0, 0), vec![(Pin::new("1"), pt(0, 0))], vec![]),
        _ => panic!("unknown symbol"),
    };
    (
        EntityId::from_string(format!("//{reference}")),
        Entity {
            reference: Reference::new(reference),
            value: Some("v".to_string()),
            lib_id: Some(lib.to_string()),
            at: Some(center),
            rotation: 0,
            sheet: Some(PageName::new("Root sheet")),
            layer: None,
            properties: vec![],
            pins,
            hidden_pins: hidden,
        },
    )
}

fn parts(list: Vec<(EntityId, Entity)>) -> Vec<(EntityId, Entity)> {
    let mut list = list;
    list.sort_by(|a, b| a.0.cmp(&b.0));
    list
}

fn net(name: &str, nodes: &[(&str, &str)]) -> Net {
    Net {
        name: NetName::new(name),
        nodes: nodes.iter().map(|&(r, p)| (Reference::new(r), Pin::new(p))).collect(),
    }
}

fn rows(changes: &[Change]) -> Vec<String> {
    changes.iter().map(|c| format!("{} {}", c.reference.as_str(), c.detail)).collect()
}

fn p() -> ProjectLabel {
    ProjectLabel::new("p")
}

#[test]
fn flags_only_the_pin_that_moved() {
    let e = parts(vec![
        part("U1", "Lib:Box", (100, 100), 1),
        part("U2", "Lib:Box", (50, 50), 1),
        part("U3", "Lib:Box", (20, 20), 1),
    ]);
    let base = vec![
        net("/sheet/A", &[("U1", "1"), ("U2", "1"), ("U3", "1")]),
        net("B", &[("U1", "2"), ("U2", "2")]),
    ];
    // U3.1 moves from A to B; A also gets renamed, which is not a change.
    let head = vec![
        net("/sheet/A_RENAMED", &[("U1", "1"), ("U2", "1")]),
        net("B", &[("U1", "2"), ("U2", "2"), ("U3", "1")]),
    ];
    let changes = diff_connectivity(&p(), &base, &head, &e, &e);
    assert_eq!(changes.len(), 1);
    assert_eq!(changes[0].reference.as_str(), "U3");
    assert_eq!(changes[0].detail, "Pin 1: A -> B");
}

#[test]
fn ignores_pins_of_single_revision_parts() {
    let base_ents = parts(vec![part("U1", "Lib:Box", (100, 100), 1), part("U2", "Lib:Box", (50, 50), 1)]);
    let head_ents = parts(vec![
        part("U1", "Lib:Box", (100, 100), 1),
        part("U2", "Lib:Box", (50, 50), 1),
        part("U9", "Lib:Box", (10, 10), 1),
    ]);
    let base = vec![net("A", &[("U1", "1"), ("U2", "1")])];
    let head = vec![net("A", &[("U1", "1"), ("U2", "1"), ("U9", "1")])];
    let changes = diff_connectivity(&p(), &base, &head, &base_ents, &head_ents);
    assert!(changes.is_empty());
}

#[test]
fn reports_disconnections_on_both_ends() {
    let e = parts(vec![part("U1", "Lib:Box", (100, 100), 1), part("U2", "Lib:Box", (50, 50), 1)]);
    let base = vec![net("A", &[("U1", "1"), ("U2", "1")])];
    let changes = diff_connectivity(&p(), &base, &vec![], &e, &e);
    assert_eq!(changes.len(), 2);
    assert!(changes.iter().all(|c| c.detail == "Pin 1: A -> unconnected"));
}

#[test]
fn pins_vanishing_with_a_symbol_swap_stay_silent() {
    // J1's new symbol has no pin 2: that pin left with the swap, which
    // is already reported on J1 itself. U1's pin genuinely dangles.
    let base_e = parts(vec![part("J1", "Lib:Quad", (100, 100), 3), part("U1", "Lib:Quad", (50, 50), 3)]);
    let head_e = parts(vec![part("J1", "Lib:One", (100, 100), 1), part("U1", "Lib:Quad", (50, 50), 3)]);
    let base = vec![net("A", &[("J1", "2"), ("U1", "1")])];
    let changes = diff_connectivity(&p(), &base, &vec![], &base_e, &head_e);
    assert_eq!(changes.len(), 1);
    assert_eq!(changes[0].reference.as_str(), "U1");
    assert_eq!(changes[0].detail, "Pin 1: A -> unconnected");
}

#[test]
fn net_names_are_unescaped_for_display() {
    assert_eq!(short_net(&NetName::new("/Ethernet bridge/RXC{slash}B-CAST")), "RXC/B-CAST");
    assert_eq!(short_net(&NetName::new("A{colon}B{space}C")), "A:B C");
    // Overbar markup is display syntax, not an escape.
    assert_eq!(short_net(&NetName::new("POWER.~{OUT_DISABLE}")), "POWER.~{OUT_DISABLE}");
    assert_eq!(short_net(&NetName::new("{unbalanced")), "{unbalanced");
}

#[test]
fn disconnection_storm_collapses_per_part() {
    // Every connection of J1 dies (its symbol was gutted): three or
    // more same-fate pins fold into one row, while each counterpart
    // keeps its precise per-pin row.
    let e = parts(vec![
        part("J1", "Lib:Box", (100, 100), 1),
        part("U1", "Lib:Box", (50, 50), 1),
        part("U2", "Lib:Box", (60, 60), 1),
        part("U3", "Lib:Box", (70, 70), 1),
    ]);
    let base = vec![
        net("A", &[("J1", "1"), ("U1", "1")]),
        net("B", &[("J1", "2"), ("U2", "1")]),
        net("C", &[("J1", "3"), ("U3", "1")]),
    ];
    let changes = diff_connectivity(&p(), &base, &vec![], &e, &e);
    let details = rows(&changes);
    assert!(details.contains(&"J1 3 pins disconnected".to_string()));
    assert!(details.contains(&"U1 Pin 1: A -> unconnected".to_string()));
    assert_eq!(changes.len(), 4);

    // The reverse direction reads "connected".
    let reversed = diff_connectivity(&p(), &vec![], &base, &e, &e);
    assert!(reversed.iter().any(|c| c.reference.as_str() == "J1" && c.detail == "3 pins connected"));
}

#[test]
fn pin_swap_flags_the_swapped_pins() {
    // Two nets trade their U1/U2 pins (the MDC/MDIO-crossed case). The
    // structural match ties, so the kept names decide which net is
    // which, and only the swapped pins are flagged.
    let e = parts(vec![
        part("U1", "Lib:Box", (100, 100), 1),
        part("U2", "Lib:Box", (80, 80), 1),
        part("M", "Lib:Box", (50, 50), 1),
        part("R", "Lib:Box", (20, 20), 1),
    ]);
    let base = vec![
        net("MDC", &[("U1", "4"), ("U2", "4"), ("M", "1")]),
        net("MDIO", &[("U1", "5"), ("U2", "5"), ("M", "2"), ("R", "1")]),
    ];
    let head = vec![
        net("MDC", &[("U1", "5"), ("U2", "5"), ("M", "1")]),
        net("MDIO", &[("U1", "4"), ("U2", "4"), ("M", "2"), ("R", "1")]),
    ];
    let changes = diff_connectivity(&p(), &base, &head, &e, &e);
    let mut rows = rows(&changes);
    rows.sort();
    assert_eq!(
        rows,
        ["U1 Pin 4: MDC -> MDIO", "U1 Pin 5: MDIO -> MDC", "U2 Pin 4: MDC -> MDIO", "U2 Pin 5: MDIO -> MDC"]
    );
}

#[test]
fn series_insertion_names_the_net_through_the_new_part() {
    // A new part D is inserted between M's pin and the rest of the net:
    // the pin keeps its net name but now reaches only the added part.
    let e_base = parts(vec![
        part("M", "Lib:Box", (100, 100), 1),
        part("U1", "Lib:Box", (50, 50), 1),
        part("U2", "Lib:Box", (20, 20), 1),
    ]);
    let e_head = parts(vec![
        part("M", "Lib:Box", (100, 100), 1),
        part("U1", "Lib:Box", (50, 50), 1),
        part("U2", "Lib:Box", (20, 20), 1),
        part("D", "Lib:Box", (70, 70), 1),
    ]);
    let base = vec![net("EN", &[("M", "5"), ("U1", "1"), ("U2", "1")])];
    let head = vec![
        net("EN", &[("M", "5"), ("D", "1")]),
        net("EN_SW", &[("D", "2"), ("U1", "1"), ("U2", "1")]),
    ];
    let changes = diff_connectivity(&p(), &base, &head, &e_base, &e_head);
    let m = changes.iter().find(|c| c.reference.as_str() == "M").unwrap();
    assert_eq!(m.detail, "Pin 5: EN -> EN (added parts)");
}

#[test]
fn rework_keeps_the_named_net_and_flags_the_leavers() {
    // Most of ENABLE's pins move to a fresh net, but it keeps its name
    // and its MCU pin: the pins that left are flagged, not the one that stayed.
    let e = parts(vec![
        part("M", "Lib:Box", (100, 100), 1),
        part("R", "Lib:Box", (80, 80), 1),
        part("D", "Lib:Box", (50, 50), 1),
        part("T", "Lib:Box", (20, 20), 1),
        part("G", "Lib:Box", (10, 10), 1),
    ]);
    let base = vec![
        net("ENABLE", &[("M", "5"), ("R", "1"), ("D", "2"), ("T", "1")]),
        net("GND", &[("R", "2"), ("G", "1")]),
    ];
    let head = vec![
        net("ENABLE", &[("M", "5"), ("R", "2")]),
        net("GND", &[("R", "1"), ("G", "1")]),
        net("Net-(D-K)", &[("D", "2"), ("T", "1")]),
    ];
    let changes = diff_connectivity(&p(), &base, &head, &e, &e);
    let mut rows = rows(&changes);
    rows.sort();
    assert_eq!(
        rows,
        [
            "D Pin 2: ENABLE -> Net-(D-K)",
            "R Pin 1: ENABLE -> GND",
            "R Pin 2: GND -> ENABLE",
            "T Pin 1: ENABLE -> Net-(D-K)",
        ]
    );
}

#[test]
fn ignores_hidden_pins() {
    // Quad unit 3's pin "3" is hidden (a stacked pin); its membership
    // moving between nets is not a reportable connection change.
    let e = parts(vec![
        part("Q3", "Lib:Quad", (100, 100), 3),
        part("U1", "Lib:Box", (50, 50), 1),
        part("U2", "Lib:Box", (20, 20), 1),
    ]);
    let base = vec![net("A", &[("Q3", "3"), ("U1", "1")]), net("B", &[("U2", "1"), ("U1", "2")])];
    let head = vec![net("A", &[("U1", "1"), ("U2", "1")]), net("B", &[("Q3", "3"), ("U1", "2")])];
    let changes = diff_connectivity(&p(), &base, &head, &e, &e);
    assert!(changes.iter().all(|c| c.reference.as_str() != "Q3"));
}

#[test]
fn marker_points_at_the_pin() {
    // Quad unit 3 has visible pins "1" at (40, 0) and "2" at (44, 4).
    let e = parts(vec![
        part("Q3", "Lib:Quad", (100, 100), 3),
        part("U1", "Lib:Box", (50, 50), 1),
        part("U2", "Lib:Box", (20, 20), 1),
    ]);
    let base = vec![net("A", &[("Q3", "2"), ("U1", "1")]), net("B", &[("U2", "1"), ("U1", "2")])];
    let head = vec![net("A", &[("U1", "1"), ("U2", "1")]), net("B", &[("Q3", "2"), ("U1", "2")])];
    let changes = diff_connectivity(&p(), &base, &head, &e, &e);
    let q = changes.iter().find(|c| c.reference.as_str() == "Q3").unwrap();
    assert_eq!(q.at_head, Some(Point { x: 144 * MM, y: 96 * MM }));
}
