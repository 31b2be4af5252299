use kirin::ids::{PageName, ProjectLabel, Reference};
use kirin::kicad::{
    assign_parts, classify, extract_quoted, keep_referenced, layer_label, layer_names, layer_sort_key, normalize_svg,
    sanitize, sheet_name, symbol_name, wanted_layers, Kind, Page, Project, Status,
};
use kirin::semantic::{Change, ChangeKind};

fn strings(v: &[&str]) -> Vec<String> {
    v.iter().map(|s| s.to_string()).collect()
}

fn page(name: &str, status: Status) -> Page {
    Page {
        project: ProjectLabel::new("p"),
        kind: Kind::Sch,
        name: PageName::new(name),
        rel: format!("p/sch/{name}.svg"),
        status,
        edge_base: None,
        edge_head: None,
        parts: None,
    }
}

#[test]
fn kind_and_status_names() {
    assert_eq!(Kind::Sch.as_str(), "sch");
    assert_eq!(Kind::Pcb.as_str(), "pcb");
    assert_eq!(Kind::Fp.as_str(), "fp");
    assert_eq!(Kind::Sym.as_str(), "sym");
    assert_eq!(Status::Modified.as_str(), "modified");
    assert_eq!(Status::Added.as_str(), "added");
    assert_eq!(Status::Removed.as_str(), "removed");
    assert_eq!(Status::Unchanged.as_str(), "unchanged");
}

#[test]
fn project_label_is_the_dir_or_the_bare_name_at_the_root() {
    let nested = Project { dir: "hw/board".to_string(), name: "anchor".to_string() };
    assert_eq!(nested.label().as_str(), "hw/board");
    let root = Project { dir: String::new(), name: "anchor".to_string() };
    assert_eq!(root.label().as_str(), "anchor");
}

#[test]
fn sanitize_keeps_safe_characters_and_trims_underscores() {
    assert_eq!(sanitize("hw/board v2"), "hw_board_v2");
    assert_eq!(sanitize("__a.b-c__"), "a.b-c");
    assert_eq!(sanitize("///"), "page");
    assert_eq!(sanitize(""), "page");
    assert_eq!(sanitize("Ünïcode"), "n_code");
}

#[test]
fn sheet_names_come_from_exported_files() {
    assert_eq!(sheet_name("anchor.svg", "anchor"), "Root sheet");
    assert_eq!(sheet_name("anchor-Power Supply.svg", "anchor"), "Power Supply");
    assert_eq!(sheet_name("other.svg", "anchor"), "other");
    assert_eq!(sheet_name("anchor-x", "anchor"), "x");
}

#[test]
fn symbol_names_drop_the_unit_of_single_unit_symbols() {
    let all = strings(&["Foo_unit1.svg", "Bar_unit1.svg", "Bar_unit2.svg", "Plain.svg"]);
    assert_eq!(symbol_name("Foo_unit1.svg", &all), "Foo");
    assert_eq!(symbol_name("Bar_unit1.svg", &all), "Bar unit 1");
    assert_eq!(symbol_name("Bar_unit2.svg", &all), "Bar unit 2");
    assert_eq!(symbol_name("Plain.svg", &all), "Plain");
    assert_eq!(symbol_name("Odd_unitX.svg", &all), "Odd_unitX");
    // The last "_unit" splits the name.
    assert_eq!(symbol_name("A_unit_unit3.svg", &all), "A_unit unit 3");
}

#[test]
fn wanted_layers_keep_copper_and_the_default_extras_in_board_order() {
    let all = strings(&["F.Cu", "In1.Cu", "B.Cu", "F.Adhes", "F.SilkS", "Edge.Cuts", "User.1", "B.Mask"]);
    let wanted = wanted_layers(&all);
    assert_eq!(wanted, strings(&["F.Cu", "In1.Cu", "B.Cu", "F.SilkS", "Edge.Cuts", "B.Mask"]));
}

#[test]
fn layer_sort_keys_follow_the_stackup() {
    assert_eq!(layer_sort_key("F.Cu"), (0, 0, "F.Cu".to_string()));
    assert_eq!(layer_sort_key("In2.Cu"), (0, 2, "In2.Cu".to_string()));
    assert_eq!(layer_sort_key("In+7.Cu"), (0, 7, "In+7.Cu".to_string()));
    assert_eq!(layer_sort_key("B.Cu"), (0, 9999, "B.Cu".to_string()));
    assert_eq!(layer_sort_key("F.SilkS"), (1, 0, "F.SilkS".to_string()));
    assert_eq!(layer_sort_key("Edge.Cuts"), (1, 8, "Edge.Cuts".to_string()));
    assert_eq!(layer_sort_key("In.Cu"), (2, 0, "In.Cu".to_string()));
    assert_eq!(layer_sort_key("In99999999999.Cu"), (2, 0, "In99999999999.Cu".to_string()));
    assert_eq!(layer_sort_key("User.1"), (2, 0, "User.1".to_string()));
    let mut names = strings(&["B.Cu", "Edge.Cuts", "In1.Cu", "F.SilkS", "F.Cu", "User.1"]);
    names.sort_by_key(|n| layer_sort_key(n));
    assert_eq!(names, strings(&["F.Cu", "In1.Cu", "B.Cu", "F.SilkS", "Edge.Cuts", "User.1"]));
}

#[test]
fn layer_labels_come_from_exported_file_names() {
    assert_eq!(layer_label("anchor-F_Silkscreen.svg", "anchor"), "F.SilkS");
    assert_eq!(layer_label("anchor-Edge_Cuts.svg", "anchor"), "Edge.Cuts");
    assert_eq!(layer_label("anchor-In1_Cu.svg", "anchor"), "In1.Cu");
}

#[test]
fn quoted_text_is_the_first_quoted_span() {
    assert_eq!(extract_quoted(r#"(0 "F.Cu" signal)"#), Some("F.Cu".to_string()));
    assert_eq!(extract_quoted(r#"no quotes"#), None);
    assert_eq!(extract_quoted(r#"half "open"#), None);
}

#[test]
fn layer_names_are_read_from_the_layers_section() {
    let content = "(kicad_pcb\n  (layers\n    (0 \"F.Cu\" signal)\r\n    (31 \"B.Cu\" signal)\n    (44 \"Edge.Cuts\" user)\n  )\n  (net 0 \"\")\n)\n";
    assert_eq!(layer_names(content), strings(&["F.Cu", "B.Cu", "Edge.Cuts"]));
    assert!(layer_names("(kicad_pcb (net 0 \"x\"))").is_empty());
}

#[test]
fn svgs_compare_without_their_generation_stamp() {
    let a = b"<svg>\n  <title>SVG Image created as a.svg date 2024/01/01</title>\n<rect/>\n</svg>\n";
    let b = b"<svg>\n  <title>SVG Image created as a.svg date 2025/02/02</title>\n<rect/>\n</svg>\n";
    let c = b"<svg>\n<circle/>\n</svg>\n";
    assert_eq!(normalize_svg(a).iter().collect::<String>(), "<svg>\n<rect/>\n</svg>");
    assert_eq!(classify(Some(a), Some(b)), None);
    assert_eq!(classify(Some(a), Some(c)), Some(Status::Modified));
    assert_eq!(classify(Some(a), None), Some(Status::Removed));
    assert_eq!(classify(None, Some(c)), Some(Status::Added));
    assert_eq!(classify(None, None), None);
}

#[test]
fn unchanged_sheets_stay_only_when_a_change_points_at_them() {
    let pages = vec![page("Root sheet", Status::Unchanged), page("Power", Status::Unchanged), page("IO", Status::Modified)];
    let changes = vec![Change {
        project: ProjectLabel::new("p"),
        scope: Kind::Sch,
        sheet: Some(PageName::new("Power")),
        kind: ChangeKind::NetChanged,
        reference: Reference::new("U1"),
        detail: String::new(),
        layer: None,
        at_base: None,
        at_head: None,
        frac_base: None,
        frac_head: None,
    }];
    let kept = keep_referenced(pages, &changes);
    let names: Vec<_> = kept.iter().map(|p| p.name.as_str()).collect();
    assert_eq!(names, ["Power", "IO"]);
}

#[test]
fn pages_get_their_part_totals() {
    let mut pages = vec![page("Root sheet", Status::Modified), page("Power", Status::Modified)];
    let totals = vec![(PageName::new("Power"), 7)];
    assign_parts(&mut pages, &totals);
    assert_eq!(pages[0].parts, None);
    assert_eq!(pages[1].parts, Some(7));
}
