use kirin::kicad::Project;
use kirin::tree::{
    discover_projects, file_changed, footprint_changes, is_under, project_file_path, project_files,
    schematics_changed, symbol_changes,
};

fn paths(list: &[&str]) -> Vec<String> {
    list.iter().map(|s| s.to_string()).collect()
}

fn blobs(list: &[(&str, &str)]) -> Vec<(String, String)> {
    list.iter().map(|(p, o)| (p.to_string(), o.to_string())).collect()
}

fn pairs(v: &[(String, String)]) -> Vec<(&str, &str)> {
    v.iter().map(|(p, o)| (p.as_str(), o.as_str())).collect()
}

#[test]
fn projects_are_found_sorted_and_once() {
    let base = paths(&["b/board.kicad_pro", "a-b/x.kicad_pro", "README.md", "top.kicad_pro"]);
    let head = paths(&["a/b/y.kicad_pro", "b/board.kicad_pro", "b/.kicad_pro", "a/z.kicad_sch"]);
    let found = discover_projects(&base, &head, None);
    let got: Vec<(&str, &str)> = found.iter().map(|p| (p.dir.as_str(), p.name.as_str())).collect();
    // Directories compare component by component: "a/b" sorts before "a-b".
    assert_eq!(got, vec![("", "top"), ("a/b", "y"), ("a-b", "x"), ("b", "board")]);
}

#[test]
fn project_filter_is_a_path_prefix() {
    let base = paths(&["anchor/anchor.kicad_pro", "anchorage/x.kicad_pro", "other/o.kicad_pro"]);
    let found = discover_projects(&base, &vec![], Some("anchor"));
    let got: Vec<&str> = found.iter().map(|p| p.name.as_str()).collect();
    assert_eq!(got, vec!["anchor"]);
    assert!(is_under("anchor/sub/a.kicad_sch", "anchor/"));
    assert!(is_under("anchor/sub/a.kicad_sch", "anchor//sub"));
    assert!(!is_under("anchor/sub/a.kicad_sch", "./anchor"));
    assert!(!is_under("anchor/sub/a.kicad_sch", "/anchor"));
    assert!(is_under("anchor/sub/a.kicad_sch", ""));
}

#[test]
fn schematic_changes_are_seen_by_blob() {
    let base = blobs(&[("p/a.kicad_sch", "1"), ("p/b.kicad_sch", "2"), ("p/p.kicad_pcb", "9"), ("q/c.kicad_sch", "3")]);
    let same = blobs(&[("q/c.kicad_sch", "4"), ("p/b.kicad_sch", "2"), ("p/a.kicad_sch", "1"), ("p/p.kicad_pcb", "8")]);
    assert!(!schematics_changed(&base, &same, "p"));
    assert!(schematics_changed(&base, &same, "q"));
    let dropped = blobs(&[("p/a.kicad_sch", "1")]);
    assert!(schematics_changed(&base, &dropped, "p"));
    assert!(file_changed(&base, &same, "p/p.kicad_pcb"));
    assert!(!file_changed(&base, &same, "p/a.kicad_sch"));
    assert!(!file_changed(&base, &same, "p/none.kicad_pcb"));
}

#[test]
fn project_files_and_work_copy() {
    let p = Project { dir: "boards/main".to_string(), name: "main".to_string() };
    assert_eq!(project_file_path(&p, "kicad_pcb"), "boards/main/main.kicad_pcb");
    let root = Project { dir: String::new(), name: "top".to_string() };
    assert_eq!(project_file_path(&root, "kicad_sch"), "top.kicad_sch");
    let list = blobs(&[
        ("boards/main/main.kicad_pro", "1"),
        ("boards/main/main.kicad_sch", "2"),
        ("boards/main/notes.txt", "3"),
        ("boards/mainx/x.kicad_pcb", "4"),
        ("boards/main/sub/s.kicad_sch", "5"),
    ]);
    let files = project_files(&list, "boards/main");
    assert_eq!(
        pairs(&files),
        vec![
            ("boards/main/main.kicad_pro", "1"),
            ("boards/main/main.kicad_sch", "2"),
            ("boards/main/sub/s.kicad_sch", "5")
        ]
    );
}

#[test]
fn footprint_libraries_list_changed_footprints_per_side() {
    let base = blobs(&[
        ("lib/a.pretty/R.kicad_mod", "1"),
        ("lib/a.pretty/C.kicad_mod", "2"),
        ("lib/b.pretty/L.kicad_mod", "3"),
        ("lib/loose.kicad_mod", "4"),
    ]);
    let head = blobs(&[
        ("lib/a.pretty/R.kicad_mod", "1"),
        ("lib/a.pretty/C.kicad_mod", "7"),
        ("lib/a.pretty/D.kicad_mod", "8"),
        ("lib/b.pretty/L.kicad_mod", "3"),
        ("lib/loose.kicad_mod", "5"),
    ]);
    let changes = footprint_changes(&base, &head, None);
    assert_eq!(changes.len(), 1);
    assert_eq!(changes[0].lib, "lib/a.pretty");
    assert_eq!(pairs(&changes[0].base), vec![("lib/a.pretty/C.kicad_mod", "2")]);
    assert_eq!(
        pairs(&changes[0].head),
        vec![("lib/a.pretty/C.kicad_mod", "7"), ("lib/a.pretty/D.kicad_mod", "8")]
    );
    assert!(footprint_changes(&base, &head, Some("other")).is_empty());
}

#[test]
fn symbol_libraries_that_differ_are_listed() {
    let base = blobs(&[("sym/a.kicad_sym", "1"), ("sym/b.kicad_sym", "2"), ("sym/c.kicad_sym", "3")]);
    let head = blobs(&[("sym/a.kicad_sym", "1"), ("sym/b.kicad_sym", "9"), ("sym/d.kicad_sym", "4")]);
    let changes = symbol_changes(&base, &head, None);
    let got: Vec<(&str, Option<&str>, Option<&str>)> = changes
        .iter()
        .map(|c| (c.lib.as_str(), c.base.as_deref(), c.head.as_deref()))
        .collect();
    assert_eq!(
        got,
        vec![
            ("sym/b.kicad_sym", Some("2"), Some("9")),
            ("sym/c.kicad_sym", Some("3"), None),
            ("sym/d.kicad_sym", None, Some("4")),
        ]
    );
}
