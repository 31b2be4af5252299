use kirin::ids::{PageName, ProjectLabel, Reference};
use kirin::kicad::{Kind, Status};
use kirin::pages::{
    board_plan, compare_pages, library_plan, locate, localize, sheet_image_of, sheet_moves, sheet_plan,
};
use kirin::semantic::{Change, ChangeKind, Frac, Point, Ratio};

fn names(list: &[&str]) -> Vec<String> {
    list.iter().map(|s| s.to_string()).collect()
}

#[test]
fn board_pages_follow_the_stackup() {
    let base = names(&["anchor-B_Cu.svg", "anchor-Edge_Cuts.svg", "anchor-F_Cu.svg", "anchor-F_Silkscreen.svg"]);
    let head = names(&["anchor-F_Cu.svg", "anchor-In1_Cu.svg", "anchor-B_Cu.svg", "anchor-User_1.svg"]);
    let plan = board_plan("anchor", "anchor", &base, &head);
    let order: Vec<&str> = plan.iter().map(|p| p.name.as_str()).collect();
    assert_eq!(order, vec!["F.Cu", "In1.Cu", "B.Cu", "F.SilkS", "Edge.Cuts", "User.1"]);
    let f = &plan[0];
    assert_eq!(f.rel, "anchor/pcb/anchor-F_Cu.svg");
    assert!(f.in_base && f.in_head);
    // Only the base side has an outline; the outline page carries none.
    assert_eq!(f.edge_base.as_deref(), Some("a/svg/anchor/pcb/anchor-Edge_Cuts.svg"));
    assert_eq!(f.edge_head, None);
    assert_eq!(plan[4].edge_base, None);
    assert!(!plan[1].in_base && plan[1].in_head);
}

#[test]
fn renamed_sheets_move_to_their_head_names() {
    let base = names(&["p.svg", "p-Power.svg", "p-Old Name.svg"]);
    let head = names(&["p.svg", "p-power.svg", "p-New Name.svg"]);
    let renames = vec![(PageName::new("Old Name"), PageName::new("New Name"))];
    let moves = sheet_moves(&base, &head, &renames, "p");
    let got: Vec<(&str, &str)> = moves.iter().map(|(a, b)| (a.as_str(), b.as_str())).collect();
    assert_eq!(got, vec![("p-Old Name.svg", "p-New Name.svg")]);

    let plan = sheet_plan("p", "proj", &base, &head, &moves);
    let order: Vec<(&str, bool, bool)> = plan.iter().map(|p| (p.name.as_str(), p.in_base, p.in_head)).collect();
    // The root sheet first, then by lowercase name, then by file name.
    assert_eq!(
        order,
        vec![("Root sheet", true, true), ("New Name", true, true), ("Power", true, false), ("power", false, true)]
    );
    assert_eq!(plan[1].rel, "proj/sch/p-New Name.svg");
}

#[test]
fn library_pages_are_named_by_file() {
    let a = names(&["Amp_unit1.svg", "Amp_unit2.svg", "R.svg"]);
    let b = names(&["Amp_unit1.svg", "C_unit1.svg"]);
    let plan = library_plan(Kind::Sym, "lib_sym", &a, &b);
    let got: Vec<&str> = plan.iter().map(|p| p.name.as_str()).collect();
    assert_eq!(got, vec!["Amp unit 1", "Amp unit 2", "C", "R"]);
    assert_eq!(plan[2].rel, "lib_sym/sym/C_unit1.svg");
    let fp = library_plan(Kind::Fp, "lib.pretty", &names(&["R_0603.svg"]), &vec![]);
    assert_eq!(fp[0].name.as_str(), "R_0603");
    assert!(fp[0].in_base && !fp[0].in_head);
}

#[test]
fn compared_pages_keep_what_differs() {
    let a = names(&["x.svg", "y.svg"]);
    let plan = library_plan(Kind::Fp, "l", &a, &a);
    let label = ProjectLabel::new("l");
    let statuses = vec![None, Some(Status::Modified)];
    let kept = compare_pages(&label, Kind::Fp, &plan, &statuses, false);
    assert_eq!(kept.len(), 1);
    assert_eq!(kept[0].name.as_str(), "y");
    assert_eq!(kept[0].status, Status::Modified);
    let all = compare_pages(&label, Kind::Fp, &plan, &statuses, true);
    assert_eq!(all.len(), 2);
    assert_eq!(all[0].status, Status::Unchanged);
    assert_eq!(all[0].parts, None);
}

#[test]
fn sheet_images_and_locations() {
    assert_eq!(sheet_image_of("anchor", &PageName::new("Root sheet")), "anchor.svg");
    assert_eq!(sheet_image_of("anchor", &PageName::new("Power")), "anchor-Power.svg");
    let p = Point { x: 50_000_000, y: 25_000_000 };
    assert_eq!(
        locate(Some(p), Some((200_000_000, 100_000_000))),
        Some(Frac { x: Ratio { num: 50_000_000, den: 200_000_000 }, y: Ratio { num: 25_000_000, den: 100_000_000 } })
    );
    assert_eq!(locate(Some(p), Some((0, 100))), None);
    assert_eq!(locate(None, Some((10, 10))), None);

    let mut c = Change {
        project: ProjectLabel::new("p"),
        scope: Kind::Sch,
        sheet: Some(PageName::new("Root sheet")),
        kind: ChangeKind::Moved,
        reference: Reference::new("R1"),
        detail: "Moved 1.00 mm".to_string(),
        layer: None,
        at_base: Some(p),
        at_head: None,
        frac_base: None,
        frac_head: None,
    };
    // The base side has no image of the sheet: its markers go on the head's.
    localize(&mut c, None, Some((100_000_000, 100_000_000)));
    assert_eq!(
        c.frac_base,
        Some(Frac { x: Ratio { num: 50_000_000, den: 100_000_000 }, y: Ratio { num: 25_000_000, den: 100_000_000 } })
    );
    assert_eq!(c.frac_head, None);
}

#[test]
fn sheets_sort_by_lowercase_name() {
    let files = names(&["p.svg", "p-beta.svg", "p-Gamma.svg", "p-Alpha.svg"]);
    let plan = sheet_plan("p", "p", &files, &files, &vec![]);
    let order: Vec<&str> = plan.iter().map(|p| p.name.as_str()).collect();
    // Byte order would put the capitalised names before "beta".
    assert_eq!(order, vec!["Root sheet", "Alpha", "beta", "Gamma"]);
}
