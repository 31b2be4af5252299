use kirin::ids::{PageName, ProjectLabel, Reference};
use kirin::kicad::{Kind, Page, Status};
use kirin::semantic::{Change, ChangeKind};
use kirin::sidebar::Sidebar;

fn page(project: &str, kind: Kind, name: &str, parts: Option<usize>) -> Page {
    Page {
        project: ProjectLabel::new(project),
        kind,
        name: PageName::new(name),
        rel: format!("{project}/{name}.svg"),
        status: Status::Modified,
        edge_base: None,
        edge_head: None,
        parts,
    }
}

fn change(project: &str, scope: Kind, on: &str, kind: ChangeKind, reference: &str) -> Change {
    let (sheet, layer) = match scope {
        Kind::Sch => (Some(PageName::new(on)), None),
        _ => (None, Some(PageName::new(on))),
    };
    Change {
        project: ProjectLabel::new(project),
        scope,
        sheet,
        layer,
        kind,
        reference: Reference::new(reference),
        detail: String::new(),
        at_base: None,
        at_head: None,
        frac_base: None,
        frac_head: None,
    }
}

#[test]
fn groups_pages_by_project_then_kind_in_report_order() {
    let pages = vec![
        page("a", Kind::Sch, "Root", None),
        page("b", Kind::Sch, "Root", None),
        page("a", Kind::Pcb, "F.Cu", None),
        page("a", Kind::Sch, "Power", None),
    ];
    let sidebar = Sidebar::new(&pages, &vec![]);
    let shape: Vec<_> = sidebar
        .projects
        .iter()
        .map(|p| {
            let kinds: Vec<_> = p.kinds.iter().map(|k| (k.kind.as_str(), k.pages.clone())).collect();
            (p.project.as_str().to_string(), kinds)
        })
        .collect();
    // A later page rejoins the group opened earlier rather than starting a new one.
    assert_eq!(
        shape,
        vec![
            ("a".to_string(), vec![("sch", vec![0, 3]), ("pcb", vec![2])]),
            ("b".to_string(), vec![("sch", vec![1])]),
        ]
    );
}

#[test]
fn schematic_changes_home_to_their_sheet() {
    let pages = vec![page("a", Kind::Sch, "Root", None), page("a", Kind::Sch, "Power", None)];
    let changes = vec![
        change("a", Kind::Sch, "Power", ChangeKind::Moved, "R1"),
        change("a", Kind::Sch, "Root", ChangeKind::Moved, "R2"),
        change("a", Kind::Sch, "Missing", ChangeKind::Moved, "R3"),
        change("b", Kind::Sch, "Root", ChangeKind::Moved, "R4"),
    ];
    let sidebar = Sidebar::new(&pages, &changes);
    let homed: Vec<_> = sidebar.groups.iter().map(|g| (g.page, g.count)).collect();
    assert_eq!(homed, vec![(0, 1), (1, 1)]);
    // Changes with nowhere to hang are dropped, not misfiled.
    assert_eq!(sidebar.order, vec![1, 0]);
}

#[test]
fn board_changes_fall_back_to_the_first_pcb_page() {
    let pages = vec![page("a", Kind::Pcb, "F.Cu", None), page("a", Kind::Pcb, "F.SilkS", None)];
    let changes = vec![
        change("a", Kind::Pcb, "F.Cu", ChangeKind::Moved, "R1"),
        change("a", Kind::Pcb, "B.Cu", ChangeKind::Moved, "R2"),
    ];
    let sidebar = Sidebar::new(&pages, &changes);
    assert_eq!(sidebar.groups.len(), 1);
    assert_eq!(sidebar.groups[0].page, 0);
    assert_eq!(sidebar.groups[0].count, 2);
}

#[test]
fn sneaky_changes_sort_first_across_parts_and_within_one() {
    let pages = vec![page("a", Kind::Sch, "Root", None)];
    let changes = vec![
        change("a", Kind::Sch, "Root", ChangeKind::Moved, "R1"),
        change("a", Kind::Sch, "Root", ChangeKind::NetChanged, "R2"),
        change("a", Kind::Sch, "Root", ChangeKind::PropertyChanged, "R1"),
        change("a", Kind::Sch, "Root", ChangeKind::ValueChanged, "R2"),
    ];
    let sidebar = Sidebar::new(&pages, &changes);
    let parts: Vec<_> = sidebar.groups[0]
        .parts
        .iter()
        .map(|p| {
            let rows: Vec<_> = p.rows.iter().map(|r| r.change).collect();
            (p.reference.as_str().to_string(), rows)
        })
        .collect();
    // R1 leads on its property change even though its move came first in
    // the input, and keeps that change first within the part.
    assert_eq!(parts, vec![("R1".to_string(), vec![2, 0]), ("R2".to_string(), vec![1, 3])]);
    // The walk order matches what is on screen, top to bottom.
    assert_eq!(sidebar.order, vec![2, 0, 1, 3]);
}

#[test]
fn part_status_comes_from_its_changes_and_suppresses_repeat_badges() {
    let pages = vec![page("a", Kind::Sch, "Root", None)];
    let changes = vec![
        change("a", Kind::Sch, "Root", ChangeKind::Added, "R1"),
        change("a", Kind::Sch, "Root", ChangeKind::ValueChanged, "R1"),
        change("a", Kind::Sch, "Root", ChangeKind::Moved, "R2"),
        change("a", Kind::Sch, "Root", ChangeKind::NetChanged, "R2"),
    ];
    let sidebar = Sidebar::new(&pages, &changes);
    let shape: Vec<_> = sidebar.groups[0]
        .parts
        .iter()
        .map(|p| {
            let badges: Vec<_> = p.rows.iter().map(|r| r.badge).collect();
            (p.status.as_str(), badges)
        })
        .collect();
    assert_eq!(
        shape,
        vec![
            // R2's net change ranks it first.
            ("modified", vec![Some("net"), Some("modified")]),
            ("added", vec![None, Some("modified")]),
        ]
    );
}

#[test]
fn summary_counts_parts_not_changes_and_ignores_nets() {
    let pages = vec![page("a", Kind::Sch, "Root", Some(8))];
    let changes = vec![
        change("a", Kind::Sch, "Root", ChangeKind::Moved, "R1"),
        change("a", Kind::Sch, "Root", ChangeKind::ValueChanged, "R1"),
        change("a", Kind::Sch, "Root", ChangeKind::Moved, "R2"),
        change("a", Kind::Sch, "Root", ChangeKind::NetChanged, "R9"),
    ];
    let sidebar = Sidebar::new(&pages, &changes);
    // 4 changes over 2 changed parts of 8; R9's net does not count.
    assert_eq!(sidebar.groups[0].summary, "4 changes \u{b7} 25% of parts changed");
}

#[test]
fn summary_without_a_part_total_is_a_bare_count() {
    let pages = vec![page("a", Kind::Sch, "Root", None), page("a", Kind::Sch, "Power", Some(0))];
    let changes = vec![
        change("a", Kind::Sch, "Root", ChangeKind::Moved, "R1"),
        change("a", Kind::Sch, "Power", ChangeKind::Moved, "R1"),
    ];
    let sidebar = Sidebar::new(&pages, &changes);
    assert_eq!(sidebar.groups[0].summary, "1 change");
    // A zero total would divide by nothing; no percentage rather than 100%.
    assert_eq!(sidebar.groups[1].summary, "1 change");
}

#[test]
fn net_only_groups_get_no_percentage() {
    let pages = vec![page("a", Kind::Sch, "Root", Some(4))];
    let changes = vec![change("a", Kind::Sch, "Root", ChangeKind::NetChanged, "R1")];
    let sidebar = Sidebar::new(&pages, &changes);
    assert_eq!(sidebar.groups[0].summary, "1 change");
}

#[test]
fn percentage_is_capped_when_changes_fall_back_onto_a_page() {
    let pages = vec![page("a", Kind::Pcb, "F.Cu", Some(1))];
    let changes = vec![
        change("a", Kind::Pcb, "B.Cu", ChangeKind::Moved, "R1"),
        change("a", Kind::Pcb, "B.Cu", ChangeKind::Moved, "R2"),
    ];
    let sidebar = Sidebar::new(&pages, &changes);
    assert_eq!(sidebar.groups[0].summary, "2 changes \u{b7} 100% of parts changed");
}

#[test]
fn percentage_rounds_half_up() {
    // One changed part of eight is 12.5%.
    let pages = vec![page("a", Kind::Sch, "Root", Some(8))];
    let changes = vec![change("a", Kind::Sch, "Root", ChangeKind::Moved, "R1")];
    let sidebar = Sidebar::new(&pages, &changes);
    assert_eq!(sidebar.groups[0].summary, "1 change \u{b7} 13% of parts changed");
}

#[test]
fn removed_parts_badge_only_their_other_changes() {
    let pages = vec![page("a", Kind::Sch, "Root", None)];
    let changes = vec![
        change("a", Kind::Sch, "Root", ChangeKind::Removed, "C3"),
        change("a", Kind::Sch, "Root", ChangeKind::NetChanged, "C3"),
    ];
    let sidebar = Sidebar::new(&pages, &changes);
    let part = &sidebar.groups[0].parts[0];
    assert_eq!(part.status.as_str(), "removed");
    let badges: Vec<_> = part.rows.iter().map(|r| (r.change, r.badge)).collect();
    assert_eq!(badges, vec![(1, Some("net")), (0, None)]);
}
