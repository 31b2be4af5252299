use kirin::ids::{PageName, ProjectLabel};
use kirin::kicad::{Kind, Page, Status};
use kirin::svg::{human, linked_svg_files, view_box_size};

#[test]
fn byte_counts_read_in_binary_units() {
    assert_eq!(human(0), "0 B");
    assert_eq!(human(1023), "1023 B");
    assert_eq!(human(1024), "1.0 KiB");
    assert_eq!(human(1536), "1.5 KiB");
    // An exact tie rounds to the even tenth, as float formatting does.
    assert_eq!(human(1280), "1.2 KiB");
    assert_eq!(human(1024 * 1024 * 3 / 2), "1.5 MiB");
    assert_eq!(human(5 * 1024 * 1024 * 1024), "5.0 GiB");
    assert_eq!(human(3000 * 1024 * 1024 * 1024), "3000.0 GiB");
}

#[test]
fn linked_svgs_cover_each_existing_side_and_the_outlines() {
    let page = |rel: &str, status: Status, edge: Option<&str>| Page {
        project: ProjectLabel::new("p"),
        kind: Kind::Pcb,
        name: PageName::new("F.Cu"),
        rel: rel.to_string(),
        status,
        edge_base: edge.map(|e| format!("a/svg/{e}")),
        edge_head: edge.map(|e| format!("b/svg/{e}")),
        parts: None,
    };
    let pages = vec![
        page("p/pcb/x-F_Cu.svg", Status::Modified, Some("p/pcb/x-Edge_Cuts.svg")),
        page("p/pcb/x-B_Cu.svg", Status::Added, Some("p/pcb/x-Edge_Cuts.svg")),
        page("p/pcb/x-In1_Cu.svg", Status::Removed, None),
    ];
    let files = linked_svg_files(&pages);
    assert_eq!(
        files,
        vec![
            "a/svg/p/pcb/x-Edge_Cuts.svg",
            "a/svg/p/pcb/x-F_Cu.svg",
            "a/svg/p/pcb/x-In1_Cu.svg",
            "b/svg/p/pcb/x-B_Cu.svg",
            "b/svg/p/pcb/x-Edge_Cuts.svg",
            "b/svg/p/pcb/x-F_Cu.svg",
        ]
    );
}

#[test]
fn view_box_gives_the_extent_in_nanometres() {
    let head = "<?xml version=\"1.0\"?>\n<svg width=\"297.0022mm\" height=\"210.0072mm\" viewBox=\"0.0000 0.0000 297.0022 210.0072\">";
    assert_eq!(view_box_size(head), Some((297_002_200, 210_007_200)));
}

#[test]
fn view_box_reads_the_first_four_lengths_only() {
    // A word that is no length is passed over.
    assert_eq!(view_box_size("<svg viewBox=\"0 0 x 10\t20 30\">"), Some((10_000_000, 20_000_000)));
    // The value may run to the end of the text when the quote is cut off.
    assert_eq!(view_box_size("<svg viewBox=\"-5 -5 1.5 2.25"), Some((1_500_000, 2_250_000)));
}

#[test]
fn view_box_missing_or_short_gives_nothing() {
    assert_eq!(view_box_size("<svg width=\"10mm\">"), None);
    assert_eq!(view_box_size("<svg viewBox=\"0 0 10\" height=\"5\">"), None);
    assert_eq!(view_box_size(""), None);
}
