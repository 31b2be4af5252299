use kirin::ids::{PageName, ProjectLabel, Reference};
use kirin::kicad::{Kind, Page, Status};
use kirin::semantic::{Change, ChangeKind, Frac, Ratio};
use kirin::template::{html_escape, json_escape, render_entries};

#[test]
fn renders_the_viewer_data_contract() {
    let pages = vec![Page {
        project: ProjectLabel::new("proj"),
        kind: Kind::Sch,
        name: PageName::new("Root sheet"),
        rel: "proj/sch/root.svg".to_string(),
        status: Status::Modified,
        edge_base: Some("a/svg/edge.svg".to_string()),
        edge_head: None,
        parts: Some(12),
    }];
    let changes = vec![Change {
        project: ProjectLabel::new("proj"),
        scope: Kind::Sch,
        sheet: Some(PageName::new("Root sheet")),
        kind: ChangeKind::ValueChanged,
        reference: Reference::new("R1"),
        detail: "say \"10k\" -> back\\slash\nline".to_string(),
        layer: None,
        at_base: None,
        at_head: None,
        frac_base: Some(Frac { x: Ratio { num: 1, den: 4 }, y: Ratio { num: 1, den: 2 } }),
        frac_head: None,
    }];
    let js = render_entries(&pages, &changes);
    // The keys the viewer reads; renaming one here must fail a test.
    for key in [
        "const entries = [",
        "const changes = [",
        "project: \"proj\"",
        "kind: \"sch\"",
        "name: \"Root sheet\"",
        "path: \"proj/sch/root.svg\"",
        "status: \"modified\"",
        "edgeBase: \"a/svg/edge.svg\"",
        "parts: 12",
        "scope: \"sch\"",
        "sheet: \"Root sheet\"",
        "kind: \"value\"",
        "ref: \"R1\"",
        "fb: [0.2500, 0.5000]",
    ] {
        assert!(js.contains(key), "missing `{key}` in:\n{js}");
    }
    // Quotes, backslashes and newlines survive as valid JS.
    assert!(js.contains(r#"detail: "say \"10k\" -> back\\slash\nline""#));
    // Absent optionals stay absent.
    assert!(!js.contains("edgeHead"));
    assert!(!js.contains("fh:"));
    assert!(!js.contains("layer:"));
}

#[test]
fn json_strings_escape_quotes_backslashes_and_control_characters() {
    assert_eq!(json_escape("plain"), "\"plain\"");
    assert_eq!(json_escape("a\"b\\c"), "\"a\\\"b\\\\c\"");
    assert_eq!(json_escape("\n\r\t"), "\"\\n\\r\\t\"");
    assert_eq!(json_escape("\u{1}\u{1f}"), "\"\\u0001\\u001f\"");
    assert_eq!(json_escape("µ°"), "\"µ°\"");
}

#[test]
fn html_escapes_markup_characters() {
    assert_eq!(html_escape("a<b>&c"), "a&lt;b&gt;&amp;c");
    assert_eq!(html_escape("main"), "main");
}

#[test]
fn locations_print_with_four_rounded_decimals() {
    let change = |x: Ratio| Change {
        project: ProjectLabel::new("p"),
        scope: Kind::Pcb,
        sheet: None,
        kind: ChangeKind::Moved,
        reference: Reference::new("R1"),
        detail: String::new(),
        layer: Some(PageName::new("F.Cu")),
        at_base: None,
        at_head: None,
        frac_base: None,
        frac_head: Some(Frac { x, y: Ratio { num: 3, den: 1 } }),
    };
    let js = render_entries(&vec![], &vec![change(Ratio { num: 2, den: 3 }), change(Ratio { num: -1, den: 8 })]);
    assert!(js.contains("layer: \"F.Cu\""));
    assert!(js.contains("fh: [0.6667, 3.0000]"));
    assert!(js.contains("fh: [-0.1250, 3.0000]"));
}

/// Reads a JSON string literal back, as a JSON reader would.
fn read_json_string(lit: &str) -> String {
    let body: Vec<char> = lit.chars().collect();
    assert!(body.len() >= 2 && body[0] == '"' && body[body.len() - 1] == '"');
    let body = &body[1..body.len() - 1];
    let mut out = String::new();
    let mut i = 0;
    while i < body.len() {
        if body[i] == '\\' {
            match body[i + 1] {
                'n' => out.push('\n'),
                'r' => out.push('\r'),
                't' => out.push('\t'),
                'u' => {
                    let hex: String = body[i + 2..i + 6].iter().collect();
                    out.push(char::from_u32(u32::from_str_radix(&hex, 16).unwrap()).unwrap());
                    i += 4;
                }
                c => out.push(c),
            }
            i += 2;
        } else {
            assert!(body[i] != '"', "unescaped quote in {lit}");
            out.push(body[i]);
            i += 1;
        }
    }
    out
}

#[test]
fn json_strings_read_back_as_the_text() {
    for text in ["", "plain", "a\"b\\c", "line\nbreak\r\ttab", "\u{0}\u{1b}\u{1f} ", "R1 \"10k\" µ°"] {
        assert_eq!(read_json_string(&json_escape(text)), text);
    }
}

#[test]
fn escaped_html_holds_no_markup() {
    let out = html_escape("<a href=\"x\">&amp;</a> > <");
    assert!(!out.contains('<') && !out.contains('>'));
    assert_eq!(out, "&lt;a href=\"x\"&gt;&amp;amp;&lt;/a&gt; &gt; &lt;");
}
