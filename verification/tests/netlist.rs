use kirin::netlist::parse_netlist;

#[test]
fn parses_nets_and_nodes() {
    let src = r#"(export (version "E")
      (components (comp (ref "R1")))
      (nets
        (net (code "1") (name "/sheet/GATE")
          (node (ref "R1") (pin "1") (pintype "passive"))
          (node (ref "U1") (pin "14")))
        (net (code "2") (name "unconnected-(U1-PA7-Pad13)")
          (node (ref "U1") (pin "13")))))
"#;
    let nets = parse_netlist(src).ok().unwrap();
    assert_eq!(nets.len(), 2);
    assert_eq!(nets[0].name.as_str(), "/sheet/GATE");
    let nodes: Vec<_> = nets[0].nodes.iter().map(|(r, p)| (r.as_str(), p.as_str())).collect();
    assert_eq!(nodes, vec![("R1", "1"), ("U1", "14")]);
    assert_eq!(nets[1].nodes.len(), 1);
}

#[test]
fn malformed_netlists_are_refused() {
    assert!(parse_netlist("(export (nets").is_err());
    assert!(parse_netlist("(a)(b)").is_err());
}

#[test]
fn nodes_without_a_pin_are_skipped_and_nameless_nets_are_blank() {
    let nets = parse_netlist(r#"(export (nets (net (node (ref "R1")) (node (ref "R2") (pin "2")))))"#).ok().unwrap();
    assert_eq!(nets.len(), 1);
    assert_eq!(nets[0].name.as_str(), "");
    assert_eq!(nets[0].nodes.len(), 1);
    assert_eq!(nets[0].nodes[0].0.as_str(), "R2");
}
