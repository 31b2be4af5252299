//! Electrical nets read from an exported s-expression netlist.

use vstd::prelude::*;

use crate::ids::{NetName, Pin, Reference};
use crate::text::str_eq;
use kiutils_sexpr::{Atom, Node, ParseError};

verus! {

/// One electrical net from an exported netlist.
pub struct Net {
    pub name: NetName,
    /// Connected pins as (reference, pin number).
    pub nodes: Vec<(Reference, Pin)>,
}

/// What a net says: its name and its (reference, pin) nodes.
pub struct NetView {
    pub name: Seq<char>,
    pub nodes: Seq<(Seq<char>, Seq<char>)>,
}

impl View for Net {
    type V = NetView;

    open spec fn view(&self) -> NetView {
        NetView { name: self.name@, nodes: self.nodes@.map_values(|n: (Reference, Pin)| (n.0@, n.1@)) }
    }
}

/// The views of a list of nets.
pub open spec fn nets_view(nets: Seq<Net>) -> Seq<NetView> {
    nets.map_values(|n: Net| n@)
}

/// A node of an s-expression tree: a parenthesized list, a bare symbol, or
/// a quoted string (escapes already resolved).
pub enum SNode {
    List(Vec<SNode>),
    Symbol(String),
    Quoted(String),
}

/// An s-expression node, with every text taken by its characters.
pub enum SExpr {
    List(Seq<SExpr>),
    Symbol(Seq<char>),
    Quoted(Seq<char>),
}

/// The expression a node holds.
pub open spec fn sexpr_of(n: SNode) -> SExpr
    decreases n,
{
    match n {
        SNode::List(v) => SExpr::List(
            Seq::new(
                v.len() as nat,
                |i: int|
                    if 0 <= i < v.len() {
                        sexpr_of(v[i])
                    } else {
                        SExpr::Symbol(seq![])
                    },
            ),
        ),
        SNode::Symbol(s) => SExpr::Symbol(s@),
        SNode::Quoted(s) => SExpr::Quoted(s@),
    }
}

impl View for SNode {
    type V = SExpr;

    open spec fn view(&self) -> SExpr {
        sexpr_of(*self)
    }
}

/// The document `kiutils_sexpr::parse_one` finds in a text, as the list of
/// its top-level expressions, or `None` where it reports a parse error.
pub uninterp spec fn sexpr_document(src: Seq<char>) -> Option<SExpr>;

/// A parse failure of `kiutils_sexpr`.
#[verifier::external_type_specification]
#[verifier::external_body]
pub struct ExParseError(ParseError);

/// Parses `src` with `kiutils_sexpr::parse_one` and converts the tree it
/// returns into [`SNode`]s, node for node, the top-level nodes gathered in
/// one list. The contract claims that the result is a function of the text
/// alone, which the crate's parser (a pure function of its input) shows;
/// what the tree is on a given text is left to that parser and not stated.
#[verifier::external_body]
pub(crate) fn parse_sexpr(src: &str) -> (r: Result<SNode, ParseError>)
    ensures
        match r {
            Ok(doc) => sexpr_document(src@) == Some(doc@),
            Err(_) => sexpr_document(src@) is None,
        },
{
    let mut work = vec![(kiutils_sexpr::parse_one(src)?.nodes.into_iter(), vec![])];
    loop {
        let node = match work.last_mut().unwrap().0.next() {
            Some(Node::List { items, .. }) => { work.push((items.into_iter(), vec![])); continue }
            Some(Node::Atom { atom: Atom::Symbol(s), .. }) => SNode::Symbol(s),
            Some(Node::Atom { atom: Atom::Quoted(s), .. }) => SNode::Quoted(s),
            None => SNode::List(work.pop().unwrap().1)
        };
        match work.last_mut() {
            Some(top) => top.1.push(node),
            None => return Ok(node)
        }
    }
}

/// The debug rendering of a `kiutils_sexpr` parse failure (its `Debug`
/// output); nothing is claimed of the text.
#[verifier::external_body]
pub(crate) fn parse_error_text(e: &ParseError) -> (r: String) {
    format!("{e:?}")
}

} // verus!

verus! {

/// The symbol a list starts with.
pub open spec fn head(e: SExpr) -> Option<Seq<char>> {
    match e {
        SExpr::List(items) => if items.len() > 0 {
            match items[0] {
                SExpr::Symbol(s) => Some(s),
                _ => None,
            }
        } else {
            None
        },
        _ => None,
    }
}

/// The text of a list's second item, when that item is an atom.
pub open spec fn second(e: SExpr) -> Option<Seq<char>> {
    match e {
        SExpr::List(items) => if items.len() > 1 {
            match items[1] {
                SExpr::Symbol(s) => Some(s),
                SExpr::Quoted(s) => Some(s),
                SExpr::List(_) => None,
            }
        } else {
            None
        },
        _ => None,
    }
}

/// The items of a list after its head (empty for an atom).
pub open spec fn tail(e: SExpr) -> Seq<SExpr> {
    match e {
        SExpr::List(items) => if items.len() > 0 {
            items.skip(1)
        } else {
            seq![]
        },
        _ => seq![],
    }
}

/// The value the last `(key value)` field among `fields` gives.
pub open spec fn field(fields: Seq<SExpr>, key: Seq<char>) -> Option<Seq<char>>
    decreases fields.len(),
{
    if fields.len() == 0 {
        None
    } else if head(fields.last()) == Some(key) {
        second(fields.last())
    } else {
        field(fields.drop_last(), key)
    }
}

/// A net's name: the last `(name ..)` child's text, empty when it has none.
pub open spec fn net_name(children: Seq<SExpr>) -> Seq<char>
    decreases children.len(),
{
    if children.len() == 0 {
        seq![]
    } else if head(children.last()) == Some("name"@) {
        match second(children.last()) {
            Some(s) => s,
            None => seq![],
        }
    } else {
        net_name(children.drop_last())
    }
}

/// A net's nodes: each `(node ..)` child with both a `ref` and a `pin`.
pub open spec fn net_nodes(children: Seq<SExpr>) -> Seq<(Seq<char>, Seq<char>)>
    decreases children.len(),
{
    if children.len() == 0 {
        seq![]
    } else {
        let rest = net_nodes(children.drop_last());
        let c = children.last();
        if head(c) == Some("node"@) {
            match (field(tail(c), "ref"@), field(tail(c), "pin"@)) {
                (Some(r), Some(p)) => rest.push((r, p)),
                _ => rest,
            }
        } else {
            rest
        }
    }
}

/// The net a `(net ..)` expression describes.
pub open spec fn net_of_sexpr(e: SExpr) -> NetView {
    NetView { name: net_name(tail(e)), nodes: net_nodes(tail(e)) }
}

/// The nets among the items of a `(nets ..)` section.
pub open spec fn section_nets(items: Seq<SExpr>) -> Seq<NetView>
    decreases items.len(),
{
    if items.len() == 0 {
        seq![]
    } else {
        let rest = section_nets(items.drop_last());
        if head(items.last()) == Some("net"@) {
            rest.push(net_of_sexpr(items.last()))
        } else {
            rest
        }
    }
}

/// The nets of every `(nets ..)` section among `sections`, in order.
pub open spec fn nets_in(sections: Seq<SExpr>) -> Seq<NetView>
    decreases sections.len(),
{
    if sections.len() == 0 {
        seq![]
    } else {
        nets_in(sections.drop_last()) + if head(sections.last()) == Some("nets"@) {
            section_nets(tail(sections.last()))
        } else {
            seq![]
        }
    }
}

/// The nets of a parsed netlist (the list of its top-level expressions):
/// those in the `(nets ..)` sections of its first top-level list.
pub open spec fn netlist_nets(doc: SExpr) -> Seq<NetView> {
    match doc {
        SExpr::List(roots) => if roots.len() > 0 {
            match roots[0] {
                SExpr::List(items) => nets_in(items),
                _ => seq![],
            }
        } else {
            seq![]
        },
        _ => seq![],
    }
}

} // verus!

verus! {

/// The symbol a list starts with.
pub(crate) fn head_of(node: &SNode) -> (r: Option<&String>)
    ensures
        match r {
            Some(s) => head(node@) == Some(s@),
            None => head(node@) is None,
        },
{
    reveal_with_fuel(sexpr_of, 2);
    match node {
        SNode::List(items) => if items.len() > 0 {
            assert(node@->List_0[0] == items@[0]@);
            match &items[0] {
                SNode::Symbol(s) => Some(s),
                _ => None,
            }
        } else {
            None
        },
        _ => None,
    }
}

/// Whether a node is a list headed by `key`.
pub(crate) fn headed(node: &SNode, key: &str) -> (r: bool)
    ensures
        r == (head(node@) == Some(key@)),
{
    match head_of(node) {
        Some(s) => str_eq(s.as_str(), key),
        None => false,
    }
}

/// The text of a list's second item, when that item is an atom.
pub(crate) fn second_string(node: &SNode) -> (r: Option<String>)
    ensures
        match r {
            Some(s) => second(node@) == Some(s@),
            None => second(node@) is None,
        },
{
    reveal_with_fuel(sexpr_of, 2);
    match node {
        SNode::List(items) => if items.len() > 1 {
            assert(node@->List_0[1] == items@[1]@);
            match &items[1] {
                SNode::Symbol(s) => Some(s.clone()),
                SNode::Quoted(s) => Some(s.clone()),
                SNode::List(_) => None,
            }
        } else {
            None
        },
        _ => None,
    }
}

/// The value of the last `(ref ..)` and `(pin ..)` fields of a node.
fn node_fields(items: &Vec<SNode>) -> (r: (Option<String>, Option<String>))
    requires
        items.len() > 0,
    ensures
        opt_view(r.0) == field(items@.map_values(|n: SNode| n@).skip(1), "ref"@),
        opt_view(r.1) == field(items@.map_values(|n: SNode| n@).skip(1), "pin"@),
{
    let ghost all = items@.map_values(|n: SNode| n@);
    let mut reference: Option<String> = None;
    let mut pin: Option<String> = None;
    let mut i: usize = 1;
    assert(all.skip(1).take(0) =~= seq![]);
    while i < items.len()
        invariant
            1 <= i <= items.len(),
            all == items@.map_values(|n: SNode| n@),
            opt_view(reference) == field(all.skip(1).take(i - 1), "ref"@),
            opt_view(pin) == field(all.skip(1).take(i - 1), "pin"@),
        decreases items.len() - i,
    {
        proof {
            assert(all.skip(1).take(i as int).drop_last() == all.skip(1).take(i - 1));
            assert(all.skip(1).take(i as int).last() == items@[i as int]@);
        }
        proof {
            reveal_strlit("ref");
            reveal_strlit("pin");
            assert("ref"@[0] != "pin"@[0]);
        }
        if headed(&items[i], "ref") {
            reference = second_string(&items[i]);
        } else if headed(&items[i], "pin") {
            pin = second_string(&items[i]);
        }
        i = i + 1;
    }
    assert(all.skip(1).take(items.len() - 1) == all.skip(1));
    (reference, pin)
}

/// The characters of an optional text.
pub open spec fn opt_view(o: Option<String>) -> Option<Seq<char>> {
    match o {
        Some(s) => Some(s@),
        None => None,
    }
}

} // verus!

verus! {

/// A list node views as the list of its items' views.
pub(crate) proof fn lemma_list_view(v: Vec<SNode>)
    ensures
        SNode::List(v)@ == SExpr::List(v@.map_values(|n: SNode| n@)),
{
    reveal_with_fuel(sexpr_of, 1);
    assert(sexpr_of(SNode::List(v))->List_0 =~= v@.map_values(|n: SNode| n@));
}

/// The net a `(net ..)` node describes.
fn parse_net(node: &SNode) -> (net: Net)
    ensures
        net@ == net_of_sexpr(node@),
{
    let mut name = String::new();
    let mut nodes: Vec<(Reference, Pin)> = Vec::new();
    let items = match node {
        SNode::List(items) => items,
        _ => {
            assert(nodes@.map_values(|n: (Reference, Pin)| (n.0@, n.1@)) =~= seq![]);
            assert(name@ =~= seq![]);
            return Net { name: NetName::from_string(name), nodes };
        },
    };
    proof {
        lemma_list_view(*items);
    }
    let ghost all = items@.map_values(|n: SNode| n@);
    if items.len() == 0 {
        proof {
            assert(nodes@.map_values(|n: (Reference, Pin)| (n.0@, n.1@)) =~= seq![]);
        }
        return Net { name: NetName::from_string(name), nodes };
    }
    let ghost children = all.skip(1);
    assert(children.take(0) =~= seq![]);
    let mut i: usize = 1;
    while i < items.len()
        invariant
            1 <= i <= items.len(),
            all == items@.map_values(|n: SNode| n@),
            children == all.skip(1),
            name@ == net_name(children.take(i - 1)),
            nodes@.map_values(|n: (Reference, Pin)| (n.0@, n.1@)) == net_nodes(children.take(i - 1)),
        decreases items.len() - i,
    {
        proof {
            assert(children.take(i as int).drop_last() == children.take(i - 1));
            assert(children.take(i as int).last() == items@[i as int]@);
            reveal_strlit("name");
            reveal_strlit("node");
            assert("name"@[2] != "node"@[2]);
        }
        let ghost before = nodes@.map_values(|n: (Reference, Pin)| (n.0@, n.1@));
        if headed(&items[i], "name") {
            name = match second_string(&items[i]) {
                Some(s) => s,
                None => String::new(),
            };
        } else if headed(&items[i], "node") {
            match &items[i] {
                SNode::List(fields) => {
                    proof {
                        lemma_list_view(*fields);
                    }
                    let (reference, pin) = node_fields(fields);
                    match (reference, pin) {
                        (Some(r), Some(p)) => {
                            nodes.push((Reference::from_string(r), Pin::from_string(p)));
                            proof {
                                assert(nodes@.map_values(|n: (Reference, Pin)| (n.0@, n.1@)) =~= before.push(
                                    (r@, p@),
                                ));
                            }
                        },
                        _ => {},
                    }
                },
                _ => {},
            }
        }
        i = i + 1;
    }
    assert(children.take(items.len() - 1) == children);
    Net { name: NetName::from_string(name), nodes }
}

/// The nets among the items of a `(nets ..)` section, from its second item on.
fn section_nets_exec(items: &Vec<SNode>, nets: &mut Vec<Net>)
    requires
        items.len() > 0,
    ensures
        nets_view(final(nets)@) == nets_view(old(nets)@) + section_nets(
            items@.map_values(|n: SNode| n@).skip(1),
        ),
{
    let ghost start = nets_view(nets@);
    let ghost rest = items@.map_values(|n: SNode| n@).skip(1);
    assert(rest.take(0) =~= seq![]);
    let mut i: usize = 1;
    while i < items.len()
        invariant
            1 <= i <= items.len(),
            rest == items@.map_values(|n: SNode| n@).skip(1),
            nets_view(nets@) == start + section_nets(rest.take(i - 1)),
        decreases items.len() - i,
    {
        proof {
            assert(rest.take(i as int).drop_last() == rest.take(i - 1));
            assert(rest.take(i as int).last() == items@[i as int]@);
        }
        let ghost before = nets_view(nets@);
        if headed(&items[i], "net") {
            let n = parse_net(&items[i]);
            nets.push(n);
            proof {
                assert(nets_view(nets@) =~= before.push(n@));
            }
        }
        i = i + 1;
    }
    assert(rest.take(items.len() - 1) == rest);
}

/// The nets of a parsed netlist, given the list of its top-level
/// expressions: those in the `(nets ..)` sections of the first top-level list.
pub fn nets_of(doc: &SNode) -> (nets: Vec<Net>)
    ensures
        nets_view(nets@) == netlist_nets(doc@),
{
    let mut nets: Vec<Net> = Vec::new();
    let roots = match doc {
        SNode::List(roots) => roots,
        _ => {
            assert(nets_view(nets@) =~= seq![]);
            return nets;
        },
    };
    proof {
        lemma_list_view(*roots);
    }
    if roots.len() == 0 {
        assert(nets_view(nets@) =~= seq![]);
        return nets;
    }
    let ghost rv = roots@.map_values(|n: SNode| n@);
    assert(rv[0] == roots@[0]@);
    match &roots[0] {
        SNode::List(sections) => {
            proof {
                lemma_list_view(*sections);
            }
            let ghost sv = sections@.map_values(|n: SNode| n@);
            let mut i: usize = 0;
            assert(nets_view(nets@) =~= seq![]);
            while i < sections.len()
                invariant
                    i <= sections.len(),
                    sv == sections@.map_values(|n: SNode| n@),
                    nets_view(nets@) == nets_in(sv.take(i as int)),
                decreases sections.len() - i,
            {
                proof {
                    assert(sv.take(i + 1).drop_last() == sv.take(i as int));
                    assert(sv.take(i + 1).last() == sections@[i as int]@);
                }
                let ghost before = nets_view(nets@);
                if headed(&sections[i], "nets") {
                    match &sections[i] {
                        SNode::List(items) => {
                            proof {
                                lemma_list_view(*items);
                            }
                            section_nets_exec(items, &mut nets);
                        },
                        _ => {},
                    }
                } else {
                    assert(nets_view(nets@) =~= before + seq![]);
                }
                i = i + 1;
            }
            assert(sv.take(sections.len() as int) == sv);
        },
        _ => {
            assert(nets_view(nets@) =~= seq![]);
        },
    }
    nets
}

/// Why a netlist could not be read: the parser's own account.
pub struct NetlistError {
    pub detail: String,
}

/// Parses the text of an s-expression netlist (`kicad-cli sch export
/// netlist --format kicadsexpr`) into its nets. Fails exactly when
/// `kiutils_sexpr` rejects the text; otherwise the nets are those of the
/// first top-level list's `(nets ..)` sections.
pub fn parse_netlist(src: &str) -> (r: Result<Vec<Net>, NetlistError>)
    ensures
        match r {
            Ok(nets) => sexpr_document(src@) is Some && nets_view(nets@) == netlist_nets(
                sexpr_document(src@).unwrap(),
            ),
            Err(_) => sexpr_document(src@) is None,
        },
{
    match parse_sexpr(src) {
        Ok(doc) => Ok(nets_of(&doc)),
        Err(e) => Err(NetlistError { detail: parse_error_text(&e) }),
    }
}

} // verus!
