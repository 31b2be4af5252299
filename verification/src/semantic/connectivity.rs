//! Electrical connectivity compared between two revisions' netlists.

use vstd::prelude::*;

use crate::ids::{EntityId, NetName, Pin, ProjectLabel, Reference};
use crate::netlist::Net;
use crate::order::{sorted_seq_of, strict_order, strictly_sorted};
use crate::kicad::Kind;
use crate::semantic::{clone_page, page_view, Change, ChangeKind, ChangeView, Entity, Point};
use crate::text::{
    lemma_seq_lt_irreflexive, lemma_seq_lt_transitive, lemma_seq_lt_total, seq_lt, str_eq, str_lt,
};
use crate::text::{
    chars_eq_str, chars_of, find_char_from, first_index, last_index, lemma_find_from,
    lemma_first_index, lemma_last_index, push_chars, push_str, rfind_char, slice_chars, string_of,
};

verus! {

/// KiCad's file escapes for characters that collide with name syntax, as
/// undone by its UnescapeString.
pub open spec fn net_escape(token: Seq<char>) -> Option<Seq<char>> {
    if token == "slash"@ {
        Some("/"@)
    } else if token == "backslash"@ {
        Some("\\"@)
    } else if token == "colon"@ {
        Some(":"@)
    } else if token == "space"@ {
        Some(" "@)
    } else if token == "dblquote"@ {
        Some("\""@)
    } else if token == "quote"@ {
        Some("'"@)
    } else if token == "lt"@ {
        Some("<"@)
    } else if token == "gt"@ {
        Some(">"@)
    } else if token == "bar"@ {
        Some("|"@)
    } else if token == "brace"@ {
        Some("{"@)
    } else {
        None
    }
}

/// Undoes the escapes of `net_escape` in `text`: each `{token}` run naming an
/// escape becomes its character; any other run, like overbar markup
/// (`~{RST}`), and an unbalanced `{` pass through untouched.
pub open spec fn unescape(text: Seq<char>) -> Seq<char>
    decreases text.len(),
{
    match first_index(text, '{') {
        None => text,
        Some(s) => match first_index(text.skip(s), '}') {
            None => text,
            Some(e) => if 0 <= s && 1 <= e && s + e < text.len() {
                text.take(s) + (match net_escape(text.subrange(s + 1, s + e)) {
                    Some(r) => r,
                    None => text.subrange(s, s + e + 1),
                }) + unescape(text.skip(s + e + 1))
            } else {
                text
            },
        },
    }
}

/// The last `/`-separated segment of a net's sheet path.
pub open spec fn last_segment(name: Seq<char>) -> Seq<char> {
    match last_index(name, '/') {
        Some(i) => name.skip(i + 1),
        None => name,
    }
}

/// The label a person recognizes for a net: its last path segment, unescaped.
pub open spec fn short_net_spec(name: Seq<char>) -> Seq<char> {
    unescape(last_segment(name))
}

/// The character an escape token stands for, if it is one.
fn escape_of(token: &Vec<char>) -> (r: Option<&'static str>)
    ensures
        match r {
            Some(s) => net_escape(token@) == Some(s@),
            None => net_escape(token@) is None,
        },
{
    if chars_eq_str(token, "slash") {
        Some("/")
    } else if chars_eq_str(token, "backslash") {
        Some("\\")
    } else if chars_eq_str(token, "colon") {
        Some(":")
    } else if chars_eq_str(token, "space") {
        Some(" ")
    } else if chars_eq_str(token, "dblquote") {
        Some("\"")
    } else if chars_eq_str(token, "quote") {
        Some("'")
    } else if chars_eq_str(token, "lt") {
        Some("<")
    } else if chars_eq_str(token, "gt") {
        Some(">")
    } else if chars_eq_str(token, "bar") {
        Some("|")
    } else if chars_eq_str(token, "brace") {
        Some("{")
    } else {
        None
    }
}

/// Nets carry their sheet path ("/Power Switch/GATE"); the last segment is
/// the label a person recognizes. The path separator is a raw "/" - one
/// inside a name is escaped ("RXC{slash}B-CAST") - so split first, then
/// undo the escapes.
pub fn short_net(name: &NetName) -> (r: String)
    ensures
        r@ == short_net_spec(name@),
{
    let v = chars_of(name.as_str());
    proof {
        lemma_last_index(v@, '/');
    }
    let start = match rfind_char(&v, '/') {
        Some(i) => i + 1,
        None => 0,
    };
    proof {
        assert(v@.skip(0) == v@);
    }
    let ghost whole = v@.skip(start as int);
    let mut out: Vec<char> = Vec::new();
    let mut pos = start;
    loop
        invariant
            start <= pos <= v.len(),
            whole == v@.skip(start as int),
            out@ + unescape(v@.skip(pos as int)) == unescape(whole),
        ensures
            start <= pos <= v.len(),
            out@ + v@.skip(pos as int) == unescape(whole),
        decreases v.len() - pos,
    {
        let open = find_char_from(&v, '{', pos);
        proof {
            lemma_find_from(v@, '{', pos as int, match open { Some(i) => Some(i as int), None => None });
        }
        let s = match open {
            Some(s) => s,
            None => break,
        };
        let close = find_char_from(&v, '}', s);
        proof {
            let t = v@.skip(pos as int);
            lemma_find_from(v@, '}', s as int, match close { Some(i) => Some(i as int), None => None });
            assert(t.skip(s - pos) == v@.skip(s as int));
        }
        let e = match close {
            Some(e) => e,
            None => break,
        };
        let token = slice_chars(&v, s + 1, e);
        let before = slice_chars(&v, pos, s);
        proof {
            let t = v@.skip(pos as int);
            assert(t.take(s - pos) == before@);
            assert(t.subrange(s - pos + 1, e - pos) == token@);
            assert(t.subrange(s - pos, e - pos + 1) == v@.subrange(s as int, e + 1));
            assert(t.skip(e - pos + 1) == v@.skip(e + 1));
        }
        push_chars(&mut out, &before);
        match escape_of(&token) {
            Some(rep) => push_str(&mut out, rep),
            None => {
                let raw = slice_chars(&v, s, e + 1);
                push_chars(&mut out, &raw);
            },
        }
        pos = e + 1;
        proof {
            assert(out@ + unescape(v@.skip(pos as int)) == unescape(whole));
        }
    }
    push_chars(&mut out, &slice_chars(&v, pos, v.len()));
    proof {
        assert(v@.subrange(pos as int, v.len() as int) == v@.skip(pos as int));
    }
    string_of(out.as_slice())
}

} // verus!

verus! {

/// A pin of a part, by the characters of its reference and pin number.
pub type NodeV = (Seq<char>, Seq<char>);

/// The characters of a (reference, pin) pair.
pub open spec fn node_view(n: (Reference, Pin)) -> NodeV {
    (n.0@, n.1@)
}

/// The characters of every (reference, pin) pair in `s`.
pub open spec fn nodes_view(s: Seq<(Reference, Pin)>) -> Seq<NodeV> {
    s.map_values(|n: (Reference, Pin)| node_view(n))
}

/// Pins order by reference, then by pin number.
pub open spec fn node_lt(a: NodeV, b: NodeV) -> bool {
    seq_lt(a.0, b.0) || (a.0 == b.0 && seq_lt(a.1, b.1))
}

/// `node_lt` as a value.
pub open spec fn node_order() -> spec_fn(NodeV, NodeV) -> bool {
    |a: NodeV, b: NodeV| node_lt(a, b)
}

/// `node_lt` is a strict order.
pub proof fn lemma_node_order()
    ensures
        strict_order(node_order()),
{
    assert forall|a: NodeV| !#[trigger] node_order()(a, a) by {
        lemma_seq_lt_irreflexive(a.0);
        lemma_seq_lt_irreflexive(a.1);
    }
    assert forall|a: NodeV, b: NodeV, c: NodeV|
        #[trigger] node_order()(a, b) && #[trigger] node_order()(b, c) implies node_order()(a, c) by {
        if seq_lt(a.0, b.0) && seq_lt(b.0, c.0) {
            lemma_seq_lt_transitive(a.0, b.0, c.0);
        }
        if a.0 == b.0 && b.0 == c.0 && seq_lt(a.1, b.1) && seq_lt(b.1, c.1) {
            lemma_seq_lt_transitive(a.1, b.1, c.1);
        }
    }
}

/// Some part on this revision carries reference `r`.
pub open spec fn has_ref(es: Seq<(EntityId, Entity)>, r: Seq<char>) -> bool {
    exists|i: int| #![trigger es[i]] 0 <= i < es.len() && es[i].1.reference@ == r
}

/// Some part with reference `r` on this revision hides pin `p`.
pub open spec fn hides(es: Seq<(EntityId, Entity)>, r: Seq<char>, p: Seq<char>) -> bool {
    exists|i: int, j: int|
        #![trigger es[i].1.hidden_pins@[j]]
        0 <= i < es.len() && es[i].1.reference@ == r && 0 <= j < es[i].1.hidden_pins.len()
            && es[i].1.hidden_pins@[j]@ == p
}

/// A pin whose connectivity is compared: its part lives on both revisions,
/// and neither revision hides it under another pin.
pub open spec fn kept(ea: Seq<(EntityId, Entity)>, eb: Seq<(EntityId, Entity)>, n: NodeV) -> bool {
    has_ref(ea, n.0) && has_ref(eb, n.0) && !hides(ea, n.0, n.1) && !hides(eb, n.0, n.1)
}

/// The compared pins among `nodes`, in order.
pub open spec fn kept_nodes(
    ea: Seq<(EntityId, Entity)>,
    eb: Seq<(EntityId, Entity)>,
    nodes: Seq<(Reference, Pin)>,
) -> Seq<NodeV>
    decreases nodes.len(),
{
    if nodes.len() == 0 {
        seq![]
    } else {
        let rest = kept_nodes(ea, eb, nodes.drop_last());
        if kept(ea, eb, node_view(nodes.last())) {
            rest.push(node_view(nodes.last()))
        } else {
            rest
        }
    }
}

/// A net connecting at least two compared pins.
pub open spec fn is_big(ea: Seq<(EntityId, Entity)>, eb: Seq<(EntityId, Entity)>, net: Net) -> bool {
    kept_nodes(ea, eb, net.nodes@).len() >= 2
}

/// The names of the nets connecting two or more compared pins, in order.
pub open spec fn big_names(
    ea: Seq<(EntityId, Entity)>,
    eb: Seq<(EntityId, Entity)>,
    nets: Seq<Net>,
) -> Seq<Seq<char>>
    decreases nets.len(),
{
    if nets.len() == 0 {
        seq![]
    } else {
        let rest = big_names(ea, eb, nets.drop_last());
        if is_big(ea, eb, nets.last()) {
            rest.push(nets.last().name@)
        } else {
            rest
        }
    }
}

/// The net (as an index into `big_names`) a compared pin belongs to: the
/// last net connecting two or more compared pins that lists it.
pub open spec fn net_of(
    ea: Seq<(EntityId, Entity)>,
    eb: Seq<(EntityId, Entity)>,
    nets: Seq<Net>,
    n: NodeV,
) -> Option<nat>
    decreases nets.len(),
{
    if nets.len() == 0 {
        None
    } else if is_big(ea, eb, nets.last()) && kept_nodes(ea, eb, nets.last().nodes@).contains(n) {
        Some(big_names(ea, eb, nets.drop_last()).len())
    } else {
        net_of(ea, eb, nets.drop_last(), n)
    }
}

/// The name of the last net that ties a compared pin only to parts of one
/// revision (it connects two or more pins, fewer than two of them compared).
pub open spec fn lone(
    ea: Seq<(EntityId, Entity)>,
    eb: Seq<(EntityId, Entity)>,
    nets: Seq<Net>,
    n: NodeV,
) -> Option<Seq<char>>
    decreases nets.len(),
{
    if nets.len() == 0 {
        None
    } else {
        let net = nets.last();
        if !is_big(ea, eb, net) && net.nodes.len() >= 2 && kept_nodes(ea, eb, net.nodes@).contains(n) {
            Some(net.name@)
        } else {
            lone(ea, eb, nets.drop_last(), n)
        }
    }
}

/// Whether some part on this revision carries reference `r`.
fn has_ref_exec(es: &Vec<(EntityId, Entity)>, r: &Reference) -> (b: bool)
    ensures
        b == has_ref(es@, r@),
{
    let mut i: usize = 0;
    while i < es.len()
        invariant
            i <= es.len(),
            forall|j: int| 0 <= j < i ==> es@[j].1.reference@ != r@,
        decreases es.len() - i,
    {
        if str_eq(es[i].1.reference.as_str(), r.as_str()) {
            assert(es@[i as int] == es[i as int]);
            return true;
        }
        i = i + 1;
    }
    false
}

/// Whether some part with reference `r` on this revision hides pin `p`.
fn hides_exec(es: &Vec<(EntityId, Entity)>, r: &Reference, p: &Pin) -> (b: bool)
    ensures
        b == hides(es@, r@, p@),
{
    let mut i: usize = 0;
    while i < es.len()
        invariant
            i <= es.len(),
            forall|a: int, j: int|
                0 <= a < i && es@[a].1.reference@ == r@ && 0 <= j < es@[a].1.hidden_pins.len()
                    ==> es@[a].1.hidden_pins@[j]@ != p@,
        decreases es.len() - i,
    {
        if str_eq(es[i].1.reference.as_str(), r.as_str()) {
            let hidden = &es[i].1.hidden_pins;
            let mut j: usize = 0;
            while j < hidden.len()
                invariant
                    i < es.len(),
                    hidden == es@[i as int].1.hidden_pins,
                    es@[i as int].1.reference@ == r@,
                    j <= hidden.len(),
                    forall|k: int| 0 <= k < j ==> hidden@[k]@ != p@,
                decreases hidden.len() - j,
            {
                if str_eq(hidden[j].as_str(), p.as_str()) {
                    assert(es@[i as int].1.hidden_pins@[j as int]@ == p@);
                    return true;
                }
                j = j + 1;
            }
        }
        i = i + 1;
    }
    false
}

/// Whether the pin `(r, p)` takes part in the comparison.
fn kept_exec(
    ea: &Vec<(EntityId, Entity)>,
    eb: &Vec<(EntityId, Entity)>,
    r: &Reference,
    p: &Pin,
) -> (b: bool)
    ensures
        b == kept(ea@, eb@, (r@, p@)),
{
    has_ref_exec(ea, r) && has_ref_exec(eb, r) && !hides_exec(ea, r, p) && !hides_exec(eb, r, p)
}

/// The compared pins of one net, in order.
fn kept_of(
    ea: &Vec<(EntityId, Entity)>,
    eb: &Vec<(EntityId, Entity)>,
    nodes: &Vec<(Reference, Pin)>,
) -> (r: Vec<(Reference, Pin)>)
    ensures
        nodes_view(r@) == kept_nodes(ea@, eb@, nodes@),
{
    let mut out: Vec<(Reference, Pin)> = Vec::new();
    let mut j: usize = 0;
    while j < nodes.len()
        invariant
            j <= nodes.len(),
            nodes_view(out@) == kept_nodes(ea@, eb@, nodes@.take(j as int)),
        decreases nodes.len() - j,
    {
        proof {
            assert(nodes@.take(j + 1).drop_last() == nodes@.take(j as int));
        }
        let (r, p) = &nodes[j];
        if kept_exec(ea, eb, r, p) {
            out.push((r.clone(), p.clone()));
            proof {
                assert(nodes_view(out@) =~= nodes_view(out@.drop_last()).push(node_view(nodes@[j as int])));
            }
        }
        j = j + 1;
    }
    assert(nodes@.take(nodes.len() as int) == nodes@);
    out
}

} // verus!

verus! {

/// An optional index as a natural number.
pub open spec fn opt_nat(o: Option<usize>) -> Option<nat> {
    match o {
        Some(i) => Some(i as nat),
        None => None,
    }
}

/// The pins compared on either revision: every pin some net of either side
/// connects to another compared pin.
pub open spec fn compared_pins(
    ea: Seq<(EntityId, Entity)>,
    eb: Seq<(EntityId, Entity)>,
    nets_a: Seq<Net>,
    nets_b: Seq<Net>,
) -> Set<NodeV> {
    Set::new(|n: NodeV| net_of(ea, eb, nets_a, n) is Some || net_of(ea, eb, nets_b, n) is Some)
}

/// The compared pins in order.
pub open spec fn node_universe(
    ea: Seq<(EntityId, Entity)>,
    eb: Seq<(EntityId, Entity)>,
    nets_a: Seq<Net>,
    nets_b: Seq<Net>,
) -> Seq<NodeV> {
    sorted_seq_of(compared_pins(ea, eb, nets_a, nets_b), node_order())
}

/// A pin placed by a prefix of the nets stays placed by all of them.
proof fn lemma_net_of_prefix(
    ea: Seq<(EntityId, Entity)>,
    eb: Seq<(EntityId, Entity)>,
    nets: Seq<Net>,
    i: int,
    n: NodeV,
)
    requires
        0 <= i <= nets.len(),
        net_of(ea, eb, nets.take(i), n) is Some,
    ensures
        net_of(ea, eb, nets, n) is Some,
    decreases nets.len(),
{
    if i == nets.len() {
        assert(nets.take(i) == nets);
    } else {
        assert(nets.drop_last().take(i) == nets.take(i));
        lemma_net_of_prefix(ea, eb, nets.drop_last(), i, n);
    }
}

/// Whether pin `a` sorts before pin `b`.
fn node_lt_exec(a: &(Reference, Pin), b: &(Reference, Pin)) -> (r: bool)
    ensures
        r == node_lt(node_view(*a), node_view(*b)),
{
    str_lt(a.0.as_str(), b.0.as_str()) || (str_eq(a.0.as_str(), b.0.as_str()) && str_lt(
        a.1.as_str(),
        b.1.as_str(),
    ))
}

/// Whether two pins are the same.
fn node_eq_exec(a: &(Reference, Pin), b: &(Reference, Pin)) -> (r: bool)
    ensures
        r == (node_view(*a) == node_view(*b)),
{
    str_eq(a.0.as_str(), b.0.as_str()) && str_eq(a.1.as_str(), b.1.as_str())
}

/// Adds pin `n` to a sorted, duplicate-free list of pins.
fn insert_node(u: &mut Vec<(Reference, Pin)>, n: &(Reference, Pin))
    requires
        strictly_sorted(nodes_view(old(u)@), node_order()),
    ensures
        strictly_sorted(nodes_view(final(u)@), node_order()),
        nodes_view(final(u)@).to_set() == nodes_view(old(u)@).to_set().insert(node_view(*n)),
{
    let ghost nv = node_view(*n);
    let ghost old_v = nodes_view(u@);
    let mut i: usize = 0;
    while i < u.len() && node_lt_exec(&u[i], n)
        invariant
            i <= u.len(),
            u@ == old(u)@,
            old_v == nodes_view(u@),
            nv == node_view(*n),
            forall|j: int| 0 <= j < i ==> node_lt(old_v[j], nv),
        decreases u.len() - i,
    {
        assert(old_v[i as int] == node_view(u@[i as int]));
        i = i + 1;
    }
    if i < u.len() && node_eq_exec(&u[i], n) {
        assert(old_v.to_set().insert(nv) =~= old_v.to_set()) by {
            assert(old_v[i as int] == nv);
        }
        return;
    }
    proof {
        lemma_node_order();
        if i < u.len() {
            lemma_seq_lt_total(old_v[i as int].0, nv.0);
            lemma_seq_lt_total(old_v[i as int].1, nv.1);
            assert(node_lt(nv, old_v[i as int]));
        }
    }
    let m = (n.0.clone(), n.1.clone());
    u.insert(i, m);
    proof {
        let nu = nodes_view(u@);
        assert(nu =~= old_v.insert(i as int, nv));
        assert forall|a: int, b: int| 0 <= a < b < nu.len() implies node_order()(nu[a], nu[b]) by {
            if b < i {
                assert(nu[a] == old_v[a] && nu[b] == old_v[b]);
            } else if a < i && b == i {
                assert(nu[a] == old_v[a] && nu[b] == nv);
            } else if a < i {
                assert(nu[a] == old_v[a] && nu[b] == old_v[b - 1]);
                assert(node_order()(old_v[a], nv));
                assert(node_order()(nv, old_v[i as int]));
                assert(node_order()(old_v[a], old_v[i as int]));
                if b - 1 > i {
                    assert(node_order()(old_v[i as int], old_v[b - 1]));
                }
            } else if a == i {
                assert(nu[a] == nv && nu[b] == old_v[b - 1]);
                assert(node_order()(nv, old_v[i as int]));
                if b - 1 > i {
                    assert(node_order()(old_v[i as int], old_v[b - 1]));
                }
            } else {
                assert(nu[a] == old_v[a - 1] && nu[b] == old_v[b - 1]);
            }
        }
        assert forall|x: NodeV| nu.to_set().contains(x) <==> old_v.to_set().insert(nv).contains(x) by {
            if nu.to_set().contains(x) {
                let k = choose|k: int| 0 <= k < nu.len() && nu[k] == x;
                if k < i {
                    assert(old_v[k] == x);
                } else if k > i {
                    assert(old_v[k - 1] == x);
                }
            }
            if old_v.to_set().contains(x) {
                let k = choose|k: int| 0 <= k < old_v.len() && old_v[k] == x;
                if k < i {
                    assert(nu[k] == x);
                } else {
                    assert(nu[k + 1] == x);
                }
            }
            if x == nv {
                assert(nu[i as int] == x);
            }
        }
        assert(nu.to_set() =~= old_v.to_set().insert(nv));
    }
}

/// Adds every pin a net of `nets` compares to the sorted list `u`.
fn add_compared(
    u: &mut Vec<(Reference, Pin)>,
    nets: &Vec<Net>,
    ea: &Vec<(EntityId, Entity)>,
    eb: &Vec<(EntityId, Entity)>,
)
    requires
        strictly_sorted(nodes_view(old(u)@), node_order()),
    ensures
        strictly_sorted(nodes_view(final(u)@), node_order()),
        nodes_view(final(u)@).to_set() == nodes_view(old(u)@).to_set().union(
            Set::new(|n: NodeV| net_of(ea@, eb@, nets@, n) is Some),
        ),
{
    let ghost start = nodes_view(u@).to_set();
    let mut i: usize = 0;
    while i < nets.len()
        invariant
            i <= nets.len(),
            strictly_sorted(nodes_view(u@), node_order()),
            nodes_view(u@).to_set() == start.union(
                Set::new(|n: NodeV| net_of(ea@, eb@, nets@.take(i as int), n) is Some),
            ),
        decreases nets.len() - i,
    {
        let kept = kept_of(ea, eb, &nets[i].nodes);
        let ghost before = nodes_view(u@).to_set();
        if kept.len() >= 2 {
            let mut t: usize = 0;
            while t < kept.len()
                invariant
                    t <= kept.len(),
                    strictly_sorted(nodes_view(u@), node_order()),
                    nodes_view(u@).to_set() == before.union(nodes_view(kept@).take(t as int).to_set()),
                decreases kept.len() - t,
            {
                insert_node(u, &kept[t]);
                proof {
                    assert(nodes_view(kept@).take(t + 1) == nodes_view(kept@).take(t as int).push(
                        node_view(kept@[t as int]),
                    ));
                    crate::order::lemma_push_to_set(
                        nodes_view(kept@).take(t as int),
                        node_view(kept@[t as int]),
                    );
                    assert(nodes_view(u@).to_set() =~= before.union(
                        nodes_view(kept@).take(t + 1).to_set(),
                    ));
                }
                t = t + 1;
            }
            assert(nodes_view(kept@).take(kept.len() as int) == nodes_view(kept@));
        }
        proof {
            let pre = nets@.take(i as int);
            let post = nets@.take(i + 1);
            assert(post.drop_last() == pre);
            assert(post.last() == nets@[i as int]);
            assert(nodes_view(u@).to_set() =~= start.union(
                Set::new(|n: NodeV| net_of(ea@, eb@, post, n) is Some),
            ));
        }
        i = i + 1;
    }
    assert(nets@.take(nets.len() as int) == nets@);
}

} // verus!

verus! {

/// The position of pin `n` in a duplicate-free pin list.
fn find_node(u: &Vec<(Reference, Pin)>, n: &(Reference, Pin)) -> (r: Option<usize>)
    ensures
        match r {
            Some(x) => x < u.len() && nodes_view(u@)[x as int] == node_view(*n),
            None => !nodes_view(u@).contains(node_view(*n)),
        },
{
    let mut i: usize = 0;
    while i < u.len()
        invariant
            i <= u.len(),
            forall|j: int| 0 <= j < i ==> nodes_view(u@)[j] != node_view(*n),
        decreases u.len() - i,
    {
        if node_eq_exec(&u[i], n) {
            return Some(i);
        }
        i = i + 1;
    }
    None
}

/// One revision's nets indexed against the compared pins `u`: the nets in
/// `big_names` order (as indices into `nets`), the net of each pin of `u`
/// (as an index into the first list), and the net that ties each pin of `u`
/// only to parts of one revision (as an index into `nets`).
pub struct SideIndex {
    pub names: Vec<usize>,
    pub net_of: Vec<Option<usize>>,
    pub lone: Vec<Option<usize>>,
}

/// `ix` describes `nets` against the pin list `u`.
pub open spec fn side_index_ok(
    ix: SideIndex,
    ea: Seq<(EntityId, Entity)>,
    eb: Seq<(EntityId, Entity)>,
    nets: Seq<Net>,
    u: Seq<NodeV>,
) -> bool {
    &&& ix.names.len() == big_names(ea, eb, nets).len()
    &&& forall|k: int|
        #![trigger ix.names@[k]]
        0 <= k < ix.names.len() ==> ix.names@[k] < nets.len() && nets[ix.names@[k] as int].name@
            == big_names(ea, eb, nets)[k]
    &&& ix.net_of.len() == u.len()
    &&& forall|x: int| 0 <= x < u.len() ==> opt_nat(#[trigger] ix.net_of@[x]) == net_of(ea, eb, nets, u[x])
    &&& ix.lone.len() == u.len()
    &&& forall|x: int|
        0 <= x < u.len() ==> match #[trigger] ix.lone@[x] {
            Some(j) => j < nets.len() && lone(ea, eb, nets, u[x]) == Some(nets[j as int].name@),
            None => lone(ea, eb, nets, u[x]) is None,
        }
}

/// A list of `n` absent entries.
fn nones(n: usize) -> (r: Vec<Option<usize>>)
    ensures
        r.len() == n,
        forall|x: int| 0 <= x < n ==> r@[x] is None,
{
    let mut v = Vec::new();
    let mut i: usize = 0;
    while i < n
        invariant
            i <= n,
            v.len() == i,
            forall|x: int| 0 <= x < i ==> v@[x] is None,
        decreases n - i,
    {
        v.push(None);
        i = i + 1;
    }
    v
}

/// Indexes one revision's nets against the compared pins `u`.
fn index_side(
    nets: &Vec<Net>,
    ea: &Vec<(EntityId, Entity)>,
    eb: &Vec<(EntityId, Entity)>,
    u: &Vec<(Reference, Pin)>,
) -> (r: SideIndex)
    requires
        strictly_sorted(nodes_view(u@), node_order()),
        forall|n: NodeV| net_of(ea@, eb@, nets@, n) is Some ==> nodes_view(u@).contains(n),
    ensures
        side_index_ok(r, ea@, eb@, nets@, nodes_view(u@)),
{
    let ghost uv = nodes_view(u@);
    let mut names: Vec<usize> = Vec::new();
    let mut net_of_v = nones(u.len());
    let mut lone_v = nones(u.len());
    let mut i: usize = 0;
    while i < nets.len()
        invariant
            i <= nets.len(),
            uv == nodes_view(u@),
            strictly_sorted(uv, node_order()),
            forall|n: NodeV| net_of(ea@, eb@, nets@, n) is Some ==> uv.contains(n),
            side_index_ok(
                SideIndex { names, net_of: net_of_v, lone: lone_v },
                ea@,
                eb@,
                nets@.take(i as int),
                uv,
            ),
        decreases nets.len() - i,
    {
        let ghost pre = nets@.take(i as int);
        let ghost post = nets@.take(i + 1);
        proof {
            assert(post.drop_last() == pre);
            assert(post.last() == nets@[i as int]);
        }
        let ghost old_names = names@;
        proof {
            assert forall|kk: int|
                0 <= kk < old_names.len() implies old_names[kk] < i && #[trigger] nets@[old_names[kk] as int].name@
                    == big_names(ea@, eb@, pre)[kk] by {
                assert(pre[old_names[kk] as int] == nets@[old_names[kk] as int]);
            }
            assert(forall|x: int| 0 <= x < uv.len() ==> opt_nat(#[trigger] net_of_v@[x]) == net_of(ea@, eb@, pre, uv[x]));
        }
        let kept = kept_of(ea, eb, &nets[i].nodes);
        let ghost kv = nodes_view(kept@);
        let ghost old_net_of = net_of_v@;
        let ghost old_lone = lone_v@;
        if kept.len() >= 2 {
            let k = names.len();
            let mut t: usize = 0;
            while t < kept.len()
                invariant
                    i < nets.len(),
                    uv == nodes_view(u@),
                    strictly_sorted(uv, node_order()),
                    forall|n: NodeV| net_of(ea@, eb@, nets@, n) is Some ==> uv.contains(n),
                    kv == nodes_view(kept@),
                    kv == kept_nodes(ea@, eb@, nets@[i as int].nodes@),
                    kv.len() >= 2,
                    post == nets@.take(i + 1),
                    post.drop_last() == nets@.take(i as int),
                    post.last() == nets@[i as int],
                    t <= kept.len(),
                    net_of_v.len() == uv.len(),
                    forall|x: int|
                        0 <= x < uv.len() ==> #[trigger] net_of_v@[x] == (if kv.take(t as int).contains(
                            uv[x],
                        ) {
                            Some(k)
                        } else {
                            old_net_of[x]
                        }),
                decreases kept.len() - t,
            {
                proof {
                    assert(kv[t as int] == node_view(kept@[t as int]));
                    assert(kv.contains(kv[t as int]));
                    assert(net_of(ea@, eb@, post, kv[t as int]) is Some);
                    lemma_net_of_prefix(ea@, eb@, nets@, i + 1, kv[t as int]);
                }
                match find_node(u, &kept[t]) {
                    Some(x) => {
                        net_of_v.set(x, Some(k));
                        proof {
                            assert forall|y: int| 0 <= y < uv.len() implies #[trigger] net_of_v@[y] == (
                            if kv.take(t + 1).contains(uv[y]) {
                                Some(k)
                            } else {
                                old_net_of[y]
                            }) by {
                                assert(kv.take(t + 1) == kv.take(t as int).push(kv[t as int]));
                                if y != x {
                                    if uv[y] == kv[t as int] {
                                        assert(node_order()(uv[y], uv[x as int]) || node_order()(
                                            uv[x as int],
                                            uv[y],
                                        ));
                                        lemma_node_order();
                                    }
                                    assert(kv.take(t + 1).contains(uv[y]) == kv.take(t as int).contains(
                                        uv[y],
                                    ));
                                } else {
                                    assert(kv.take(t + 1)[t as int] == uv[y]);
                                }
                            }
                        }
                    },
                    None => {},
                }
                t = t + 1;
            }
            names.push(i);
            proof {
                assert(kv.take(kv.len() as int) == kv);
                assert(big_names(ea@, eb@, post) == big_names(ea@, eb@, pre).push(nets@[i as int].name@));
                assert forall|x: int| 0 <= x < uv.len() implies opt_nat(#[trigger] net_of_v@[x])
                    == net_of(ea@, eb@, post, uv[x]) by {}
                assert forall|x: int|
                    0 <= x < uv.len() implies match #[trigger] lone_v@[x] {
                    Some(j) => j < nets.len() && lone(ea@, eb@, post, uv[x]) == Some(
                        nets@[j as int].name@,
                    ),
                    None => lone(ea@, eb@, post, uv[x]) is None,
                } by {
                    assert(lone_v@[x] == old_lone[x]);
                }
                assert forall|kk: int|
                    0 <= kk < names.len() implies names@[kk] < nets.len()
                        && #[trigger] nets@[names@[kk] as int].name@ == big_names(ea@, eb@, post)[kk] by {
                    if kk < names.len() - 1 {
                        assert(names@[kk] == old_names[kk]);
                        assert(big_names(ea@, eb@, post)[kk] == big_names(ea@, eb@, pre)[kk]);
                    } else {
                        assert(names@[kk] == i);
                    }
                }
            }
        } else {
            if nets[i].nodes.len() >= 2 {
                let mut t: usize = 0;
                while t < kept.len()
                    invariant
                        i < nets.len(),
                        uv == nodes_view(u@),
                        strictly_sorted(uv, node_order()),
                        kv == nodes_view(kept@),
                        t <= kept.len(),
                        lone_v.len() == uv.len(),
                        forall|x: int|
                            0 <= x < uv.len() ==> #[trigger] lone_v@[x] == (if kv.take(t as int).contains(
                                uv[x],
                            ) {
                                Some(i)
                            } else {
                                old_lone[x]
                            }),
                    decreases kept.len() - t,
                {
                    proof {
                        assert(kv[t as int] == node_view(kept@[t as int]));
                    }
                    match find_node(u, &kept[t]) {
                        Some(x) => {
                            lone_v.set(x, Some(i));
                            proof {
                                assert forall|y: int| 0 <= y < uv.len() implies #[trigger] lone_v@[y] == (
                                if kv.take(t + 1).contains(uv[y]) {
                                    Some(i)
                                } else {
                                    old_lone[y]
                                }) by {
                                    assert(kv.take(t + 1) == kv.take(t as int).push(kv[t as int]));
                                    if y != x {
                                        if uv[y] == kv[t as int] {
                                            lemma_node_order();
                                            assert(node_order()(uv[y], uv[x as int]) || node_order()(
                                                uv[x as int],
                                                uv[y],
                                            ));
                                        }
                                        assert(kv.take(t + 1).contains(uv[y]) == kv.take(
                                            t as int,
                                        ).contains(uv[y]));
                                    } else {
                                        assert(kv.take(t + 1)[t as int] == uv[y]);
                                    }
                                }
                            }
                        },
                        None => {
                            proof {
                                assert forall|y: int| 0 <= y < uv.len() implies #[trigger] lone_v@[y] == (
                                if kv.take(t + 1).contains(uv[y]) {
                                    Some(i)
                                } else {
                                    old_lone[y]
                                }) by {
                                    assert(kv.take(t + 1) == kv.take(t as int).push(kv[t as int]));
                                    assert(uv[y] != kv[t as int]);
                                    assert(kv.take(t + 1).contains(uv[y]) == kv.take(t as int).contains(
                                        uv[y],
                                    ));
                                }
                            }
                        },
                    }
                    t = t + 1;
                }
                proof {
                    assert(kv.take(kv.len() as int) == kv);
                }
            }
            proof {
                assert(big_names(ea@, eb@, post) == big_names(ea@, eb@, pre));
                assert forall|x: int| 0 <= x < uv.len() implies opt_nat(#[trigger] net_of_v@[x])
                    == net_of(ea@, eb@, post, uv[x]) by {}
                assert forall|x: int|
                    0 <= x < uv.len() implies match #[trigger] lone_v@[x] {
                    Some(j) => j < nets.len() && lone(ea@, eb@, post, uv[x]) == Some(
                        nets@[j as int].name@,
                    ),
                    None => lone(ea@, eb@, post, uv[x]) is None,
                } by {}
            }
        }
        i = i + 1;
    }
    proof {
        assert(nets@.take(nets.len() as int) == nets@);
    }
    SideIndex { names, net_of: net_of_v, lone: lone_v }
}

} // verus!

verus! {

/// Everything the connectivity comparison reads: both revisions' parts and nets.
pub struct ConnInput {
    pub ea: Seq<(EntityId, Entity)>,
    pub eb: Seq<(EntityId, Entity)>,
    pub nets_a: Seq<Net>,
    pub nets_b: Seq<Net>,
}

impl ConnInput {
    /// The base-side net of a compared pin.
    pub open spec fn na(self, n: NodeV) -> Option<nat> {
        net_of(self.ea, self.eb, self.nets_a, n)
    }

    /// The head-side net of a compared pin.
    pub open spec fn nb(self, n: NodeV) -> Option<nat> {
        net_of(self.ea, self.eb, self.nets_b, n)
    }

    /// Base-side net names.
    pub open spec fn names_a(self) -> Seq<Seq<char>> {
        big_names(self.ea, self.eb, self.nets_a)
    }

    /// Head-side net names.
    pub open spec fn names_b(self) -> Seq<Seq<char>> {
        big_names(self.ea, self.eb, self.nets_b)
    }

    /// The compared pins in order.
    pub open spec fn universe(self) -> Seq<NodeV> {
        node_universe(self.ea, self.eb, self.nets_a, self.nets_b)
    }

    /// How many compared pins base net `ai` and head net `bi` share.
    pub open spec fn overlap(self, ai: nat, bi: nat) -> nat {
        count_shared(self, self.universe(), ai, bi)
    }
}

/// How many pins of `u` sit on base net `ai` and head net `bi`.
pub open spec fn count_shared(c: ConnInput, u: Seq<NodeV>, ai: nat, bi: nat) -> nat
    decreases u.len(),
{
    if u.len() == 0 {
        0
    } else {
        count_shared(c, u.drop_last(), ai, bi) + (if c.na(u.last()) == Some(ai) && c.nb(u.last())
            == Some(bi) {
            1nat
        } else {
            0nat
        })
    }
}

/// The last position of `name` in `names`.
pub open spec fn last_named(names: Seq<Seq<char>>, name: Seq<char>) -> Option<nat>
    decreases names.len(),
{
    if names.len() == 0 {
        None
    } else if names.last() == name {
        Some((names.len() - 1) as nat)
    } else {
        last_named(names.drop_last(), name)
    }
}

/// The net matching after visiting the first `k` base nets by name: a base
/// net that kept its name and shares a pin with the same-named head net is
/// that net (when no earlier base net claimed it). The state is the head
/// net matched to each base net, and which head nets are taken.
pub open spec fn match_by_name(c: ConnInput, k: nat) -> (Seq<Option<nat>>, Seq<bool>)
    decreases k,
{
    if k == 0 {
        (Seq::new(c.names_a().len(), |i: int| None), Seq::new(c.names_b().len(), |i: int| false))
    } else {
        let (m, t) = match_by_name(c, (k - 1) as nat);
        let ai = (k - 1) as nat;
        match last_named(c.names_b(), c.names_a()[ai as int]) {
            Some(bi) => if c.overlap(ai, bi) > 0 && !t[bi as int] {
                (m.update(ai as int, Some(bi)), t.update(bi as int, true))
            } else {
                (m, t)
            },
            None => (m, t),
        }
    }
}

/// Net pairs order by descending shared pins, then by base net, then head net.
pub open spec fn pair_order(c: ConnInput) -> spec_fn((nat, nat), (nat, nat)) -> bool {
    |p: (nat, nat), q: (nat, nat)|
        c.overlap(p.0, p.1) > c.overlap(q.0, q.1) || (c.overlap(p.0, p.1) == c.overlap(q.0, q.1) && (
        p.0 < q.0 || (p.0 == q.0 && p.1 < q.1)))
}

/// The net pairs sharing at least one compared pin, best overlap first.
pub open spec fn overlap_pairs(c: ConnInput) -> Seq<(nat, nat)> {
    sorted_seq_of(
        Set::new(
            |p: (nat, nat)|
                p.0 < c.names_a().len() && p.1 < c.names_b().len() && c.overlap(p.0, p.1) > 0,
        ),
        pair_order(c),
    )
}

/// Greedy matching of the remaining nets over `ps`, in order.
pub open spec fn match_greedy(ps: Seq<(nat, nat)>, st: (Seq<Option<nat>>, Seq<bool>)) -> (
    Seq<Option<nat>>,
    Seq<bool>,
)
    decreases ps.len(),
{
    if ps.len() == 0 {
        st
    } else {
        let (m, t) = match_greedy(ps.drop_last(), st);
        let p = ps.last();
        if m[p.0 as int] is None && !t[p.1 as int] {
            (m.update(p.0 as int, Some(p.1)), t.update(p.1 as int, true))
        } else {
            (m, t)
        }
    }
}

/// The head net each base net is matched to.
pub open spec fn matched(c: ConnInput) -> Seq<Option<nat>> {
    match_greedy(overlap_pairs(c), match_by_name(c, c.names_a().len())).0
}

/// A pin's net index is within the net list.
proof fn lemma_net_of_bound(
    ea: Seq<(EntityId, Entity)>,
    eb: Seq<(EntityId, Entity)>,
    nets: Seq<Net>,
    n: NodeV,
)
    ensures
        match net_of(ea, eb, nets, n) {
            Some(k) => k < big_names(ea, eb, nets).len(),
            None => true,
        },
    decreases nets.len(),
{
    if nets.len() > 0 {
        lemma_net_of_bound(ea, eb, nets.drop_last(), n);
    }
}

/// A pin's net index is within the net list.
pub proof fn lemma_net_of_bound_pub(
    ea: Seq<(EntityId, Entity)>,
    eb: Seq<(EntityId, Entity)>,
    nets: Seq<Net>,
    n: NodeV,
)
    ensures
        match net_of(ea, eb, nets, n) {
            Some(k) => k < big_names(ea, eb, nets).len(),
            None => true,
        },
{
    lemma_net_of_bound(ea, eb, nets, n);
}

/// `pair_order` is a strict order.
proof fn lemma_pair_order(c: ConnInput)
    ensures
        strict_order(pair_order(c)),
{
}

} // verus!

verus! {

/// A count of pins never exceeds the pins counted.
proof fn lemma_count_shared_le(c: ConnInput, u: Seq<NodeV>, ai: nat, bi: nat)
    ensures
        count_shared(c, u, ai, bi) <= u.len(),
    decreases u.len(),
{
    if u.len() > 0 {
        lemma_count_shared_le(c, u.drop_last(), ai, bi);
    }
}

/// The pairs of a net-pair list, as naturals.
pub open spec fn pair_view(r: Seq<(usize, usize, usize)>) -> Seq<(nat, nat)> {
    r.map_values(|e: (usize, usize, usize)| (e.0 as nat, e.1 as nat))
}

/// The base/head indices of a side are the ones `c` describes.
pub open spec fn indexed(c: ConnInput, ia: SideIndex, ib: SideIndex) -> bool {
    &&& side_index_ok(ia, c.ea, c.eb, c.nets_a, c.universe())
    &&& side_index_ok(ib, c.ea, c.eb, c.nets_b, c.universe())
}

/// `r` lists each net pair sharing compared pins once, with its share.
pub open spec fn overlap_list(c: ConnInput, r: Seq<(usize, usize, usize)>) -> bool {
    &&& forall|i: int|
        #![trigger r[i]]
        0 <= i < r.len() ==> r[i].2 == c.overlap(r[i].0 as nat, r[i].1 as nat) && r[i].2 > 0
            && r[i].0 < c.names_a().len() && r[i].1 < c.names_b().len()
    &&& pair_view(r).no_duplicates()
    &&& pair_view(r).to_set() == Set::new(
        |p: (nat, nat)| p.0 < c.names_a().len() && p.1 < c.names_b().len() && c.overlap(p.0, p.1) > 0,
    )
}

/// Counts, for every pair of nets, the compared pins they share.
fn count_overlaps(ia: &SideIndex, ib: &SideIndex, Ghost(c): Ghost<ConnInput>) -> (r: Vec<
    (usize, usize, usize),
>)
    requires
        indexed(c, *ia, *ib),
    ensures
        overlap_list(c, r@),
{
    let ghost u = c.universe();
    let mut out: Vec<(usize, usize, usize)> = Vec::new();
    let mut x: usize = 0;
    while x < ia.net_of.len()
        invariant
            indexed(c, *ia, *ib),
            u == c.universe(),
            x <= u.len(),
            forall|i: int|
                #![trigger out@[i]]
                0 <= i < out.len() ==> out@[i].2 == count_shared(
                    c,
                    u.take(x as int),
                    out@[i].0 as nat,
                    out@[i].1 as nat,
                ) && out@[i].2 > 0 && out@[i].0 < c.names_a().len() && out@[i].1 < c.names_b().len(),
            pair_view(out@).no_duplicates(),
            pair_view(out@).to_set() == Set::new(
                |p: (nat, nat)|
                    p.0 < c.names_a().len() && p.1 < c.names_b().len() && count_shared(
                        c,
                        u.take(x as int),
                        p.0,
                        p.1,
                    ) > 0,
            ),
        decreases u.len() - x,
    {
        let ghost pre = u.take(x as int);
        let ghost post = u.take(x + 1);
        proof {
            assert(post.drop_last() == pre);
            assert(post.last() == u[x as int]);
            lemma_net_of_bound(c.ea, c.eb, c.nets_a, u[x as int]);
            lemma_net_of_bound(c.ea, c.eb, c.nets_b, u[x as int]);
            assert(opt_nat(ia.net_of@[x as int]) == c.na(u[x as int]));
            assert(opt_nat(ib.net_of@[x as int]) == c.nb(u[x as int]));
        }
        let ghost old_out = out@;
        proof {
            assert forall|p: (nat, nat)| #![trigger count_shared(c, post, p.0, p.1)]
                count_shared(c, post, p.0, p.1) == count_shared(c, pre, p.0, p.1) + (if c.na(u[x as int])
                    == Some(p.0) && c.nb(u[x as int]) == Some(p.1) {
                    1nat
                } else {
                    0nat
                }) by {}
        }
        match (ia.net_of[x], ib.net_of[x]) {
            (Some(ai), Some(bi)) => {
                let mut j: usize = 0;
                while j < out.len() && !(out[j].0 == ai && out[j].1 == bi)
                    invariant
                        j <= out.len(),
                        out@ == old_out,
                        forall|k: int| 0 <= k < j ==> !(out@[k].0 == ai && out@[k].1 == bi),
                    decreases out.len() - j,
                {
                    j = j + 1;
                }
                if j < out.len() {
                    let e = out[j];
                    proof {
                        lemma_count_shared_le(c, pre, ai as nat, bi as nat);
                        assert(out@[j as int] == e);
                    }
                    out.set(j, (ai, bi, e.2 + 1));
                    proof {
                        assert(pair_view(out@) =~= pair_view(old_out));
                        assert forall|i: int|
                            #![trigger out@[i]]
                            0 <= i < out.len() implies out@[i].2 == count_shared(
                                c,
                                post,
                                out@[i].0 as nat,
                                out@[i].1 as nat,
                            ) && out@[i].2 > 0 && out@[i].0 < c.names_a().len() && out@[i].1
                                < c.names_b().len() by {
                            if i != j {
                                assert(out@[i] == old_out[i]);
                                assert(pair_view(old_out)[i] != pair_view(old_out)[j as int]);
                            }
                        }
                        assert(pair_view(out@).to_set() =~= Set::new(
                            |p: (nat, nat)|
                                p.0 < c.names_a().len() && p.1 < c.names_b().len() && count_shared(
                                    c,
                                    post,
                                    p.0,
                                    p.1,
                                ) > 0,
                        )) by {
                            assert(pair_view(old_out).to_set().contains(pair_view(old_out)[j as int]));
                        }
                    }
                } else {
                    proof {
                        assert(!pair_view(old_out).contains((ai as nat, bi as nat))) by {
                            if pair_view(old_out).contains((ai as nat, bi as nat)) {
                                let k = choose|k: int|
                                    0 <= k < old_out.len() && pair_view(old_out)[k] == (
                                        ai as nat,
                                        bi as nat,
                                    );
                                assert(old_out[k].0 == ai && old_out[k].1 == bi);
                            }
                        }
                        assert(!pair_view(old_out).to_set().contains((ai as nat, bi as nat)));
                    }
                    out.push((ai, bi, 1));
                    proof {
                        assert(pair_view(out@) =~= pair_view(old_out).push((ai as nat, bi as nat)));
                        crate::order::lemma_push_to_set(pair_view(old_out), (ai as nat, bi as nat));
                        assert forall|i: int|
                            #![trigger out@[i]]
                            0 <= i < out.len() implies out@[i].2 == count_shared(
                                c,
                                post,
                                out@[i].0 as nat,
                                out@[i].1 as nat,
                            ) && out@[i].2 > 0 && out@[i].0 < c.names_a().len() && out@[i].1
                                < c.names_b().len() by {
                            if i < old_out.len() {
                                assert(out@[i] == old_out[i]);
                                assert(pair_view(old_out)[i] != (ai as nat, bi as nat));
                            }
                        }
                        assert(pair_view(out@).to_set() =~= Set::new(
                            |p: (nat, nat)|
                                p.0 < c.names_a().len() && p.1 < c.names_b().len() && count_shared(
                                    c,
                                    post,
                                    p.0,
                                    p.1,
                                ) > 0,
                        ));
                    }
                }
            },
            _ => {
                proof {
                    assert(pair_view(out@).to_set() =~= Set::new(
                        |p: (nat, nat)|
                            p.0 < c.names_a().len() && p.1 < c.names_b().len() && count_shared(
                                c,
                                post,
                                p.0,
                                p.1,
                            ) > 0,
                    ));
                }
            },
        }
        x = x + 1;
    }
    proof {
        assert(x == u.len());
        assert(u.take(x as int) == u);
        assert(pair_view(out@).to_set() =~= Set::new(
            |p: (nat, nat)| p.0 < c.names_a().len() && p.1 < c.names_b().len() && c.overlap(p.0, p.1) > 0,
        ));
    }
    out
}

} // verus!

verus! {

/// Whether net pair `p` goes before `q`: more shared pins first, then by
/// base net, then by head net.
fn pair_before(p: (usize, usize, usize), q: (usize, usize, usize)) -> (r: bool)
    ensures
        r == (p.2 > q.2 || (p.2 == q.2 && (p.0 < q.0 || (p.0 == q.0 && p.1 < q.1)))),
{
    p.2 > q.2 || (p.2 == q.2 && (p.0 < q.0 || (p.0 == q.0 && p.1 < q.1)))
}

/// The net pairs of `r`, best overlap first.
fn sort_pairs(r: &Vec<(usize, usize, usize)>, Ghost(c): Ghost<ConnInput>) -> (s: Vec<
    (usize, usize, usize),
>)
    requires
        overlap_list(c, r@),
    ensures
        pair_view(s@) == overlap_pairs(c),
        forall|i: int|
            #![trigger s@[i]]
            0 <= i < s.len() ==> s@[i].0 < c.names_a().len() && s@[i].1 < c.names_b().len(),
{
    let ghost ord = pair_order(c);
    let mut out: Vec<(usize, usize, usize)> = Vec::new();
    let mut k: usize = 0;
    while k < r.len()
        invariant
            k <= r.len(),
            overlap_list(c, r@),
            ord == pair_order(c),
            strictly_sorted(pair_view(out@), ord),
            forall|i: int| #![trigger out@[i]] 0 <= i < out.len() ==> out@[i].2 == c.overlap(out@[i].0 as nat, out@[i].1 as nat)
                && out@[i].0 < c.names_a().len() && out@[i].1 < c.names_b().len(),
            pair_view(out@).to_set() == pair_view(r@).take(k as int).to_set(),
        decreases r.len() - k,
    {
        let e = r[k];
        let ghost ev = (e.0 as nat, e.1 as nat);
        let ghost old_out = out@;
        let ghost ov = pair_view(old_out);
        proof {
            assert(r@[k as int] == e);
            assert(pair_view(r@)[k as int] == ev);
            if ov.contains(ev) {
                let j = choose|j: int| 0 <= j < ov.len() && ov[j] == ev;
                assert(ov.to_set().contains(ev));
                let m = choose|m: int| 0 <= m < k && pair_view(r@).take(k as int)[m] == ev;
                assert(pair_view(r@)[m] == pair_view(r@)[k as int]);
            }
        }
        let mut i: usize = 0;
        while i < out.len() && pair_before(out[i], e)
            invariant
                i <= out.len(),
                out@ == old_out,
                ov == pair_view(old_out),
                ord == pair_order(c),
                ev == (e.0 as nat, e.1 as nat),
                e.2 == c.overlap(ev.0, ev.1),
                forall|m: int| #![trigger old_out[m]] 0 <= m < old_out.len() ==> old_out[m].2 == c.overlap(old_out[m].0 as nat, old_out[m].1 as nat),
                forall|j: int| 0 <= j < i ==> ord(ov[j], ev),
            decreases out.len() - i,
        {
            assert(ov[i as int] == (old_out[i as int].0 as nat, old_out[i as int].1 as nat));
            i = i + 1;
        }
        proof {
            lemma_pair_order(c);
            if i < out.len() {
                assert(ov[i as int] == (old_out[i as int].0 as nat, old_out[i as int].1 as nat));
                assert(ov[i as int] != ev);
                assert(ord(ev, ov[i as int]));
            }
        }
        out.insert(i, e);
        proof {
            let nu = pair_view(out@);
            assert(nu =~= ov.insert(i as int, ev));
            assert forall|a: int, b: int| 0 <= a < b < nu.len() implies ord(nu[a], nu[b]) by {
                if b < i {
                    assert(nu[a] == ov[a] && nu[b] == ov[b]);
                } else if a < i && b == i {
                    assert(nu[a] == ov[a] && nu[b] == ev);
                } else if a < i {
                    assert(nu[a] == ov[a] && nu[b] == ov[b - 1]);
                    assert(ord(ov[a], ev));
                    assert(ord(ev, ov[i as int]));
                    assert(ord(ov[a], ov[i as int]));
                    if b - 1 > i {
                        assert(ord(ov[i as int], ov[b - 1]));
                    }
                } else if a == i {
                    assert(nu[a] == ev && nu[b] == ov[b - 1]);
                    assert(ord(ev, ov[i as int]));
                    if b - 1 > i {
                        assert(ord(ov[i as int], ov[b - 1]));
                    }
                } else {
                    assert(nu[a] == ov[a - 1] && nu[b] == ov[b - 1]);
                }
            }
            assert forall|m: int| #![trigger out@[m]] 0 <= m < out.len() implies out@[m].2 == c.overlap(out@[m].0 as nat, out@[m].1 as nat)
                && out@[m].0 < c.names_a().len() && out@[m].1 < c.names_b().len() by {
                if m < i {
                    assert(out@[m] == old_out[m]);
                } else if m > i {
                    assert(out@[m] == old_out[m - 1]);
                }
            }
            assert(pair_view(r@).take(k + 1) == pair_view(r@).take(k as int).push(ev));
            crate::order::lemma_push_to_set(pair_view(r@).take(k as int), ev);
            assert forall|x: (nat, nat)| nu.to_set().contains(x) <==> ov.to_set().insert(ev).contains(x) by {
                if nu.to_set().contains(x) {
                    let q = choose|q: int| 0 <= q < nu.len() && nu[q] == x;
                    if q < i {
                        assert(ov[q] == x);
                    } else if q > i {
                        assert(ov[q - 1] == x);
                    }
                }
                if ov.to_set().contains(x) {
                    let q = choose|q: int| 0 <= q < ov.len() && ov[q] == x;
                    if q < i {
                        assert(nu[q] == x);
                    } else {
                        assert(nu[q + 1] == x);
                    }
                }
                if x == ev {
                    assert(nu[i as int] == x);
                }
            }
            assert(nu.to_set() =~= pair_view(r@).take(k + 1).to_set());
        }
        k = k + 1;
    }
    proof {
        assert(pair_view(r@).take(r.len() as int) == pair_view(r@));
        lemma_pair_order(c);
        crate::order::lemma_is_sorted_seq_of(
            pair_view(out@),
            Set::new(
                |p: (nat, nat)|
                    p.0 < c.names_a().len() && p.1 < c.names_b().len() && c.overlap(p.0, p.1) > 0,
            ),
            pair_order(c),
        );
    }
    out
}

} // verus!

verus! {

/// Optional indices as optional naturals.
pub open spec fn opt_nats(m: Seq<Option<usize>>) -> Seq<Option<nat>> {
    m.map_values(|o: Option<usize>| opt_nat(o))
}

/// The last head net named like base net `name`.
fn last_named_exec(
    nets_b: &Vec<Net>,
    ib: &SideIndex,
    name: &NetName,
    Ghost(c): Ghost<ConnInput>,
) -> (r: Option<usize>)
    requires
        side_index_ok(*ib, c.ea, c.eb, c.nets_b, c.universe()),
        nets_b@ == c.nets_b,
    ensures
        opt_nat(r) == last_named(c.names_b(), name@),
{
    let mut bi = ib.names.len();
    assert(c.names_b().take(bi as int) == c.names_b());
    while bi > 0
        invariant
            bi <= ib.names.len(),
            side_index_ok(*ib, c.ea, c.eb, c.nets_b, c.universe()),
            nets_b@ == c.nets_b,
            last_named(c.names_b(), name@) == last_named(c.names_b().take(bi as int), name@),
        decreases bi,
    {
        let k = ib.names[bi - 1];
        proof {
            assert(ib.names@[bi - 1] == k);
            assert(c.names_b().take(bi as int).last() == c.names_b()[bi - 1]);
            assert(c.names_b().take(bi as int).drop_last() == c.names_b().take(bi - 1));
        }
        if str_eq(nets_b[k].name.as_str(), name.as_str()) {
            return Some(bi - 1);
        }
        bi = bi - 1;
    }
    None
}

/// Whether base net `ai` and head net `bi` share a compared pin.
fn shares_pin(ov: &Vec<(usize, usize, usize)>, ai: usize, bi: usize, Ghost(c): Ghost<ConnInput>) -> (r: bool)
    requires
        overlap_list(c, ov@),
        ai < c.names_a().len(),
        bi < c.names_b().len(),
    ensures
        r == (c.overlap(ai as nat, bi as nat) > 0),
{
    let mut j: usize = 0;
    while j < ov.len()
        invariant
            j <= ov.len(),
            overlap_list(c, ov@),
            forall|k: int| 0 <= k < j ==> !(ov@[k].0 == ai && ov@[k].1 == bi),
        decreases ov.len() - j,
    {
        if ov[j].0 == ai && ov[j].1 == bi {
            assert(ov@[j as int] == ov[j as int]);
            return true;
        }
        j = j + 1;
    }
    proof {
        if c.overlap(ai as nat, bi as nat) > 0 {
            let p = (ai as nat, bi as nat);
            assert(pair_view(ov@).to_set().contains(p));
            let k = choose|k: int| 0 <= k < ov.len() && pair_view(ov@)[k] == p;
            assert(ov@[k].0 == ai && ov@[k].1 == bi);
        }
    }
    false
}

/// A list of `n` false flags.
fn falses(n: usize) -> (r: Vec<bool>)
    ensures
        r@ == Seq::new(n as nat, |i: int| false),
{
    let mut v = Vec::new();
    let mut i: usize = 0;
    while i < n
        invariant
            i <= n,
            v@ == Seq::new(i as nat, |j: int| false),
        decreases n - i,
    {
        v.push(false);
        i = i + 1;
        assert(v@ =~= Seq::new(i as nat, |j: int| false));
    }
    v
}

/// Pairs each base net with the head net it became: a net that kept its
/// name and a pin is the same net; the rest pair by greatest pin overlap,
/// greedily.
fn match_nets(
    nets_a: &Vec<Net>,
    nets_b: &Vec<Net>,
    ia: &SideIndex,
    ib: &SideIndex,
    ov: &Vec<(usize, usize, usize)>,
    Ghost(c): Ghost<ConnInput>,
) -> (m: Vec<Option<usize>>)
    requires
        indexed(c, *ia, *ib),
        overlap_list(c, ov@),
        nets_a@ == c.nets_a,
        nets_b@ == c.nets_b,
    ensures
        opt_nats(m@) == matched(c),
        m.len() == c.names_a().len(),
{
    let mut m = nones(ia.names.len());
    let mut t = falses(ib.names.len());
    proof {
        assert(opt_nats(m@) =~= match_by_name(c, 0).0);
    }
    let mut ai: usize = 0;
    while ai < ia.names.len()
        invariant
            ai <= ia.names.len(),
            indexed(c, *ia, *ib),
            overlap_list(c, ov@),
            nets_a@ == c.nets_a,
            nets_b@ == c.nets_b,
            (opt_nats(m@), t@) == match_by_name(c, ai as nat),
            m.len() == c.names_a().len(),
            t.len() == c.names_b().len(),
        decreases ia.names.len() - ai,
    {
        let k = ia.names[ai];
        proof {
            assert(ia.names@[ai as int] == k);
        }
        match last_named_exec(nets_b, ib, &nets_a[k].name, Ghost(c)) {
            Some(bi) => {
                proof {
                    lemma_last_named_bound(c.names_b(), c.names_a()[ai as int]);
                }
                if shares_pin(ov, ai, bi, Ghost(c)) && !t[bi] {
                    m.set(ai, Some(bi));
                    t.set(bi, true);
                    proof {
                        assert(opt_nats(m@) =~= match_by_name(c, (ai + 1) as nat).0);
                    }
                }
            },
            None => {},
        }
        ai = ai + 1;
    }
    let ps = sort_pairs(ov, Ghost(c));
    let ghost st0 = match_by_name(c, c.names_a().len());
    let mut k: usize = 0;
    while k < ps.len()
        invariant
            k <= ps.len(),
            pair_view(ps@) == overlap_pairs(c),
            forall|i: int|
                #![trigger ps@[i]]
                0 <= i < ps.len() ==> ps@[i].0 < c.names_a().len() && ps@[i].1 < c.names_b().len(),
            st0 == match_by_name(c, c.names_a().len()),
            (opt_nats(m@), t@) == match_greedy(pair_view(ps@).take(k as int), st0),
            m.len() == c.names_a().len(),
            t.len() == c.names_b().len(),
            overlap_list(c, ov@),
        decreases ps.len() - k,
    {
        let p = ps[k];
        proof {
            assert(ps@[k as int] == p);
            let pv = pair_view(ps@);
            assert(pv.take(k + 1).drop_last() == pv.take(k as int));
            assert(pv.take(k + 1).last() == (p.0 as nat, p.1 as nat));
        }
        if m[p.0].is_none() && !t[p.1] {
            m.set(p.0, Some(p.1));
            t.set(p.1, true);
            proof {
                assert(opt_nats(m@) =~= match_greedy(pair_view(ps@).take(k + 1), st0).0);
            }
        }
        k = k + 1;
    }
    proof {
        assert(pair_view(ps@).take(ps.len() as int) == pair_view(ps@));
    }
    m
}

/// `last_named` reports a position within the list.
pub proof fn lemma_last_named_bound(names: Seq<Seq<char>>, name: Seq<char>)
    ensures
        match last_named(names, name) {
            Some(i) => i < names.len(),
            None => true,
        },
    decreases names.len(),
{
    if names.len() > 0 {
        lemma_last_named_bound(names.drop_last(), name);
    }
}

} // verus!

verus! {

impl ConnInput {
    /// The base-side net tying a pin only to base-only parts.
    pub open spec fn lone_a(self, n: NodeV) -> Option<Seq<char>> {
        lone(self.ea, self.eb, self.nets_a, n)
    }

    /// The head-side net tying a pin only to head-only parts.
    pub open spec fn lone_b(self, n: NodeV) -> Option<Seq<char>> {
        lone(self.ea, self.eb, self.nets_b, n)
    }
}

/// One reported pin: where its connection went from and to, and whether it
/// dangles on head (`Some(true)`, disconnected) or on base (`Some(false)`,
/// newly connected).
pub struct RowV {
    pub node: NodeV,
    pub from: Seq<char>,
    pub to: Seq<char>,
    pub fate: Option<bool>,
}

/// The pin stayed on the same net (as the matching pairs nets).
pub open spec fn same_net(c: ConnInput, m: Seq<Option<nat>>, n: NodeV) -> bool {
    match (c.na(n), c.nb(n)) {
        (Some(ai), Some(bi)) => m[ai as int] == Some(bi),
        (None, None) => true,
        _ => false,
    }
}

/// How a pin's net reads on one side: the net's short name; a net tying it
/// only to one-revision parts, marked with `suffix`; or "unconnected".
pub open spec fn side_text(
    names: Seq<Seq<char>>,
    net: Option<nat>,
    lone_net: Option<Seq<char>>,
    suffix: Seq<char>,
) -> Seq<char> {
    match net {
        Some(i) => short_net_spec(names[i as int]),
        None => match lone_net {
            Some(name) => short_net_spec(name) + suffix,
            None => "unconnected"@,
        },
    }
}

/// `Some(true)` for a pin genuinely dangling on head, `Some(false)` for one
/// dangling on base; a pin is never both.
pub open spec fn fate(c: ConnInput, n: NodeV) -> Option<bool> {
    if c.nb(n) is None && c.lone_b(n) is None {
        Some(true)
    } else if c.na(n) is None && c.lone_a(n) is None {
        Some(false)
    } else {
        None
    }
}

/// Part `e` has a drawn pin numbered `p`.
pub open spec fn has_pin(e: Entity, p: Seq<char>) -> bool {
    exists|j: int| #![trigger e.pins@[j]] 0 <= j < e.pins.len() && e.pins@[j].0@ == p
}

/// Part `e` hides a pin numbered `p`.
pub open spec fn hides_pin(e: Entity, p: Seq<char>) -> bool {
    exists|j: int| #![trigger e.hidden_pins@[j]] 0 <= j < e.hidden_pins.len() && e.hidden_pins@[j]@ == p
}

/// Whether pin `p` exists on the symbols one side places for reference `r`;
/// `None` when there are none, or their drawings expose no pins to judge by.
pub open spec fn ref_has_pin(es: Seq<(EntityId, Entity)>, r: Seq<char>, p: Seq<char>) -> Option<bool> {
    if !has_ref(es, r) {
        None
    } else if forall|i: int|
        #![trigger es[i]]
        0 <= i < es.len() && es[i].1.reference@ == r ==> es[i].1.pins.len() == 0 {
        None
    } else {
        Some(
            exists|i: int|
                #![trigger es[i]]
                0 <= i < es.len() && es[i].1.reference@ == r && (has_pin(es[i].1, p) || hides_pin(
                    es[i].1,
                    p,
                )),
        )
    }
}

/// A dangling pin the symbol on that side does not even have went away (or
/// arrived) with a symbol swap; the change on the part itself says it.
pub open spec fn silenced(c: ConnInput, n: NodeV) -> bool {
    match fate(c, n) {
        Some(true) => ref_has_pin(c.eb, n.0, n.1) == Some(false),
        Some(false) => ref_has_pin(c.ea, n.0, n.1) == Some(false),
        None => false,
    }
}

/// The reported pins among `u`, in order.
pub open spec fn conn_rows(c: ConnInput, m: Seq<Option<nat>>, u: Seq<NodeV>) -> Seq<RowV>
    decreases u.len(),
{
    if u.len() == 0 {
        seq![]
    } else {
        let rest = conn_rows(c, m, u.drop_last());
        let n = u.last();
        if same_net(c, m, n) || silenced(c, n) {
            rest
        } else {
            rest.push(
                RowV {
                    node: n,
                    from: side_text(c.names_a(), c.na(n), c.lone_a(n), " (removed parts)"@),
                    to: side_text(c.names_b(), c.nb(n), c.lone_b(n), " (added parts)"@),
                    fate: fate(c, n),
                },
            )
        }
    }
}

/// The reported pins.
pub open spec fn rows_of(c: ConnInput) -> Seq<RowV> {
    conn_rows(c, matched(c), c.universe())
}

/// How many reported pins of part `r` share fate `f`.
pub open spec fn dangling(rows: Seq<RowV>, r: Seq<char>, f: bool) -> nat
    decreases rows.len(),
{
    if rows.len() == 0 {
        0
    } else {
        dangling(rows.drop_last(), r, f) + (if rows.last().node.0 == r && rows.last().fate == Some(
            f,
        ) {
            1nat
        } else {
            0nat
        })
    }
}

/// Several pins of one part dangling the same way fold into one row.
pub open spec fn stormed(all: Seq<RowV>, row: RowV) -> bool {
    match row.fate {
        Some(f) => dangling(all, row.node.0, f) >= 3,
        None => false,
    }
}

/// Position of pin `p` among part `e`'s drawn pins.
pub open spec fn pin_index(e: Entity, p: Seq<char>, k: int) -> Option<int>
    decreases k,
{
    if k <= 0 {
        None
    } else {
        match pin_index(e, p, k - 1) {
            Some(j) => Some(j),
            None => if e.pins@[k - 1].0@ == p {
                Some(k - 1)
            } else {
                None
            },
        }
    }
}

/// Where part `e` draws pin `p`.
pub open spec fn pin_at(e: Entity, p: Seq<char>) -> Option<Point> {
    match pin_index(e, p, e.pins.len() as int) {
        Some(j) => Some(e.pins@[j].1),
        None => None,
    }
}

/// The first part (in map order) of reference `r` satisfying `want`.
pub open spec fn first_part(
    es: Seq<(EntityId, Entity)>,
    r: Seq<char>,
    want: spec_fn(Entity) -> bool,
    k: int,
) -> Option<int>
    decreases k,
{
    if k <= 0 {
        None
    } else {
        match first_part(es, r, want, k - 1) {
            Some(i) => Some(i),
            None => if es[k - 1].1.reference@ == r && want(es[k - 1].1) {
                Some(k - 1)
            } else {
                None
            },
        }
    }
}

/// The first part of reference `r`.
pub open spec fn ref_first(es: Seq<(EntityId, Entity)>, r: Seq<char>) -> Option<int> {
    first_part(es, r, |e: Entity| true, es.len() as int)
}

/// The part of reference `r` that draws pin `p` (the first such), or else
/// its first part; with the pin's location, falling back to the part's.
pub open spec fn locate(es: Seq<(EntityId, Entity)>, r: Seq<char>, p: Seq<char>) -> Option<
    (int, Option<Point>),
> {
    match first_part(es, r, |e: Entity| pin_at(e, p) is Some, es.len() as int) {
        Some(i) => Some((i, pin_at(es[i].1, p))),
        None => match ref_first(es, r) {
            Some(i) => Some((i, es[i].1.at)),
            None => None,
        },
    }
}

/// The sheet of the part a change points at: head side first, then base.
pub open spec fn located_sheet(
    ea: Seq<(EntityId, Entity)>,
    eb: Seq<(EntityId, Entity)>,
    base: Option<int>,
    head: Option<int>,
) -> Option<Seq<char>> {
    match head {
        Some(i) => page_view(eb[i].1.sheet),
        None => match base {
            Some(i) => page_view(ea[i].1.sheet),
            None => None,
        },
    }
}

/// The location half of an optional located pin.
pub open spec fn located_at(l: Option<(int, Option<Point>)>) -> Option<Point> {
    match l {
        Some(x) => x.1,
        None => None,
    }
}

/// The part half of an optional located pin.
pub open spec fn located_part(l: Option<(int, Option<Point>)>) -> Option<int> {
    match l {
        Some(x) => Some(x.0),
        None => None,
    }
}

/// The change row for one reported pin.
pub open spec fn pin_change(c: ConnInput, project: Seq<char>, row: RowV) -> ChangeView {
    let base = locate(c.ea, row.node.0, row.node.1);
    let head = locate(c.eb, row.node.0, row.node.1);
    ChangeView {
        project,
        scope: Kind::Sch,
        sheet: located_sheet(c.ea, c.eb, located_part(base), located_part(head)),
        kind: ChangeKind::NetChanged,
        reference: row.node.0,
        detail: "Pin "@ + row.node.1 + ": "@ + row.from + " -> "@ + row.to,
        layer: None,
        at_base: located_at(base),
        at_head: located_at(head),
        frac_base: None,
        frac_head: None,
    }
}

/// The per-pin change rows, leaving out pins folded into a part's row.
pub open spec fn pin_changes(c: ConnInput, project: Seq<char>, all: Seq<RowV>, rows: Seq<RowV>) -> Seq<
    ChangeView,
>
    decreases rows.len(),
{
    if rows.len() == 0 {
        seq![]
    } else {
        let rest = pin_changes(c, project, all, rows.drop_last());
        if stormed(all, rows.last()) {
            rest
        } else {
            rest.push(pin_change(c, project, rows.last()))
        }
    }
}

/// Part-and-fate keys order by reference, connected before disconnected.
pub open spec fn storm_order() -> spec_fn((Seq<char>, bool), (Seq<char>, bool)) -> bool {
    |a: (Seq<char>, bool), b: (Seq<char>, bool)| seq_lt(a.0, b.0) || (a.0 == b.0 && !a.1 && b.1)
}

/// The parts with three or more pins dangling the same way, in order.
pub open spec fn storm_keys(all: Seq<RowV>) -> Seq<(Seq<char>, bool)> {
    sorted_seq_of(Set::new(|k: (Seq<char>, bool)| dangling(all, k.0, k.1) >= 3), storm_order())
}

/// The single row standing for a part's many dangling pins.
pub open spec fn storm_change(c: ConnInput, project: Seq<char>, all: Seq<RowV>, key: (Seq<char>, bool)) -> ChangeView {
    let base = ref_first(c.ea, key.0);
    let head = ref_first(c.eb, key.0);
    ChangeView {
        project,
        scope: Kind::Sch,
        sheet: located_sheet(c.ea, c.eb, base, head),
        kind: ChangeKind::NetChanged,
        reference: key.0,
        detail: crate::text::decimal(dangling(all, key.0, key.1)) + " pins "@ + (if key.1 {
            "disconnected"@
        } else {
            "connected"@
        }),
        layer: None,
        at_base: match base {
            Some(i) => c.ea[i].1.at,
            None => None,
        },
        at_head: match head {
            Some(i) => c.eb[i].1.at,
            None => None,
        },
        frac_base: None,
        frac_head: None,
    }
}

/// The connectivity changes between two revisions.
pub open spec fn connectivity_changes(c: ConnInput, project: Seq<char>) -> Seq<ChangeView> {
    let all = rows_of(c);
    pin_changes(c, project, all, all) + storm_keys(all).map_values(
        |k: (Seq<char>, bool)| storm_change(c, project, all, k),
    )
}

} // verus!

verus! {

/// Whether part `e` draws pin `p`.
fn has_pin_exec(e: &Entity, p: &Pin) -> (r: bool)
    ensures
        r == has_pin(*e, p@),
{
    let mut j: usize = 0;
    while j < e.pins.len()
        invariant
            j <= e.pins.len(),
            forall|k: int| 0 <= k < j ==> e.pins@[k].0@ != p@,
        decreases e.pins.len() - j,
    {
        if str_eq(e.pins[j].0.as_str(), p.as_str()) {
            assert(e.pins@[j as int].0@ == p@);
            return true;
        }
        j = j + 1;
    }
    false
}

/// Whether part `e` hides pin `p`.
fn hides_pin_exec(e: &Entity, p: &Pin) -> (r: bool)
    ensures
        r == hides_pin(*e, p@),
{
    let mut j: usize = 0;
    while j < e.hidden_pins.len()
        invariant
            j <= e.hidden_pins.len(),
            forall|k: int| 0 <= k < j ==> e.hidden_pins@[k]@ != p@,
        decreases e.hidden_pins.len() - j,
    {
        if str_eq(e.hidden_pins[j].as_str(), p.as_str()) {
            assert(e.hidden_pins@[j as int]@ == p@);
            return true;
        }
        j = j + 1;
    }
    false
}

/// Whether pin `p` exists on the symbols placed for reference `r`.
fn ref_has_pin_exec(es: &Vec<(EntityId, Entity)>, r: &Reference, p: &Pin) -> (o: Option<bool>)
    ensures
        o == ref_has_pin(es@, r@, p@),
{
    let mut any_ref = false;
    let mut any_pins = false;
    let mut found = false;
    let mut i: usize = 0;
    while i < es.len()
        invariant
            i <= es.len(),
            any_ref == exists|k: int| #![trigger es@[k]] 0 <= k < i && es@[k].1.reference@ == r@,
            any_pins == exists|k: int|
                #![trigger es@[k]]
                0 <= k < i && es@[k].1.reference@ == r@ && es@[k].1.pins.len() != 0,
            found == exists|k: int|
                #![trigger es@[k]]
                0 <= k < i && es@[k].1.reference@ == r@ && (has_pin(es@[k].1, p@) || hides_pin(
                    es@[k].1,
                    p@,
                )),
        decreases es.len() - i,
    {
        let e = &es[i].1;
        proof {
            assert(es@[i as int].1 == *e);
        }
        if str_eq(e.reference.as_str(), r.as_str()) {
            any_ref = true;
            if e.pins.len() != 0 {
                any_pins = true;
            }
            if has_pin_exec(e, p) || hides_pin_exec(e, p) {
                found = true;
            }
        }
        i = i + 1;
    }
    if !any_ref {
        None
    } else if !any_pins {
        None
    } else {
        Some(found)
    }
}

/// A reported pin.
pub struct Row {
    pub node: (Reference, Pin),
    pub from: String,
    pub to: String,
    pub fate: Option<bool>,
}

impl View for Row {
    type V = RowV;

    open spec fn view(&self) -> RowV {
        RowV { node: node_view(self.node), from: self.from@, to: self.to@, fate: self.fate }
    }
}

/// The views of a list of rows.
pub open spec fn rows_view(rows: Seq<Row>) -> Seq<RowV> {
    rows.map_values(|r: Row| r@)
}

/// How a pin's net reads on one side.
fn side_text_exec(
    nets: &Vec<Net>,
    ix: &SideIndex,
    net: Option<usize>,
    lone_net: Option<usize>,
    suffix: &str,
    Ghost(names): Ghost<Seq<Seq<char>>>,
    Ghost(lone_name): Ghost<Option<Seq<char>>>,
) -> (r: String)
    requires
        ix.names.len() == names.len(),
        forall|k: int|
            #![trigger ix.names@[k]]
            0 <= k < ix.names.len() ==> ix.names@[k] < nets.len() && nets@[ix.names@[k] as int].name@
                == names[k],
        match net {
            Some(i) => i < names.len(),
            None => true,
        },
        match lone_net {
            Some(j) => j < nets.len() && lone_name == Some(nets@[j as int].name@),
            None => lone_name is None,
        },
    ensures
        r@ == side_text(names, opt_nat(net), lone_name, suffix@),
{
    match net {
        Some(i) => {
            let k = ix.names[i];
            proof {
                assert(ix.names@[i as int] == k);
            }
            short_net(&nets[k].name)
        },
        None => match lone_net {
            Some(j) => {
                let mut v = chars_of(short_net(&nets[j].name).as_str());
                push_str(&mut v, suffix);
                string_of(v.as_slice())
            },
            None => "unconnected".to_owned(),
        },
    }
}

} // verus!

verus! {

/// The reported pins, in pin order.
fn conn_rows_exec(
    u: &Vec<(Reference, Pin)>,
    ia: &SideIndex,
    ib: &SideIndex,
    m: &Vec<Option<usize>>,
    nets_a: &Vec<Net>,
    nets_b: &Vec<Net>,
    ea: &Vec<(EntityId, Entity)>,
    eb: &Vec<(EntityId, Entity)>,
    Ghost(c): Ghost<ConnInput>,
) -> (rows: Vec<Row>)
    requires
        indexed(c, *ia, *ib),
        nodes_view(u@) == c.universe(),
        opt_nats(m@) == matched(c),
        m.len() == c.names_a().len(),
        nets_a@ == c.nets_a,
        nets_b@ == c.nets_b,
        ea@ == c.ea,
        eb@ == c.eb,
    ensures
        rows_view(rows@) == rows_of(c),
{
    let ghost uv = nodes_view(u@);
    let mut rows: Vec<Row> = Vec::new();
    let mut x: usize = 0;
    while x < u.len()
        invariant
            x <= u.len(),
            indexed(c, *ia, *ib),
            uv == nodes_view(u@),
            uv == c.universe(),
            opt_nats(m@) == matched(c),
            m.len() == c.names_a().len(),
            nets_a@ == c.nets_a,
            nets_b@ == c.nets_b,
            ea@ == c.ea,
            eb@ == c.eb,
            rows_view(rows@) == conn_rows(c, matched(c), uv.take(x as int)),
        decreases u.len() - x,
    {
        let ghost n = uv[x as int];
        proof {
            assert(uv.take(x + 1).drop_last() == uv.take(x as int));
            assert(uv.take(x + 1).last() == n);
            assert(n == node_view(u@[x as int]));
            assert(opt_nat(ia.net_of@[x as int]) == c.na(n));
            assert(opt_nat(ib.net_of@[x as int]) == c.nb(n));
            lemma_net_of_bound(c.ea, c.eb, c.nets_a, n);
            lemma_net_of_bound(c.ea, c.eb, c.nets_b, n);
        }
        let same = match (ia.net_of[x], ib.net_of[x]) {
            (Some(ai), Some(bi)) => {
                proof {
                    assert(opt_nats(m@)[ai as int] == opt_nat(m@[ai as int]));
                }
                match m[ai] {
                    Some(b) => b == bi,
                    None => false,
                }
            },
            (None, None) => true,
            _ => false,
        };
        let fate = if ib.net_of[x].is_none() && ib.lone[x].is_none() {
            Some(true)
        } else if ia.net_of[x].is_none() && ia.lone[x].is_none() {
            Some(false)
        } else {
            None
        };
        let silent = match fate {
            Some(true) => match ref_has_pin_exec(eb, &u[x].0, &u[x].1) {
                Some(b) => !b,
                None => false,
            },
            Some(false) => match ref_has_pin_exec(ea, &u[x].0, &u[x].1) {
                Some(b) => !b,
                None => false,
            },
            None => false,
        };
        proof {
            assert(same == same_net(c, matched(c), n));
            assert(fate == crate::semantic::connectivity::fate(c, n));
            assert(silent == silenced(c, n));
        }
        if !same && !silent {
            let from = side_text_exec(
                nets_a,
                ia,
                ia.net_of[x],
                ia.lone[x],
                " (removed parts)",
                Ghost(c.names_a()),
                Ghost(c.lone_a(n)),
            );
            let to = side_text_exec(
                nets_b,
                ib,
                ib.net_of[x],
                ib.lone[x],
                " (added parts)",
                Ghost(c.names_b()),
                Ghost(c.lone_b(n)),
            );
            let node = (u[x].0.clone(), u[x].1.clone());
            rows.push(Row { node, from, to, fate });
            proof {
                assert(rows_view(rows@) =~= rows_view(rows@.drop_last()).push(rows@.last()@));
            }
        }
        x = x + 1;
    }
    proof {
        assert(uv.take(u.len() as int) == uv);
    }
    rows
}

} // verus!

verus! {

/// How many reported pins of part `r` share fate `f`.
fn dangling_exec(rows: &Vec<Row>, r: &Reference, f: bool) -> (n: usize)
    ensures
        n == dangling(rows_view(rows@), r@, f),
{
    let mut n: usize = 0;
    let mut i: usize = 0;
    while i < rows.len()
        invariant
            i <= rows.len(),
            n == dangling(rows_view(rows@).take(i as int), r@, f),
            n <= i,
        decreases rows.len() - i,
    {
        proof {
            let rv = rows_view(rows@);
            assert(rv.take(i + 1).drop_last() == rv.take(i as int));
            assert(rv.take(i + 1).last() == rows@[i as int]@);
        }
        let hit = match rows[i].fate {
            Some(g) => g == f && str_eq(rows[i].node.0.as_str(), r.as_str()),
            None => false,
        };
        if hit {
            n = n + 1;
        }
        i = i + 1;
    }
    proof {
        assert(rows_view(rows@).take(rows.len() as int) == rows_view(rows@));
    }
    n
}

/// Where part `e` draws pin `p`.
fn pin_at_exec(e: &Entity, p: &Pin) -> (r: Option<Point>)
    ensures
        r == pin_at(*e, p@),
{
    let mut j: usize = 0;
    while j < e.pins.len()
        invariant
            j <= e.pins.len(),
            pin_index(*e, p@, j as int) is None,
        decreases e.pins.len() - j,
    {
        if str_eq(e.pins[j].0.as_str(), p.as_str()) {
            proof {
                assert(pin_index(*e, p@, j + 1) == Some(j as int));
                lemma_pin_index_stable(*e, p@, j + 1, e.pins.len() as int);
            }
            return Some(e.pins[j].1);
        }
        j = j + 1;
    }
    None
}

/// Once found, a pin's position stays the first one found.
proof fn lemma_pin_index_stable(e: Entity, p: Seq<char>, k: int, l: int)
    requires
        k <= l,
        pin_index(e, p, k) is Some,
    ensures
        pin_index(e, p, l) == pin_index(e, p, k),
    decreases l - k,
{
    if k < l {
        lemma_pin_index_stable(e, p, k, l - 1);
    }
}

/// Once found, a reference's first part stays the first one found.
proof fn lemma_first_part_stable(
    es: Seq<(EntityId, Entity)>,
    r: Seq<char>,
    want: spec_fn(Entity) -> bool,
    k: int,
    l: int,
)
    requires
        k <= l,
        first_part(es, r, want, k) is Some,
    ensures
        first_part(es, r, want, l) == first_part(es, r, want, k),
    decreases l - k,
{
    if k < l {
        lemma_first_part_stable(es, r, want, k, l - 1);
    }
}

/// The first part of reference `r`.
fn ref_first_exec(es: &Vec<(EntityId, Entity)>, r: &Reference) -> (o: Option<usize>)
    ensures
        match o {
            Some(i) => ref_first(es@, r@) == Some(i as int) && i < es.len(),
            None => ref_first(es@, r@) is None,
        },
{
    let ghost want = |e: Entity| true;
    let mut i: usize = 0;
    while i < es.len()
        invariant
            i <= es.len(),
            want == (|e: Entity| true),
            first_part(es@, r@, want, i as int) is None,
        decreases es.len() - i,
    {
        if str_eq(es[i].1.reference.as_str(), r.as_str()) {
            proof {
                assert(es@[i as int] == es[i as int]);
                assert(first_part(es@, r@, want, i + 1) == Some(i as int));
                lemma_first_part_stable(es@, r@, want, i + 1, es.len() as int);
            }
            return Some(i);
        }
        i = i + 1;
    }
    None
}

/// The part of reference `r` drawing pin `p` (or its first part), and where.
fn locate_exec(es: &Vec<(EntityId, Entity)>, r: &Reference, p: &Pin) -> (o: Option<(usize, Option<Point>)>)
    ensures
        match (o, locate(es@, r@, p@)) {
            (Some(x), Some(y)) => x.0 == y.0 && x.1 == y.1 && x.0 < es.len(),
            (None, None) => true,
            _ => false,
        },
{
    let ghost want = |e: Entity| pin_at(e, p@) is Some;
    let mut i: usize = 0;
    while i < es.len()
        invariant
            i <= es.len(),
            want == (|e: Entity| pin_at(e, p@) is Some),
            first_part(es@, r@, want, i as int) is None,
        decreases es.len() - i,
    {
        if str_eq(es[i].1.reference.as_str(), r.as_str()) {
            let at = pin_at_exec(&es[i].1, p);
            if at.is_some() {
                proof {
                    assert(es@[i as int] == es[i as int]);
                    assert(first_part(es@, r@, want, i + 1) == Some(i as int));
                    lemma_first_part_stable(es@, r@, want, i + 1, es.len() as int);
                }
                return Some((i, at));
            }
        }
        i = i + 1;
    }
    proof {
        assert(want =~= (|e: Entity| pin_at(e, p@) is Some));
    }
    proof {
        assert(first_part(es@, r@, |e: Entity| pin_at(e, p@) is Some, es.len() as int) is None);
    }
    match ref_first_exec(es, r) {
        Some(k) => {
            proof {
                assert(ref_first(es@, r@) == Some(k as int));
                assert(es@[k as int] == es[k as int]);
            }
            Some((k, es[k].1.at))
        },
        None => None,
    }
}

} // verus!

verus! {

/// The change row for one reported pin.
fn pin_change_exec(
    project: &ProjectLabel,
    row: &Row,
    ea: &Vec<(EntityId, Entity)>,
    eb: &Vec<(EntityId, Entity)>,
    Ghost(c): Ghost<ConnInput>,
) -> (ch: Change)
    requires
        ea@ == c.ea,
        eb@ == c.eb,
    ensures
        ch@ == pin_change(c, project@, row@),
{
    let base = locate_exec(ea, &row.node.0, &row.node.1);
    let head = locate_exec(eb, &row.node.0, &row.node.1);
    let sheet = match head {
        Some((i, _)) => clone_page(&eb[i].1.sheet),
        None => match base {
            Some((i, _)) => clone_page(&ea[i].1.sheet),
            None => None,
        },
    };
    let mut detail = chars_of("Pin ");
    push_str(&mut detail, row.node.1.as_str());
    push_str(&mut detail, ": ");
    push_str(&mut detail, row.from.as_str());
    push_str(&mut detail, " -> ");
    push_str(&mut detail, row.to.as_str());
    let at_base = match base {
        Some((_, at)) => at,
        None => None,
    };
    let at_head = match head {
        Some((_, at)) => at,
        None => None,
    };
    let ch = Change {
        project: project.clone(),
        scope: Kind::Sch,
        sheet,
        kind: ChangeKind::NetChanged,
        reference: row.node.0.clone(),
        detail: string_of(detail.as_slice()),
        layer: None,
        at_base,
        at_head,
        frac_base: None,
        frac_head: None,
    };
    proof {
        assert(ch@.sheet == pin_change(c, project@, row@).sheet);
        assert(ch@.detail =~= pin_change(c, project@, row@).detail);
    }
    ch
}

/// `storm_order` is a strict order.
proof fn lemma_storm_order()
    ensures
        strict_order(storm_order()),
{
    assert forall|a: (Seq<char>, bool)| !#[trigger] storm_order()(a, a) by {
        lemma_seq_lt_irreflexive(a.0);
    }
    assert forall|a: (Seq<char>, bool), b: (Seq<char>, bool), d: (Seq<char>, bool)|
        #[trigger] storm_order()(a, b) && #[trigger] storm_order()(b, d) implies storm_order()(a, d) by {
        if seq_lt(a.0, b.0) && seq_lt(b.0, d.0) {
            lemma_seq_lt_transitive(a.0, b.0, d.0);
        }
    }
}

/// A part-and-fate key counted at least once belongs to some reported pin.
proof fn lemma_dangling_witness(rows: Seq<RowV>, r: Seq<char>, f: bool)
    requires
        dangling(rows, r, f) > 0,
    ensures
        exists|i: int| #![trigger rows[i]] 0 <= i < rows.len() && rows[i].node.0 == r && rows[i].fate == Some(f),
    decreases rows.len(),
{
    if !(rows.last().node.0 == r && rows.last().fate == Some(f)) {
        lemma_dangling_witness(rows.drop_last(), r, f);
        let i = choose|i: int| #![trigger rows.drop_last()[i]] 0 <= i < rows.drop_last().len() && rows.drop_last()[i].node.0 == r
            && rows.drop_last()[i].fate == Some(f);
        assert(rows[i] == rows.drop_last()[i]);
    } else {
        assert(rows[rows.len() - 1] == rows.last());
    }
}

/// The views of storm keys.
pub open spec fn keys_view(ks: Seq<(Reference, bool)>) -> Seq<(Seq<char>, bool)> {
    ks.map_values(|k: (Reference, bool)| (k.0@, k.1))
}

/// The parts with three or more pins dangling the same way, in order.
fn storm_keys_exec(rows: &Vec<Row>) -> (ks: Vec<(Reference, bool)>)
    ensures
        keys_view(ks@) == storm_keys(rows_view(rows@)),
{
    let ghost all = rows_view(rows@);
    let ghost ord = storm_order();
    let ghost target = Set::new(|k: (Seq<char>, bool)| dangling(all, k.0, k.1) >= 3);
    let mut ks: Vec<(Reference, bool)> = Vec::new();
    let mut i: usize = 0;
    while i < rows.len()
        invariant
            i <= rows.len(),
            all == rows_view(rows@),
            ord == storm_order(),
            target == Set::new(|k: (Seq<char>, bool)| dangling(all, k.0, k.1) >= 3),
            strictly_sorted(keys_view(ks@), ord),
            keys_view(ks@).to_set() == target.filter(
                |k: (Seq<char>, bool)|
                    exists|j: int| #![trigger all[j]] 0 <= j < i && all[j].node.0 == k.0 && all[j].fate == Some(k.1),
            ),
        decreases rows.len() - i,
    {
        let ghost old_set = keys_view(ks@).to_set();
        proof {
            assert(all[i as int] == rows@[i as int]@);
        }
        match rows[i].fate {
            Some(f) => {
                let n = dangling_exec(rows, &rows[i].node.0, f);
                if n >= 3 {
                    let ghost kv = (rows@[i as int].node.0@, f);
                    let ghost old_k = keys_view(ks@);
                    let mut p: usize = 0;
                    while p < ks.len() && (str_lt(ks[p].0.as_str(), rows[i].node.0.as_str()) || (str_eq(
                        ks[p].0.as_str(),
                        rows[i].node.0.as_str(),
                    ) && !ks[p].1 && f))
                        invariant
                            p <= ks.len(),
                            i < rows.len(),
                            kv == (rows[i as int].node.0@, f),
                            old_k == keys_view(ks@),
                            ord == storm_order(),
                            forall|j: int| 0 <= j < p ==> ord(old_k[j], kv),
                        decreases ks.len() - p,
                    {
                        assert(old_k[p as int] == (ks@[p as int].0@, ks@[p as int].1));
                        p = p + 1;
                    }
                    let dup = p < ks.len() && str_eq(ks[p].0.as_str(), rows[i].node.0.as_str()) && ks[p].1
                        == f;
                    if !dup {
                        proof {
                            lemma_storm_order();
                            if p < ks.len() {
                                assert(old_k[p as int] == (ks@[p as int].0@, ks@[p as int].1));
                                lemma_seq_lt_total(old_k[p as int].0, kv.0);
                                assert(ord(kv, old_k[p as int]));
                            }
                        }
                        ks.insert(p, (rows[i].node.0.clone(), f));
                        proof {
                            let nu = keys_view(ks@);
                            assert(nu =~= old_k.insert(p as int, kv));
                            assert forall|a: int, b: int| 0 <= a < b < nu.len() implies ord(nu[a], nu[b]) by {
                                if b < p {
                                    assert(nu[a] == old_k[a] && nu[b] == old_k[b]);
                                } else if a < p && b == p {
                                    assert(nu[a] == old_k[a] && nu[b] == kv);
                                } else if a < p {
                                    assert(nu[a] == old_k[a] && nu[b] == old_k[b - 1]);
                                    assert(ord(old_k[a], kv));
                                    assert(ord(kv, old_k[p as int]));
                                    assert(ord(old_k[a], old_k[p as int]));
                                    if b - 1 > p {
                                        assert(ord(old_k[p as int], old_k[b - 1]));
                                    }
                                } else if a == p {
                                    assert(nu[a] == kv && nu[b] == old_k[b - 1]);
                                    if b - 1 > p {
                                        assert(ord(old_k[p as int], old_k[b - 1]));
                                    }
                                } else {
                                    assert(nu[a] == old_k[a - 1] && nu[b] == old_k[b - 1]);
                                }
                            }
                            assert forall|x: (Seq<char>, bool)|
                                nu.to_set().contains(x) <==> old_k.to_set().insert(kv).contains(x) by {
                                if nu.to_set().contains(x) {
                                    let q = choose|q: int| 0 <= q < nu.len() && nu[q] == x;
                                    if q < p {
                                        assert(old_k[q] == x);
                                    } else if q > p {
                                        assert(old_k[q - 1] == x);
                                    }
                                }
                                if old_k.to_set().contains(x) {
                                    let q = choose|q: int| 0 <= q < old_k.len() && old_k[q] == x;
                                    if q < p {
                                        assert(nu[q] == x);
                                    } else {
                                        assert(nu[q + 1] == x);
                                    }
                                }
                                if x == kv {
                                    assert(nu[p as int] == x);
                                }
                            }
                            assert(nu.to_set() =~= old_k.to_set().insert(kv));
                        }
                    } else {
                        proof {
                            assert(keys_view(ks@)[p as int] == kv);
                            assert(old_set.contains(kv));
                            assert(old_set.insert(kv) =~= old_set);
                        }
                    }
                    proof {
                        assert(keys_view(ks@).to_set() == old_set.insert(kv));
                        assert(keys_view(ks@).to_set() =~= target.filter(
                            |k: (Seq<char>, bool)|
                                exists|j: int| #![trigger all[j]] 0 <= j < i + 1 && all[j].node.0 == k.0 && all[j].fate == Some(k.1),
                        ));
                    }
                } else {
                    proof {
                        assert(keys_view(ks@).to_set() =~= target.filter(
                            |k: (Seq<char>, bool)|
                                exists|j: int| #![trigger all[j]] 0 <= j < i + 1 && all[j].node.0 == k.0 && all[j].fate == Some(k.1),
                        ));
                    }
                }
            },
            None => {
                proof {
                    assert(keys_view(ks@).to_set() =~= target.filter(
                        |k: (Seq<char>, bool)|
                            exists|j: int| #![trigger all[j]] 0 <= j < i + 1 && all[j].node.0 == k.0 && all[j].fate == Some(k.1),
                    ));
                }
            },
        }
        i = i + 1;
    }
    proof {
        assert forall|k: (Seq<char>, bool)| target.contains(k) implies exists|j: int|
            #![trigger all[j]]
            0 <= j < rows.len() && all[j].node.0 == k.0 && all[j].fate == Some(k.1) by {
            lemma_dangling_witness(all, k.0, k.1);
        }
        assert(keys_view(ks@).to_set() =~= target);
        lemma_storm_order();
        crate::order::lemma_is_sorted_seq_of(keys_view(ks@), target, storm_order());
    }
    ks
}

} // verus!

verus! {

/// The change row standing for a part's many dangling pins.
fn storm_change_exec(
    project: &ProjectLabel,
    rows: &Vec<Row>,
    key: &(Reference, bool),
    ea: &Vec<(EntityId, Entity)>,
    eb: &Vec<(EntityId, Entity)>,
    Ghost(c): Ghost<ConnInput>,
) -> (ch: Change)
    requires
        ea@ == c.ea,
        eb@ == c.eb,
    ensures
        ch@ == storm_change(c, project@, rows_view(rows@), (key.0@, key.1)),
{
    let base = ref_first_exec(ea, &key.0);
    let head = ref_first_exec(eb, &key.0);
    let sheet = match head {
        Some(i) => clone_page(&eb[i].1.sheet),
        None => match base {
            Some(i) => clone_page(&ea[i].1.sheet),
            None => None,
        },
    };
    let n = dangling_exec(rows, &key.0, key.1);
    let mut detail = crate::text::decimal_chars(n as u64);
    push_str(&mut detail, " pins ");
    if key.1 {
        push_str(&mut detail, "disconnected");
    } else {
        push_str(&mut detail, "connected");
    }
    let at_base = match base {
        Some(i) => ea[i].1.at,
        None => None,
    };
    let at_head = match head {
        Some(i) => eb[i].1.at,
        None => None,
    };
    let ch = Change {
        project: project.clone(),
        scope: Kind::Sch,
        sheet,
        kind: ChangeKind::NetChanged,
        reference: key.0.clone(),
        detail: string_of(detail.as_slice()),
        layer: None,
        at_base,
        at_head,
        frac_base: None,
        frac_head: None,
    };
    proof {
        let spec = storm_change(c, project@, rows_view(rows@), (key.0@, key.1));
        assert(ch@.sheet == spec.sheet);
        assert(ch@.detail =~= spec.detail);
    }
    ch
}

/// Compare electrical connectivity between two revisions. Net names take no
/// part in the comparison (labels get renamed): nets are paired by the pins
/// they connect, and only pins whose net membership changed are reported, so
/// a net gaining a pin flags that pin and not every member. Pins of parts
/// existing on a single revision are the part diff's business already.
pub fn diff_connectivity(
    project: &ProjectLabel,
    nets_a: &Vec<Net>,
    nets_b: &Vec<Net>,
    ents_a: &Vec<(EntityId, Entity)>,
    ents_b: &Vec<(EntityId, Entity)>,
) -> (changes: Vec<Change>)
    ensures
        crate::semantic::changes_view(changes@) == connectivity_changes(
            ConnInput { ea: ents_a@, eb: ents_b@, nets_a: nets_a@, nets_b: nets_b@ },
            project@,
        ),
{
    let ghost c = ConnInput { ea: ents_a@, eb: ents_b@, nets_a: nets_a@, nets_b: nets_b@ };
    let mut u: Vec<(Reference, Pin)> = Vec::new();
    add_compared(&mut u, nets_a, ents_a, ents_b);
    add_compared(&mut u, nets_b, ents_a, ents_b);
    proof {
        lemma_node_order();
        assert(nodes_view(u@).to_set() =~= compared_pins(c.ea, c.eb, c.nets_a, c.nets_b));
        crate::order::lemma_is_sorted_seq_of(
            nodes_view(u@),
            compared_pins(c.ea, c.eb, c.nets_a, c.nets_b),
            node_order(),
        );
        assert forall|n: NodeV| net_of(c.ea, c.eb, c.nets_a, n) is Some implies nodes_view(u@).contains(n) by {
            assert(nodes_view(u@).to_set().contains(n));
        }
        assert forall|n: NodeV| net_of(c.ea, c.eb, c.nets_b, n) is Some implies nodes_view(u@).contains(n) by {
            assert(nodes_view(u@).to_set().contains(n));
        }
    }
    let ia = index_side(nets_a, ents_a, ents_b, &u);
    let ib = index_side(nets_b, ents_a, ents_b, &u);
    let ov = count_overlaps(&ia, &ib, Ghost(c));
    let m = match_nets(nets_a, nets_b, &ia, &ib, &ov, Ghost(c));
    let rows = conn_rows_exec(&u, &ia, &ib, &m, nets_a, nets_b, ents_a, ents_b, Ghost(c));
    let ghost all = rows_view(rows@);
    let mut changes: Vec<Change> = Vec::new();
    let mut i: usize = 0;
    while i < rows.len()
        invariant
            i <= rows.len(),
            all == rows_view(rows@),
            all == rows_of(c),
            ents_a@ == c.ea,
            ents_b@ == c.eb,
            crate::semantic::changes_view(changes@) == pin_changes(c, project@, all, all.take(i as int)),
        decreases rows.len() - i,
    {
        proof {
            assert(all.take(i + 1).drop_last() == all.take(i as int));
            assert(all.take(i + 1).last() == rows@[i as int]@);
        }
        let stormy = match rows[i].fate {
            Some(f) => dangling_exec(&rows, &rows[i].node.0, f) >= 3,
            None => false,
        };
        if !stormy {
            let ch = pin_change_exec(project, &rows[i], ents_a, ents_b, Ghost(c));
            changes.push(ch);
            proof {
                assert(crate::semantic::changes_view(changes@) =~= crate::semantic::changes_view(
                    changes@.drop_last(),
                ).push(ch@));
            }
        }
        i = i + 1;
    }
    proof {
        assert(all.take(rows.len() as int) == all);
    }
    let ghost pins = crate::semantic::changes_view(changes@);
    let keys = storm_keys_exec(&rows);
    let ghost sc = |key: (Seq<char>, bool)| storm_change(c, project@, all, key);
    let mut k: usize = 0;
    while k < keys.len()
        invariant
            k <= keys.len(),
            all == rows_view(rows@),
            all == rows_of(c),
            ents_a@ == c.ea,
            ents_b@ == c.eb,
            keys_view(keys@) == storm_keys(all),
            sc == (|key: (Seq<char>, bool)| storm_change(c, project@, all, key)),
            crate::semantic::changes_view(changes@) == pins + keys_view(keys@).take(k as int).map_values(sc),
        decreases keys.len() - k,
    {
        let ch = storm_change_exec(project, &rows, &keys[k], ents_a, ents_b, Ghost(c));
        let ghost before = crate::semantic::changes_view(changes@);
        changes.push(ch);
        proof {
            assert(keys_view(keys@)[k as int] == (keys@[k as int].0@, keys@[k as int].1));
            let f = sc;
            let kv = keys_view(keys@);
            assert(kv.take(k + 1) == kv.take(k as int).push(kv[k as int]));
            assert(kv.take(k + 1).map_values(f) =~= kv.take(k as int).map_values(f).push(f(kv[k as int])));
            assert(crate::semantic::changes_view(changes@) =~= before.push(ch@));
            assert(ch@ == f(kv[k as int]));
            assert((pins + kv.take(k as int).map_values(f)).push(f(kv[k as int])) =~= pins + kv.take(k as int).map_values(f).push(f(kv[k as int])));
            assert(crate::semantic::changes_view(changes@) =~= pins + kv.take(k + 1).map_values(f));
        }
        k = k + 1;
    }
    proof {
        assert(keys_view(keys@).take(keys.len() as int) == keys_view(keys@));
        assert(sc =~= (|key: (Seq<char>, bool)| storm_change(c, project@, all, key)));
    }
    changes
}

} // verus!
