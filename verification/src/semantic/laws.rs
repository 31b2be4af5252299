//! What holds of the semantic diff across all inputs.

use vstd::prelude::*;

use crate::ids::EntityId;
use crate::netlist::Net;
use crate::order::{lemma_sorted_seq_of, sorted_seq_of, strict_order, strictly_sorted, total};
use crate::semantic::connectivity::{
    big_names, conn_rows, connectivity_changes, count_shared, is_big, kept_nodes, last_named, match_by_name,
    match_greedy, matched, net_of, overlap_pairs, pair_order, pin_changes, rows_of, same_net, silenced, storm_keys,
    storm_order, ConnInput, NodeV, RowV,
};
use crate::kicad::Kind;
use crate::semantic::part::{
    added_rows, board_rows, compare_rows, dist2, entity_changes, entity_rows, find_id, first_of_key, first_ref,
    first_rows, matched_rows, motion, only_in, prop_keys, property_rows, ref_count, removals_of, removed_refs,
    removed_rows, replaces, row_key, row_order, sort_dedup, text_order, fact_row, opt_text, or_dash,
};
use crate::semantic::{change_kind_name, page_view, ChangeKind, ChangeView, Entity};
use crate::text::join;

verus! {

/// Nets with the same pins, position for position, place every pin alike.
proof fn lemma_same_pins_same_nets(
    ea: Seq<(EntityId, Entity)>,
    eb: Seq<(EntityId, Entity)>,
    x: Seq<Net>,
    y: Seq<Net>,
)
    requires
        x.len() == y.len(),
        forall|i: int| 0 <= i < x.len() ==> #[trigger] x[i].nodes@ == y[i].nodes@,
    ensures
        big_names(ea, eb, x).len() == big_names(ea, eb, y).len(),
        forall|n: NodeV| #[trigger] net_of(ea, eb, x, n) == net_of(ea, eb, y, n),
    decreases x.len(),
{
    if x.len() > 0 {
        assert forall|i: int| 0 <= i < x.drop_last().len() implies #[trigger] x.drop_last()[i].nodes@
            == y.drop_last()[i].nodes@ by {
            assert(x.drop_last()[i] == x[i] && y.drop_last()[i] == y[i]);
        }
        lemma_same_pins_same_nets(ea, eb, x.drop_last(), y.drop_last());
        assert(x.last().nodes@ == y.last().nodes@);
        assert(is_big(ea, eb, x.last()) == is_big(ea, eb, y.last()));
        assert forall|n: NodeV| #[trigger] net_of(ea, eb, x, n) == net_of(ea, eb, y, n) by {
            assert(net_of(ea, eb, x.drop_last(), n) == net_of(ea, eb, y.drop_last(), n));
            assert(kept_nodes(ea, eb, x.last().nodes@) == kept_nodes(ea, eb, y.last().nodes@));
        }
    }
}

/// A pin counted in a net pair's overlap sits on that pair.
proof fn lemma_overlap_witness(c: ConnInput, u: Seq<NodeV>, ai: nat, bi: nat)
    requires
        count_shared(c, u, ai, bi) > 0,
    ensures
        exists|n: NodeV| c.na(n) == Some(ai) && c.nb(n) == Some(bi),
    decreases u.len(),
{
    if u.len() > 0 {
        if c.na(u.last()) == Some(ai) && c.nb(u.last()) == Some(bi) {
        } else {
            lemma_overlap_witness(c, u.drop_last(), ai, bi);
        }
    }
}

/// A pin of `u` sitting on a net pair counts towards its overlap.
proof fn lemma_overlap_counts(c: ConnInput, u: Seq<NodeV>, k: int, ai: nat, bi: nat)
    requires
        0 <= k < u.len(),
        c.na(u[k]) == Some(ai),
        c.nb(u[k]) == Some(bi),
    ensures
        count_shared(c, u, ai, bi) > 0,
    decreases u.len(),
{
    if k < u.len() - 1 {
        assert(u.drop_last()[k] == u[k]);
        lemma_overlap_counts(c, u.drop_last(), k, ai, bi);
    }
}

/// The net matching only ever pairs a base net with the head net at its
/// own position, and takes a head net exactly when it is so paired.
pub open spec fn diagonal(st: (Seq<Option<nat>>, Seq<bool>)) -> bool {
    &&& st.0.len() == st.1.len()
    &&& forall|j: int| 0 <= j < st.0.len() ==> (#[trigger] st.0[j] is None || st.0[j] == Some(j as nat))
    &&& forall|j: int| 0 <= j < st.1.len() ==> (#[trigger] st.1[j] <==> st.0[j] == Some(j as nat))
}

/// Matching by name stays on the diagonal when only same-position nets overlap.
proof fn lemma_by_name_diagonal(c: ConnInput, k: nat)
    requires
        k <= c.names_a().len(),
        c.names_a().len() == c.names_b().len(),
        forall|ai: nat, bi: nat| #[trigger] c.overlap(ai, bi) > 0 ==> ai == bi,
    ensures
        diagonal(match_by_name(c, k)),
        match_by_name(c, k).0.len() == c.names_a().len(),
    decreases k,
{
    if k > 0 {
        lemma_by_name_diagonal(c, (k - 1) as nat);
        let (m, t) = match_by_name(c, (k - 1) as nat);
        let ai = (k - 1) as nat;
        crate::semantic::connectivity::lemma_last_named_bound(c.names_b(), c.names_a()[ai as int]);
        match last_named(c.names_b(), c.names_a()[ai as int]) {
            Some(bi) => {
                if c.overlap(ai, bi) > 0 && !t[bi as int] {
                    assert(ai == bi);
                    let (m2, t2) = match_by_name(c, k);
                    assert forall|j: int| 0 <= j < t2.len() implies (#[trigger] t2[j] <==> m2[j] == Some(j as nat)) by {
                        if j != ai {
                            assert(t2[j] == t[j] && m2[j] == m[j]);
                        }
                    }
                }
            },
            None => {},
        }
    }
}

/// Greedy matching over overlapping pairs stays on the diagonal, and
/// every pair it visits ends up matched.
proof fn lemma_greedy_diagonal(ps: Seq<(nat, nat)>, st: (Seq<Option<nat>>, Seq<bool>))
    requires
        diagonal(st),
        forall|k: int| 0 <= k < ps.len() ==> (#[trigger] ps[k]).0 == ps[k].1 && ps[k].0 < st.0.len(),
    ensures
        diagonal(match_greedy(ps, st)),
        match_greedy(ps, st).0.len() == st.0.len(),
        forall|k: int| 0 <= k < ps.len() ==> match_greedy(ps, st).0[(#[trigger] ps[k]).0 as int] == Some(ps[k].1),
    decreases ps.len(),
{
    if ps.len() > 0 {
        assert forall|k: int| 0 <= k < ps.drop_last().len() implies (#[trigger] ps.drop_last()[k]).0
            == ps.drop_last()[k].1 && ps.drop_last()[k].0 < st.0.len() by {
            assert(ps.drop_last()[k] == ps[k]);
        }
        lemma_greedy_diagonal(ps.drop_last(), st);
        let (m, t) = match_greedy(ps.drop_last(), st);
        let p = ps.last();
        let (m2, t2) = match_greedy(ps, st);
        assert(p.0 == p.1);
        if m[p.0 as int] is None && !t[p.1 as int] {
            assert forall|j: int| 0 <= j < t2.len() implies (#[trigger] t2[j] <==> m2[j] == Some(j as nat)) by {
                if j != p.0 {
                    assert(t2[j] == t[j] && m2[j] == m[j]);
                }
            }
        } else {
            assert(m[p.0 as int] == Some(p.0));
        }
        assert forall|k: int| 0 <= k < ps.len() implies m2[(#[trigger] ps[k]).0 as int] == Some(ps[k].1) by {
            if k < ps.len() - 1 {
                assert(ps.drop_last()[k] == ps[k]);
                assert(m[ps[k].0 as int] == Some(ps[k].1));
            }
        }
    }
}

/// The set of net pairs sharing a pin is finite.
proof fn lemma_pairs_finite(c: ConnInput)
    ensures
        Set::new(
            |p: (nat, nat)| p.0 < c.names_a().len() && p.1 < c.names_b().len() && c.overlap(p.0, p.1) > 0,
        ).finite(),
{
    let la = c.names_a().len();
    let lb = c.names_b().len();
    let all = Seq::new(la * lb, |k: int| ((k / lb as int) as nat, (k % lb as int) as nat));
    let set = Set::new(
        |p: (nat, nat)| p.0 < la && p.1 < lb && c.overlap(p.0, p.1) > 0,
    );
    assert forall|p: (nat, nat)| set.contains(p) implies all.to_set().contains(p) by {
        let k: int = (p.0 * lb + p.1) as int;
        let d: int = lb as int;
        assert(0 <= k < la * lb) by (nonlinear_arith)
            requires
                p.0 < la,
                p.1 < lb,
                k == p.0 * lb + p.1,
        ;
        assert(k / d == p.0 && k % d == p.1) by (nonlinear_arith)
            requires
                p.1 < d,
                d == lb,
                k == p.0 * lb + p.1,
        ;
        assert(all[k] == p);
    }
    vstd::seq_lib::seq_to_set_is_finite(all);
    vstd::set_lib::lemma_len_subset(set, all.to_set());
}

/// Renaming nets is not a change: when the head side's nets connect the
/// same pins as the base side's, position for position, whatever their
/// names, the connectivity diff reports nothing. Nets are matched by the
/// pins they connect, not by their names.
pub proof fn law_renamed_nets_are_not_changes(c: ConnInput, project: Seq<char>)
    requires
        c.nets_a.len() == c.nets_b.len(),
        forall|i: int| 0 <= i < c.nets_a.len() ==> #[trigger] c.nets_a[i].nodes@ == c.nets_b[i].nodes@,
    ensures
        connectivity_changes(c, project) == Seq::<ChangeView>::empty(),
{
    lemma_same_pins_same_nets(c.ea, c.eb, c.nets_a, c.nets_b);
    assert forall|n: NodeV| #[trigger] c.na(n) == c.nb(n) by {
        assert(net_of(c.ea, c.eb, c.nets_a, n) == net_of(c.ea, c.eb, c.nets_b, n));
    }
    assert forall|ai: nat, bi: nat| #[trigger] c.overlap(ai, bi) > 0 implies ai == bi by {
        lemma_overlap_witness(c, c.universe(), ai, bi);
        let n = choose|n: NodeV| c.na(n) == Some(ai) && c.nb(n) == Some(bi);
        assert(c.na(n) == c.nb(n));
    }
    lemma_by_name_diagonal(c, c.names_a().len());
    let start = match_by_name(c, c.names_a().len());
    let pset = Set::new(
        |p: (nat, nat)| p.0 < c.names_a().len() && p.1 < c.names_b().len() && c.overlap(p.0, p.1) > 0,
    );
    lemma_pairs_finite(c);
    assert(strict_order(pair_order(c)) && total(pair_order(c))) by {
        assert forall|p: (nat, nat), q: (nat, nat)| p != q implies #[trigger] pair_order(c)(p, q) || pair_order(c)(q, p) by {}
    }
    lemma_sorted_seq_of(pset, pair_order(c));
    let ps = overlap_pairs(c);
    assert forall|k: int| 0 <= k < ps.len() implies (#[trigger] ps[k]).0 == ps[k].1 && ps[k].0 < start.0.len() by {
        assert(ps.to_set().contains(ps[k]));
        assert(pset.contains(ps[k]));
    }
    lemma_greedy_diagonal(ps, start);
    let m = matched(c);
    let u = c.universe();
    assert forall|k: int| 0 <= k < u.len() implies same_net(c, m, #[trigger] u[k]) by {
        let n = u[k];
        match c.na(n) {
            Some(i) => {
                assert(c.nb(n) == Some(i));
                lemma_overlap_counts(c, u, k, i, i);
                crate::semantic::connectivity::lemma_net_of_bound_pub(c.ea, c.eb, c.nets_a, n);
                assert(pset.contains((i, i)));
                assert(ps.to_set().contains((i, i)));
                let q = choose|q: int| 0 <= q < ps.len() && ps[q] == (i, i);
                assert(m[ps[q].0 as int] == Some(ps[q].1));
            },
            None => {
                assert(c.nb(n) is None);
            },
        }
    }
    lemma_no_rows(c, m, u);
    let all = rows_of(c);
    assert(all == Seq::<RowV>::empty());
    let keys = storm_keys(all);
    let kset = Set::new(|k: (Seq<char>, bool)| crate::semantic::connectivity::dangling(all, k.0, k.1) >= 3);
    assert(kset =~= Set::empty());
    let e: Seq<(Seq<char>, bool)> = seq![];
    assert(strictly_sorted(e, storm_order()) && e.to_set() =~= kset);
    assert(keys.len() == 0) by {
        if keys.len() > 0 {
            assert(keys.to_set().contains(keys[0]));
        }
    }
    assert(connectivity_changes(c, project) =~= Seq::<ChangeView>::empty());
}

/// No pin is reported when every pin stayed on its net.
proof fn lemma_no_rows(c: ConnInput, m: Seq<Option<nat>>, u: Seq<NodeV>)
    requires
        forall|k: int| 0 <= k < u.len() ==> same_net(c, m, #[trigger] u[k]),
    ensures
        conn_rows(c, m, u) == Seq::<RowV>::empty(),
    decreases u.len(),
{
    if u.len() > 0 {
        assert forall|k: int| 0 <= k < u.drop_last().len() implies same_net(c, m, #[trigger] u.drop_last()[k]) by {
            assert(u.drop_last()[k] == u[k]);
        }
        lemma_no_rows(c, m, u.drop_last());
        assert(same_net(c, m, u[u.len() - 1]));
    }
}

} // verus!

verus! {

/// Keys identify parts: no two entries share one.
pub open spec fn keys_distinct(a: Seq<(EntityId, Entity)>) -> bool {
    forall|i: int, j: int| 0 <= i < j < a.len() ==> (#[trigger] a[i]).0@ != (#[trigger] a[j]).0@
}

/// With distinct keys, an entry's key leads back to it.
proof fn lemma_find_own_key(a: Seq<(EntityId, Entity)>, i: int)
    requires
        keys_distinct(a),
        0 <= i < a.len(),
    ensures
        find_id(a, a[i].0@) == Some(i),
    decreases a.len(),
{
    if i < a.len() - 1 {
        assert(keys_distinct(a.drop_last())) by {
            assert forall|x: int, y: int| 0 <= x < y < a.drop_last().len() implies (#[trigger] a.drop_last()[x]).0@
                != (#[trigger] a.drop_last()[y]).0@ by {
                assert(a.drop_last()[x] == a[x] && a.drop_last()[y] == a[y]);
            }
        }
        assert(a.drop_last()[i] == a[i]);
        lemma_find_own_key(a.drop_last(), i);
    } else {
        lemma_find_id_absent(a.drop_last(), a[i].0@, a);
    }
}

/// A key the first entries lack is not found among them.
proof fn lemma_find_id_absent(p: Seq<(EntityId, Entity)>, k: Seq<char>, a: Seq<(EntityId, Entity)>)
    requires
        keys_distinct(a),
        a.len() > 0,
        p == a.drop_last(),
        k == a.last().0@,
    ensures
        find_id(p, k) is None,
{
    crate::semantic::part::lemma_find_id_found_pub(p, k);
    if find_id(p, k) is Some {
        let j = find_id(p, k).unwrap();
        assert(p[j] == a[j]);
        assert(a[j].0@ != a[a.len() - 1].0@);
    }
}

/// A part compared with itself reports nothing.
proof fn lemma_compare_self(project: Seq<char>, scope: Kind, e: Entity)
    ensures
        compare_rows(project, scope, e, e) == Seq::<ChangeView>::empty(),
{
    lemma_property_rows_self(project, scope, e, prop_keys(e, e));
    assert(motion(e, e) =~= Seq::<Seq<char>>::empty()) by {
        match e.at {
            Some(p) => {
                assert(dist2(p, p) == 0);
            },
            None => {},
        }
    }
    assert(board_rows(project, scope, e, e) =~= Seq::<ChangeView>::empty());
    assert(compare_rows(project, scope, e, e) =~= Seq::<ChangeView>::empty());
}

/// No property of a part differs from itself.
proof fn lemma_property_rows_self(project: Seq<char>, scope: Kind, e: Entity, keys: Seq<Seq<char>>)
    ensures
        property_rows(project, scope, e, e, keys) == Seq::<ChangeView>::empty(),
    decreases keys.len(),
{
    if keys.len() > 0 {
        lemma_property_rows_self(project, scope, e, keys.drop_last());
    }
}

/// Parts matched by key across the same revision report nothing.
proof fn lemma_matched_self(project: Seq<char>, scope: Kind, a: Seq<(EntityId, Entity)>, n: int)
    requires
        keys_distinct(a),
        0 <= n <= a.len(),
    ensures
        matched_rows(project, scope, a.take(n), a) == Seq::<ChangeView>::empty(),
    decreases n,
{
    if n > 0 {
        assert(a.take(n).drop_last() == a.take(n - 1));
        assert(a.take(n).last() == a[n - 1]);
        lemma_matched_self(project, scope, a, n - 1);
        lemma_find_own_key(a, n - 1);
        lemma_compare_self(project, scope, a[n - 1].1);
        assert(matched_rows(project, scope, a.take(n), a) =~= Seq::<ChangeView>::empty());
    }
}

/// Every key of a revision is found in it.
proof fn lemma_only_in_self(a: Seq<(EntityId, Entity)>, n: int)
    requires
        keys_distinct(a),
        0 <= n <= a.len(),
    ensures
        only_in(a.take(n), a) == Seq::<Entity>::empty(),
    decreases n,
{
    if n > 0 {
        assert(a.take(n).drop_last() == a.take(n - 1));
        assert(a.take(n).last() == a[n - 1]);
        lemma_only_in_self(a, n - 1);
        lemma_find_own_key(a, n - 1);
    }
}

/// The ordered sequence of an empty set is empty.
proof fn lemma_sorted_empty<T>(lt: spec_fn(T, T) -> bool)
    ensures
        sorted_seq_of(Set::<T>::empty(), lt) == Seq::<T>::empty(),
{
    let e: Seq<T> = seq![];
    assert(strictly_sorted(e, lt) && e.to_set() =~= Set::<T>::empty());
    let s = sorted_seq_of(Set::<T>::empty(), lt);
    if s.len() > 0 {
        assert(s.to_set().contains(s[0]));
    }
    assert(s =~= e);
}

/// A revision diffed against itself reports no part changes (its keys
/// being distinct, as a map's are).
pub proof fn law_same_parts_report_nothing(project: Seq<char>, scope: Kind, a: Seq<(EntityId, Entity)>)
    requires
        keys_distinct(a),
    ensures
        entity_changes(project, scope, a, a) == Seq::<ChangeView>::empty(),
{
    lemma_matched_self(project, scope, a, a.len() as int);
    lemma_only_in_self(a, a.len() as int);
    assert(a.take(a.len() as int) == a);
    let removed = only_in(a, a);
    let added = only_in(a, a);
    assert(added_rows(project, scope, removed, added, 0) == Seq::<ChangeView>::empty());
    let rset = Set::new(
        |r: Seq<char>| exists|i: int| #![trigger removed[i]] 0 <= i < removed.len() && removed[i].reference@ == r,
    );
    assert(rset =~= Set::<Seq<char>>::empty());
    lemma_sorted_empty(text_order());
    assert(removed_refs(removed) == Seq::<Seq<char>>::empty());
    let rows = entity_rows(project, scope, a, a);
    assert(rows =~= Seq::<ChangeView>::empty());
    let dset = crate::semantic::part::first_rows(rows);
    assert(dset =~= Set::<ChangeView>::empty());
    lemma_sorted_empty(row_order());
}

} // verus!

verus! {

/// No row is an addition or a removal.
pub open spec fn quiet(rows: Seq<ChangeView>) -> bool {
    forall|k: int| 0 <= k < rows.len() ==> (#[trigger] rows[k]).kind != ChangeKind::Added && rows[k].kind != ChangeKind::Removed
}

/// No row about reference `r` is an addition or a removal.
pub open spec fn no_churn(rows: Seq<ChangeView>, r: Seq<char>) -> bool {
    forall|k: int|
        0 <= k < rows.len() && (#[trigger] rows[k]).reference == r ==> rows[k].kind != ChangeKind::Added && rows[k].kind
            != ChangeKind::Removed
}

/// Property rows are property changes.
proof fn lemma_property_rows_quiet(project: Seq<char>, scope: Kind, x: Entity, y: Entity, keys: Seq<Seq<char>>)
    ensures
        quiet(property_rows(project, scope, x, y, keys)),
    decreases keys.len(),
{
    if keys.len() > 0 {
        lemma_property_rows_quiet(project, scope, x, y, keys.drop_last());
    }
}

/// Comparing two revisions of a part never adds or removes it.
proof fn lemma_compare_quiet(project: Seq<char>, scope: Kind, x: Entity, y: Entity)
    ensures
        quiet(compare_rows(project, scope, x, y)),
{
    lemma_property_rows_quiet(project, scope, x, y, prop_keys(x, y));
    let props = if scope == Kind::Sch {
        property_rows(project, scope, x, y, prop_keys(x, y))
    } else {
        seq![]
    };
    let board = if scope == Kind::Pcb {
        board_rows(project, scope, x, y)
    } else {
        seq![]
    };
    assert(quiet(props));
    assert(quiet(board));
    let c = compare_rows(project, scope, x, y);
    assert forall|k: int| 0 <= k < c.len() implies (#[trigger] c[k]).kind != ChangeKind::Added && c[k].kind
        != ChangeKind::Removed by {
        let head = c.len() - props.len() - board.len();
        if k >= c.len() - board.len() {
            assert(c[k] == board[k - (c.len() - board.len())]);
        } else if k >= head {
            assert(c[k] == props[k - head]);
        }
    }
}

/// Matched parts never show up as added or removed.
proof fn lemma_matched_quiet(project: Seq<char>, scope: Kind, a: Seq<(EntityId, Entity)>, b: Seq<(EntityId, Entity)>)
    ensures
        quiet(matched_rows(project, scope, a, b)),
    decreases a.len(),
{
    if a.len() > 0 {
        lemma_matched_quiet(project, scope, a.drop_last(), b);
        let rest = matched_rows(project, scope, a.drop_last(), b);
        match find_id(b, a.last().0@) {
            Some(j) => {
                let more = compare_rows(project, scope, a.last().1, b[j].1);
                lemma_compare_quiet(project, scope, a.last().1, b[j].1);
                let all = rest + more;
                assert forall|k: int| 0 <= k < all.len() implies (#[trigger] all[k]).kind != ChangeKind::Added
                    && all[k].kind != ChangeKind::Removed by {
                    if k >= rest.len() {
                        assert(all[k] == more[k - rest.len()]);
                    } else {
                        assert(all[k] == rest[k]);
                    }
                }
            },
            None => {},
        }
    }
}

/// A reference carried by exactly one part names that part first.
proof fn lemma_only_ref(es: Seq<Entity>, r: Seq<char>, k: int)
    requires
        0 <= k < es.len(),
        es[k].reference@ == r,
        ref_count(es, r) == 1,
    ensures
        first_ref(es, r) == Some(k),
    decreases es.len(),
{
    crate::semantic::part::lemma_ref_count_first(es, r);
    if k < es.len() - 1 {
        assert(es.drop_last()[k] == es[k]);
        if es.last().reference@ == r {
            lemma_ref_count_pos(es.drop_last(), r, k);
        }
        lemma_only_ref(es.drop_last(), r, k);
    } else {
        if first_ref(es.drop_last(), r) is Some {
            crate::semantic::part::lemma_ref_count_first(es.drop_last(), r);
        }
    }
}

/// A part carrying `r` makes `r` counted.
proof fn lemma_ref_count_pos(es: Seq<Entity>, r: Seq<char>, k: int)
    requires
        0 <= k < es.len(),
        es[k].reference@ == r,
    ensures
        ref_count(es, r) > 0,
    decreases es.len(),
{
    if k < es.len() - 1 {
        assert(es.drop_last()[k] == es[k]);
        lemma_ref_count_pos(es.drop_last(), r, k);
    }
}

/// The added part of a re-placed reference brings no addition row.
proof fn lemma_added_no_churn(
    project: Seq<char>,
    scope: Kind,
    removed: Seq<Entity>,
    added: Seq<Entity>,
    k: int,
    r: Seq<char>,
)
    requires
        0 <= k <= added.len(),
        ref_count(removed, r) == 1,
        ref_count(added, r) == 1,
    ensures
        no_churn(added_rows(project, scope, removed, added, k), r),
    decreases k,
{
    if k > 0 {
        lemma_added_no_churn(project, scope, removed, added, k - 1, r);
        let rest = added_rows(project, scope, removed, added, k - 1);
        let e = added[k - 1];
        let all = added_rows(project, scope, removed, added, k);
        if crate::semantic::part::replaces(removed, added, k - 1) {
            let more = compare_rows(
                project,
                scope,
                removed[first_ref(removed, e.reference@).unwrap()],
                e,
            );
            lemma_compare_quiet(project, scope, removed[first_ref(removed, e.reference@).unwrap()], e);
            assert forall|q: int| 0 <= q < all.len() && (#[trigger] all[q]).reference == r implies all[q].kind
                != ChangeKind::Added && all[q].kind != ChangeKind::Removed by {
                if q >= rest.len() {
                    assert(all[q] == more[q - rest.len()]);
                } else {
                    assert(all[q] == rest[q]);
                }
            }
        } else {
            if e.reference@ == r {
                lemma_only_ref(added, r, k - 1);
            }
            assert forall|q: int| 0 <= q < all.len() && (#[trigger] all[q]).reference == r implies all[q].kind
                != ChangeKind::Added && all[q].kind != ChangeKind::Removed by {
                if q < rest.len() {
                    assert(all[q] == rest[q]);
                }
            }
        }
    }
}

/// Removal rows of reference `r'` are about `r'`.
proof fn lemma_removals_about(project: Seq<char>, scope: Kind, removed: Seq<Entity>, r2: Seq<char>)
    ensures
        forall|k: int|
            0 <= k < removals_of(project, scope, removed, r2).len() ==> (#[trigger] removals_of(
                project,
                scope,
                removed,
                r2,
            )[k]).reference == r2,
    decreases removed.len(),
{
    if removed.len() > 0 {
        lemma_removals_about(project, scope, removed.drop_last(), r2);
    }
}

/// A re-placed reference gets no removal rows.
proof fn lemma_removed_no_churn(
    project: Seq<char>,
    scope: Kind,
    removed: Seq<Entity>,
    added: Seq<Entity>,
    refs: Seq<Seq<char>>,
    r: Seq<char>,
)
    requires
        ref_count(removed, r) == 1,
        ref_count(added, r) == 1,
    ensures
        no_churn(removed_rows(project, scope, removed, added, refs), r),
    decreases refs.len(),
{
    if refs.len() > 0 {
        lemma_removed_no_churn(project, scope, removed, added, refs.drop_last(), r);
        let rest = removed_rows(project, scope, removed, added, refs.drop_last());
        let r2 = refs.last();
        let all = removed_rows(project, scope, removed, added, refs);
        crate::semantic::part::lemma_ref_count_first(added, r);
        if ref_count(removed, r2) == 1 && first_ref(added, r2) is Some {
        } else {
            let more = removals_of(project, scope, removed, r2);
            lemma_removals_about(project, scope, removed, r2);
            assert(r2 != r);
            assert forall|q: int| 0 <= q < all.len() && (#[trigger] all[q]).reference == r implies all[q].kind
                != ChangeKind::Added && all[q].kind != ChangeKind::Removed by {
                if q >= rest.len() {
                    assert(all[q] == more[q - rest.len()]);
                } else {
                    assert(all[q] == rest[q]);
                }
            }
        }
    }
}

/// The part diff's rows are among the rows it found, in order, each key once.
proof fn lemma_changes_from_rows(rows: Seq<ChangeView>)
    ensures
        sort_dedup(rows).to_set().subset_of(rows.to_set()),
        sort_dedup(rows).to_set() == crate::semantic::part::first_rows(rows),
{
    let dset = crate::semantic::part::first_rows(rows);
    assert(dset.subset_of(rows.to_set()));
    vstd::seq_lib::seq_to_set_is_finite(rows);
    vstd::set_lib::lemma_len_subset(dset, rows.to_set());
    crate::semantic::part::lemma_row_order();
    assert(crate::order::total_on(dset, row_order())) by {
        assert forall|x: ChangeView, y: ChangeView| dset.contains(x) && dset.contains(y) && x != y implies #[trigger] row_order()(
            x,
            y,
        ) || row_order()(y, x) by {
            let i = choose|i: int| #![trigger rows[i]] 0 <= i < rows.len() && rows[i] == x && first_of_key(rows, i);
            let j = choose|j: int| #![trigger rows[j]] 0 <= j < rows.len() && rows[j] == y && first_of_key(rows, j);
            if i < j {
                assert(row_key(rows[i]) != row_key(rows[j]));
            } else if j < i {
                assert(row_key(rows[j]) != row_key(rows[i]));
            }
            crate::semantic::part::lemma_row_lt(x, y, x);
        }
    }
    crate::order::lemma_sorted_seq_of_on(dset, row_order());
    let out = sort_dedup(rows);
    assert(out.to_set() == dset);
}

/// A part deleted and re-placed under the same reference (a fresh key on
/// each side, the reference's only removed and only added part) is reported
/// by its actual differences: no row about that reference is an addition
/// or a removal.
pub proof fn law_replaced_parts_are_compared(
    project: Seq<char>,
    scope: Kind,
    a: Seq<(EntityId, Entity)>,
    b: Seq<(EntityId, Entity)>,
    r: Seq<char>,
)
    requires
        ref_count(only_in(a, b), r) == 1,
        ref_count(only_in(b, a), r) == 1,
    ensures
        no_churn(entity_changes(project, scope, a, b), r),
{
    let removed = only_in(a, b);
    let added = only_in(b, a);
    let m = matched_rows(project, scope, a, b);
    let ad = added_rows(project, scope, removed, added, added.len() as int);
    let rm = removed_rows(project, scope, removed, added, removed_refs(removed));
    lemma_matched_quiet(project, scope, a, b);
    lemma_added_no_churn(project, scope, removed, added, added.len() as int, r);
    lemma_removed_no_churn(project, scope, removed, added, removed_refs(removed), r);
    let rows = entity_rows(project, scope, a, b);
    assert(rows == m + ad + rm);
    assert(no_churn(rows, r)) by {
        assert forall|k: int| 0 <= k < rows.len() && (#[trigger] rows[k]).reference == r implies rows[k].kind
            != ChangeKind::Added && rows[k].kind != ChangeKind::Removed by {
            if k < m.len() {
                assert(rows[k] == m[k]);
            } else if k < m.len() + ad.len() {
                assert(rows[k] == ad[k - m.len()]);
            } else {
                assert(rows[k] == rm[k - m.len() - ad.len()]);
            }
        }
    }
    lemma_changes_from_rows(rows);
    let out = entity_changes(project, scope, a, b);
    assert forall|i: int| 0 <= i < out.len() && (#[trigger] out[i]).reference == r implies out[i].kind
        != ChangeKind::Added && out[i].kind != ChangeKind::Removed by {
        assert(out.to_set().contains(out[i]));
        assert(rows.to_set().contains(out[i]));
        let k = choose|k: int| 0 <= k < rows.len() && rows[k] == out[i];
        assert(rows[k].reference == r);
    }
}

} // verus!

verus! {

/// Every property row is about the head part's reference.
proof fn lemma_property_rows_ref(project: Seq<char>, scope: Kind, x: Entity, y: Entity, keys: Seq<Seq<char>>)
    ensures
        forall|k: int|
            0 <= k < property_rows(project, scope, x, y, keys).len() ==> (#[trigger] property_rows(
                project,
                scope,
                x,
                y,
                keys,
            )[k]).reference == y.reference@,
    decreases keys.len(),
{
    if keys.len() > 0 {
        lemma_property_rows_ref(project, scope, x, y, keys.drop_last());
    }
}

/// Every row comparing two revisions of a part is about the head part's reference.
proof fn lemma_compare_ref(project: Seq<char>, scope: Kind, x: Entity, y: Entity)
    ensures
        forall|k: int|
            0 <= k < compare_rows(project, scope, x, y).len() ==> (#[trigger] compare_rows(project, scope, x, y)[k]).reference
                == y.reference@,
{
    lemma_property_rows_ref(project, scope, x, y, prop_keys(x, y));
    let props = if scope == Kind::Sch {
        property_rows(project, scope, x, y, prop_keys(x, y))
    } else {
        seq![]
    };
    let board = if scope == Kind::Pcb {
        board_rows(project, scope, x, y)
    } else {
        seq![]
    };
    let c = compare_rows(project, scope, x, y);
    assert forall|k: int| 0 <= k < c.len() implies (#[trigger] c[k]).reference == y.reference@ by {
        let head = c.len() - props.len() - board.len();
        if k >= c.len() - board.len() {
            assert(c[k] == board[k - (c.len() - board.len())]);
        } else if k >= head {
            assert(c[k] == props[k - head]);
        }
    }
}

/// The parts only one side has are entries of that side whose key the
/// other side lacks.
proof fn lemma_only_in_entries(a: Seq<(EntityId, Entity)>, b: Seq<(EntityId, Entity)>)
    ensures
        forall|q: int|
            #![trigger only_in(a, b)[q]]
            0 <= q < only_in(a, b).len() ==> exists|t: int|
                #![trigger a[t]]
                0 <= t < a.len() && only_in(a, b)[q].reference@ == a[t].1.reference@ && find_id(b, a[t].0@) is None,
    decreases a.len(),
{
    if a.len() > 0 {
        let d = a.drop_last();
        lemma_only_in_entries(d, b);
        assert forall|q: int| #![trigger only_in(a, b)[q]] 0 <= q < only_in(a, b).len() implies exists|t: int|
            #![trigger a[t]]
            0 <= t < a.len() && only_in(a, b)[q].reference@ == a[t].1.reference@ && find_id(b, a[t].0@) is None by {
            if q < only_in(d, b).len() {
                assert(only_in(a, b)[q] == only_in(d, b)[q]);
                let t = choose|t: int|
                    #![trigger d[t]]
                    0 <= t < d.len() && only_in(d, b)[q].reference@ == d[t].1.reference@ && find_id(b, d[t].0@) is None;
                assert(d[t] == a[t]);
            } else {
                assert(find_id(b, a.last().0@) is None);
                assert(only_in(a, b)[q] == a.last().1);
                assert(a[a.len() - 1] == a.last());
            }
        }
    } else {
        assert(only_in(a, b).len() == 0);
    }
}

/// The rows of the added parts are about added parts' references.
proof fn lemma_added_refs(project: Seq<char>, scope: Kind, removed: Seq<Entity>, added: Seq<Entity>, k: int)
    requires
        k <= added.len(),
    ensures
        forall|q: int|
            0 <= q < added_rows(project, scope, removed, added, k).len() ==> exists|t: int|
                #![trigger added[t]]
                0 <= t < added.len() && added[t].reference@ == (#[trigger] added_rows(
                    project,
                    scope,
                    removed,
                    added,
                    k,
                )[q]).reference,
    decreases k,
{
    if k > 0 {
        lemma_added_refs(project, scope, removed, added, k - 1);
        let rest = added_rows(project, scope, removed, added, k - 1);
        let e = added[k - 1];
        let all = added_rows(project, scope, removed, added, k);
        if replaces(removed, added, k - 1) {
            let x = removed[first_ref(removed, e.reference@).unwrap()];
            let more = compare_rows(project, scope, x, e);
            lemma_compare_ref(project, scope, x, e);
            assert forall|q: int| 0 <= q < all.len() implies exists|t: int|
                #![trigger added[t]]
                0 <= t < added.len() && added[t].reference@ == (#[trigger] all[q]).reference by {
                if q >= rest.len() {
                    assert(all[q] == more[q - rest.len()]);
                    assert(added[k - 1] == e);
                } else {
                    assert(all[q] == rest[q]);
                }
            }
        } else {
            assert forall|q: int| 0 <= q < all.len() implies exists|t: int|
                #![trigger added[t]]
                0 <= t < added.len() && added[t].reference@ == (#[trigger] all[q]).reference by {
                if q < rest.len() {
                    assert(all[q] == rest[q]);
                } else {
                    assert(added[k - 1] == e);
                }
            }
        }
    }
}

/// Removal rows are about removed parts' references.
proof fn lemma_removals_refs(project: Seq<char>, scope: Kind, removed: Seq<Entity>, r2: Seq<char>)
    ensures
        forall|q: int|
            0 <= q < removals_of(project, scope, removed, r2).len() ==> exists|t: int|
                #![trigger removed[t]]
                0 <= t < removed.len() && removed[t].reference@ == (#[trigger] removals_of(
                    project,
                    scope,
                    removed,
                    r2,
                )[q]).reference,
    decreases removed.len(),
{
    if removed.len() > 0 {
        lemma_removals_refs(project, scope, removed.drop_last(), r2);
        let rest = removals_of(project, scope, removed.drop_last(), r2);
        let all = removals_of(project, scope, removed, r2);
        assert forall|q: int| 0 <= q < all.len() implies exists|t: int|
            #![trigger removed[t]]
            0 <= t < removed.len() && removed[t].reference@ == (#[trigger] all[q]).reference by {
            if q < rest.len() {
                assert(all[q] == rest[q]);
                let t = choose|t: int|
                    #![trigger removed.drop_last()[t]]
                    0 <= t < removed.drop_last().len() && removed.drop_last()[t].reference@ == rest[q].reference;
                assert(removed.drop_last()[t] == removed[t]);
            } else {
                assert(removed[removed.len() - 1] == removed.last());
            }
        }
    }
}

/// The removal rows are about removed parts' references.
proof fn lemma_removed_rows_refs(
    project: Seq<char>,
    scope: Kind,
    removed: Seq<Entity>,
    added: Seq<Entity>,
    refs: Seq<Seq<char>>,
)
    ensures
        forall|q: int|
            0 <= q < removed_rows(project, scope, removed, added, refs).len() ==> exists|t: int|
                #![trigger removed[t]]
                0 <= t < removed.len() && removed[t].reference@ == (#[trigger] removed_rows(
                    project,
                    scope,
                    removed,
                    added,
                    refs,
                )[q]).reference,
    decreases refs.len(),
{
    if refs.len() > 0 {
        lemma_removed_rows_refs(project, scope, removed, added, refs.drop_last());
        let rest = removed_rows(project, scope, removed, added, refs.drop_last());
        let all = removed_rows(project, scope, removed, added, refs);
        let r2 = refs.last();
        if !(ref_count(removed, r2) == 1 && first_ref(added, r2) is Some) {
            let more = removals_of(project, scope, removed, r2);
            lemma_removals_refs(project, scope, removed, r2);
            assert forall|q: int| 0 <= q < all.len() implies exists|t: int|
                #![trigger removed[t]]
                0 <= t < removed.len() && removed[t].reference@ == (#[trigger] all[q]).reference by {
                if q >= rest.len() {
                    assert(all[q] == more[q - rest.len()]);
                } else {
                    assert(all[q] == rest[q]);
                }
            }
        }
    }
}

/// The rows comparing `a[t]` with its counterpart `b[j]` are among the
/// rows of matched parts.
proof fn lemma_matched_has(
    project: Seq<char>,
    scope: Kind,
    a: Seq<(EntityId, Entity)>,
    b: Seq<(EntityId, Entity)>,
    t: int,
    j: int,
)
    requires
        0 <= t < a.len(),
        find_id(b, a[t].0@) == Some(j),
    ensures
        forall|k: int|
            0 <= k < compare_rows(project, scope, a[t].1, b[j].1).len() ==> matched_rows(project, scope, a, b).contains(
                #[trigger] compare_rows(project, scope, a[t].1, b[j].1)[k],
            ),
    decreases a.len(),
{
    let c = compare_rows(project, scope, a[t].1, b[j].1);
    let rest = matched_rows(project, scope, a.drop_last(), b);
    let all = matched_rows(project, scope, a, b);
    if t < a.len() - 1 {
        assert(a.drop_last()[t] == a[t]);
        lemma_matched_has(project, scope, a.drop_last(), b, t, j);
        assert forall|k: int| 0 <= k < c.len() implies all.contains(#[trigger] c[k]) by {
            assert(rest.contains(c[k]));
            let q = choose|q: int| 0 <= q < rest.len() && rest[q] == c[k];
            assert(all[q] == rest[q]);
        }
    } else {
        assert(a.last() == a[t]);
        assert forall|k: int| 0 <= k < c.len() implies all.contains(#[trigger] c[k]) by {
            assert(all[rest.len() + k] == c[k]);
        }
    }
}

/// Rows of matched parts about the reference that only `b[j]` carries on
/// the head side compare an entry keyed as `b[j]` with `b[j]`.
proof fn lemma_matched_ref(project: Seq<char>, scope: Kind, a: Seq<(EntityId, Entity)>, b: Seq<(EntityId, Entity)>, j: int)
    requires
        0 <= j < b.len(),
        forall|t: int| 0 <= t < b.len() && t != j ==> (#[trigger] b[t]).1.reference@ != b[j].1.reference@,
    ensures
        forall|q: int|
            0 <= q < matched_rows(project, scope, a, b).len() && (#[trigger] matched_rows(project, scope, a, b)[q]).reference
                == b[j].1.reference@ ==> exists|t: int|
                #![trigger a[t]]
                0 <= t < a.len() && a[t].0@ == b[j].0@ && compare_rows(project, scope, a[t].1, b[j].1).contains(
                    matched_rows(project, scope, a, b)[q],
                ),
    decreases a.len(),
{
    if a.len() > 0 {
        lemma_matched_ref(project, scope, a.drop_last(), b, j);
        let r = b[j].1.reference@;
        let rest = matched_rows(project, scope, a.drop_last(), b);
        let all = matched_rows(project, scope, a, b);
        crate::semantic::part::lemma_find_id_found_pub(b, a.last().0@);
        assert forall|q: int| 0 <= q < all.len() && (#[trigger] all[q]).reference == r implies exists|t: int|
            #![trigger a[t]]
            0 <= t < a.len() && a[t].0@ == b[j].0@ && compare_rows(project, scope, a[t].1, b[j].1).contains(all[q]) by {
            if q < rest.len() {
                assert(all[q] == rest[q]);
                let t = choose|t: int|
                    #![trigger a.drop_last()[t]]
                    0 <= t < a.drop_last().len() && a.drop_last()[t].0@ == b[j].0@ && compare_rows(
                        project,
                        scope,
                        a.drop_last()[t].1,
                        b[j].1,
                    ).contains(rest[q]);
                assert(a.drop_last()[t] == a[t]);
            } else {
                let j2 = find_id(b, a.last().0@).unwrap();
                let more = compare_rows(project, scope, a.last().1, b[j2].1);
                lemma_compare_ref(project, scope, a.last().1, b[j2].1);
                assert(all[q] == more[q - rest.len()]);
                assert(j2 == j);
                assert(a[a.len() - 1] == a.last());
                assert(more.contains(all[q]));
            }
        }
    }
}

/// A join begins with its first piece.
proof fn lemma_join_starts(pieces: Seq<Seq<char>>, sep: Seq<char>)
    requires
        pieces.len() >= 1,
    ensures
        join(pieces, sep).len() >= pieces[0].len(),
        forall|i: int| 0 <= i < pieces[0].len() ==> #[trigger] join(pieces, sep)[i] == pieces[0][i],
    decreases pieces.len(),
{
    if pieces.len() > 1 {
        lemma_join_starts(pieces.drop_last(), sep);
        assert(pieces.drop_last()[0] == pieces[0]);
        let j = join(pieces, sep);
        let p = join(pieces.drop_last(), sep);
        assert forall|i: int| 0 <= i < pieces[0].len() implies #[trigger] join(pieces, sep)[i] == pieces[0][i] by {
            assert(j == p + sep + pieces.last());
            assert(j[i] == p[i]);
        }
    }
}

/// Among the rows comparing a part that switched copper layers, a row
/// keyed as either flip row is that flip row.
proof fn lemma_flip_keys(project: Seq<char>, x: Entity, y: Entity)
    requires
        x.layer is Some,
        y.layer is Some,
        page_view(x.layer) != page_view(y.layer),
    ensures
        board_rows(project, Kind::Pcb, x, y).len() == 2,
        forall|n: int|
            0 <= n < 2 ==> compare_rows(project, Kind::Pcb, x, y).contains(#[trigger] board_rows(project, Kind::Pcb, x, y)[n]),
        forall|k: int, n: int|
            0 <= k < compare_rows(project, Kind::Pcb, x, y).len() && 0 <= n < 2 && row_key(
                #[trigger] compare_rows(project, Kind::Pcb, x, y)[k],
            ) == row_key(#[trigger] board_rows(project, Kind::Pcb, x, y)[n]) ==> compare_rows(project, Kind::Pcb, x, y)[k]
                == board_rows(project, Kind::Pcb, x, y)[n],
{
    let c = compare_rows(project, Kind::Pcb, x, y);
    let f = board_rows(project, Kind::Pcb, x, y);
    let m = motion(x, y);
    let to_text = "Flipped to "@ + y.layer.unwrap()@;
    let from_text = "Flipped from "@ + x.layer.unwrap()@;
    reveal_strlit("Flipped to ");
    reveal_strlit("Flipped from ");
    reveal_strlit("flipped");
    reveal_strlit("renamed");
    reveal_strlit("footprint");
    assert((seq![to_text] + m)[0] == to_text);
    assert((seq![from_text] + m)[0] == from_text);
    lemma_join_starts(seq![to_text] + m, ", "@);
    lemma_join_starts(seq![from_text] + m, ", "@);
    assert(f[0].detail[8] == 't');
    assert(f[1].detail[8] == 'f');
    assert(f[0].detail != f[1].detail);
    assert(change_kind_name(ChangeKind::Flipped)[1] != change_kind_name(ChangeKind::Renamed)[1]);
    assert(change_kind_name(ChangeKind::Flipped)[0] != change_kind_name(ChangeKind::FootprintChanged)[0] || change_kind_name(
        ChangeKind::Flipped,
    )[1] != change_kind_name(ChangeKind::FootprintChanged)[1]);
    let head = c.len() - 2;
    assert(c[head] == f[0] && c[head + 1] == f[1]);
    assert forall|k: int, n: int|
        0 <= k < c.len() && 0 <= n < 2 && row_key(#[trigger] c[k]) == row_key(#[trigger] f[n]) implies c[k] == f[n] by {
        if k < head {
            assert(c[k].kind == ChangeKind::Renamed || c[k].kind == ChangeKind::FootprintChanged);
        }
    }
}

/// The first position of a key among rows that have it.
proof fn lemma_first_key(rows: Seq<ChangeView>, p: int) -> (k: int)
    requires
        0 <= p < rows.len(),
    ensures
        0 <= k <= p,
        row_key(rows[k]) == row_key(rows[p]),
        first_of_key(rows, k),
    decreases p,
{
    if exists|j: int| 0 <= j < p && row_key(rows[j]) == row_key(rows[p]) {
        let j = choose|j: int| 0 <= j < p && row_key(rows[j]) == row_key(rows[p]);
        lemma_first_key(rows, j)
    } else {
        p
    }
}

/// A part that switched board side is reported under both copper layers:
/// the board diff holds a "Flipped to" row on the layer it left and a
/// "Flipped from" row on the layer it landed on, each said once under its
/// reference, kind and detail. Where another part on either side carries
/// the same reference, a row of that part with the same reference, kind and
/// detail may stand for it; where none does, the board diff holds both
/// flip rows themselves.
pub proof fn law_side_flip_reports_both_layers(
    project: Seq<char>,
    a: Seq<(EntityId, Entity)>,
    b: Seq<(EntityId, Entity)>,
    i: int,
    j: int,
)
    requires
        keys_distinct(a),
        keys_distinct(b),
        0 <= i < a.len(),
        0 <= j < b.len(),
        a[i].0@ == b[j].0@,
        a[i].1.layer is Some,
        b[j].1.layer is Some,
        page_view(a[i].1.layer) != page_view(b[j].1.layer),
    ensures
        ({
            let f = board_rows(project, Kind::Pcb, a[i].1, b[j].1);
            let out = entity_changes(project, Kind::Pcb, a, b);
            &&& f.len() == 2
            &&& f[0].kind == ChangeKind::Flipped && f[0].layer == page_view(a[i].1.layer)
            &&& f[1].kind == ChangeKind::Flipped && f[1].layer == page_view(b[j].1.layer)
            &&& exists|k: int| 0 <= k < out.len() && row_key(#[trigger] out[k]) == row_key(f[0])
            &&& exists|k: int| 0 <= k < out.len() && row_key(#[trigger] out[k]) == row_key(f[1])
            &&& ((forall|t: int| 0 <= t < a.len() && t != i ==> (#[trigger] a[t]).1.reference@ != b[j].1.reference@)
                && (forall|t: int| 0 <= t < b.len() && t != j ==> (#[trigger] b[t]).1.reference@ != b[j].1.reference@)
                ==> out.contains(f[0]) && out.contains(f[1]))
        }),
{
    let x = a[i].1;
    let y = b[j].1;
    let r = y.reference@;
    let f = board_rows(project, Kind::Pcb, x, y);
    let out = entity_changes(project, Kind::Pcb, a, b);
    let removed = only_in(a, b);
    let added = only_in(b, a);
    let m = matched_rows(project, Kind::Pcb, a, b);
    let ad = added_rows(project, Kind::Pcb, removed, added, added.len() as int);
    let rm = removed_rows(project, Kind::Pcb, removed, added, removed_refs(removed));
    let rows = entity_rows(project, Kind::Pcb, a, b);
    assert(rows == m + ad + rm);
    lemma_find_own_key(b, j);
    lemma_find_own_key(a, i);
    lemma_flip_keys(project, x, y);
    lemma_matched_has(project, Kind::Pcb, a, b, i, j);
    lemma_changes_from_rows(rows);
    let unique = (forall|t: int| 0 <= t < a.len() && t != i ==> (#[trigger] a[t]).1.reference@ != r) && (forall|t: int|
        0 <= t < b.len() && t != j ==> (#[trigger] b[t]).1.reference@ != r);
    if unique {
        lemma_matched_ref(project, Kind::Pcb, a, b, j);
        lemma_only_in_entries(a, b);
        lemma_only_in_entries(b, a);
        lemma_added_refs(project, Kind::Pcb, removed, added, added.len() as int);
        lemma_removed_rows_refs(project, Kind::Pcb, removed, added, removed_refs(removed));
    }
    assert forall|n: int| #![trigger f[n]] 0 <= n < 2 implies (exists|k: int| 0 <= k < out.len() && row_key(#[trigger] out[k])
        == row_key(f[n])) && (unique ==> out.contains(f[n])) by {
        let c = compare_rows(project, Kind::Pcb, x, y);
        assert(c.contains(f[n]));
        let kc = choose|kc: int| 0 <= kc < c.len() && c[kc] == f[n];
        assert(m.contains(c[kc]));
        let p0 = choose|p0: int| 0 <= p0 < m.len() && m[p0] == c[kc];
        assert(rows[p0] == m[p0]);
        let k = lemma_first_key(rows, p0);
        assert(first_rows(rows).contains(rows[k]));
        assert(out.to_set().contains(rows[k]));
        let ko = choose|ko: int| 0 <= ko < out.len() && out[ko] == rows[k];
        assert(row_key(out[ko]) == row_key(f[n]));
        if unique {
            assert(rows[k].reference == r);
            if k >= m.len() + ad.len() {
                assert(rows[k] == rm[k - m.len() - ad.len()]);
                let t = choose|t: int| #![trigger removed[t]] 0 <= t < removed.len() && removed[t].reference@ == rm[k - m.len() - ad.len()].reference;
                let ta = choose|ta: int| #![trigger a[ta]] 0 <= ta < a.len() && removed[t].reference@ == a[ta].1.reference@ && find_id(b, a[ta].0@) is None;
                assert(ta != i);
                assert(false);
            } else if k >= m.len() {
                assert(rows[k] == ad[k - m.len()]);
                let t = choose|t: int| #![trigger added[t]] 0 <= t < added.len() && added[t].reference@ == ad[k - m.len()].reference;
                let tb = choose|tb: int| #![trigger b[tb]] 0 <= tb < b.len() && added[t].reference@ == b[tb].1.reference@ && find_id(a, b[tb].0@) is None;
                assert(tb != j);
                assert(false);
            } else {
                assert(rows[k] == m[k]);
                let t = choose|t: int|
                    #![trigger a[t]]
                    0 <= t < a.len() && a[t].0@ == b[j].0@ && compare_rows(project, Kind::Pcb, a[t].1, b[j].1).contains(m[k]);
                if t != i {
                    assert(a[t].0@ != a[i].0@) by {
                        if t < i {
                            assert(a[t].0@ != a[i].0@);
                        } else {
                            assert(a[i].0@ != a[t].0@);
                        }
                    }
                }
                assert(t == i);
                let kk = choose|kk: int| 0 <= kk < c.len() && c[kk] == m[k];
                assert(row_key(c[kk]) == row_key(f[n]));
                assert(c[kk] == f[n]);
                assert(out[ko] == f[n]);
            }
        }
    }
}

} // verus!

verus! {

/// The rows over `u` are about pins of `u` whose connection changed and
/// that are not silenced, and every such pin has one.
proof fn lemma_conn_rows_exact(c: ConnInput, m: Seq<Option<nat>>, u: Seq<NodeV>)
    ensures
        forall|k: int|
            0 <= k < conn_rows(c, m, u).len() ==> u.contains((#[trigger] conn_rows(c, m, u)[k]).node) && !same_net(
                c,
                m,
                conn_rows(c, m, u)[k].node,
            ) && !silenced(c, conn_rows(c, m, u)[k].node),
        forall|n: NodeV|
            #[trigger] u.contains(n) && !same_net(c, m, n) && !silenced(c, n) ==> exists|k: int|
                0 <= k < conn_rows(c, m, u).len() && (#[trigger] conn_rows(c, m, u)[k]).node == n,
    decreases u.len(),
{
    if u.len() > 0 {
        let d = u.drop_last();
        lemma_conn_rows_exact(c, m, d);
        let rest = conn_rows(c, m, d);
        let all = conn_rows(c, m, u);
        assert forall|k: int| 0 <= k < all.len() implies u.contains((#[trigger] all[k]).node) && !same_net(
            c,
            m,
            all[k].node,
        ) && !silenced(c, all[k].node) by {
            if k < rest.len() {
                assert(all[k] == rest[k]);
                assert(d.contains(rest[k].node));
                let q = choose|q: int| 0 <= q < d.len() && d[q] == rest[k].node;
                assert(u[q] == d[q]);
            } else {
                assert(all[k].node == u.last());
                assert(u[u.len() - 1] == u.last());
            }
        }
        assert forall|n: NodeV| #[trigger] u.contains(n) && !same_net(c, m, n) && !silenced(c, n) implies exists|k: int|
            0 <= k < all.len() && (#[trigger] all[k]).node == n by {
            let q = choose|q: int| 0 <= q < u.len() && u[q] == n;
            if q < u.len() - 1 {
                assert(d[q] == u[q]);
                assert(d.contains(n));
                let k = choose|k: int| 0 <= k < rest.len() && (#[trigger] rest[k]).node == n;
                assert(all[k] == rest[k]);
            } else {
                assert(n == u.last());
                assert(all[all.len() - 1].node == n);
            }
        }
    }
}

/// Only pins whose connections actually changed are reported: each
/// reported pin is one of the compared pins whose net on one side is not
/// matched to its net on the other (or which is connected on one side
/// only), and not one that left or arrived with its part's symbol; and
/// every such pin is reported.
pub proof fn law_only_changed_pins_are_reported(c: ConnInput)
    ensures
        forall|k: int|
            0 <= k < rows_of(c).len() ==> c.universe().contains((#[trigger] rows_of(c)[k]).node) && !same_net(
                c,
                matched(c),
                rows_of(c)[k].node,
            ) && !silenced(c, rows_of(c)[k].node),
        forall|n: NodeV|
            #[trigger] c.universe().contains(n) && !same_net(c, matched(c), n) && !silenced(c, n) ==> exists|k: int|
                0 <= k < rows_of(c).len() && (#[trigger] rows_of(c)[k]).node == n,
{
    lemma_conn_rows_exact(c, matched(c), c.universe());
}

} // verus!

verus! {

/// Each kind of change has a name of its own.
proof fn lemma_kind_names_differ(k1: ChangeKind, k2: ChangeKind)
    requires
        change_kind_name(k1) == change_kind_name(k2),
    ensures
        k1 == k2,
{
    reveal_strlit("added");
    reveal_strlit("removed");
    reveal_strlit("renamed");
    reveal_strlit("moved");
    reveal_strlit("flipped");
    reveal_strlit("value");
    reveal_strlit("footprint");
    reveal_strlit("property");
    reveal_strlit("net");
    let n1 = change_kind_name(k1);
    let n2 = change_kind_name(k2);
    assert(n1.len() == n2.len() && n1[0] == n2[0] && n1[2] == n2[2]);
}

/// A row comparing two revisions of a part (the same key on both sides) is
/// reported: the part diff holds a row with its sheet, reference, kind and
/// detail.
proof fn lemma_compared_row_reported(
    project: Seq<char>,
    scope: Kind,
    a: Seq<(EntityId, Entity)>,
    b: Seq<(EntityId, Entity)>,
    i: int,
    j: int,
    row: ChangeView,
)
    requires
        keys_distinct(b),
        0 <= i < a.len(),
        0 <= j < b.len(),
        a[i].0@ == b[j].0@,
        compare_rows(project, scope, a[i].1, b[j].1).contains(row),
    ensures
        exists|k: int|
            0 <= k < entity_changes(project, scope, a, b).len() && row_key(
                #[trigger] entity_changes(project, scope, a, b)[k],
            ) == row_key(row),
{
    let out = entity_changes(project, scope, a, b);
    let removed = only_in(a, b);
    let added = only_in(b, a);
    let m = matched_rows(project, scope, a, b);
    let ad = added_rows(project, scope, removed, added, added.len() as int);
    let rm = removed_rows(project, scope, removed, added, removed_refs(removed));
    let rows = entity_rows(project, scope, a, b);
    assert(rows == m + ad + rm);
    lemma_find_own_key(b, j);
    lemma_matched_has(project, scope, a, b, i, j);
    lemma_changes_from_rows(rows);
    let c = compare_rows(project, scope, a[i].1, b[j].1);
    let kc = choose|kc: int| 0 <= kc < c.len() && c[kc] == row;
    assert(m.contains(c[kc]));
    let p0 = choose|p0: int| 0 <= p0 < m.len() && m[p0] == c[kc];
    assert(rows[p0] == m[p0]);
    let k = lemma_first_key(rows, p0);
    assert(first_rows(rows).contains(rows[k]));
    assert(out.to_set().contains(rows[k]));
    let ko = choose|ko: int| 0 <= ko < out.len() && out[ko] == rows[k];
    assert(row_key(out[ko]) == row_key(row));
}

/// A library swap is reported in whichever file it occurs: when the two
/// revisions of a part (the same key on both sides) name different
/// libraries, the part diff, of a schematic as of a board, holds a library
/// row under the head reference reading "Library: old -> new" ("-" for a
/// missing library id).
pub proof fn law_library_swaps_are_reported(
    project: Seq<char>,
    scope: Kind,
    a: Seq<(EntityId, Entity)>,
    b: Seq<(EntityId, Entity)>,
    i: int,
    j: int,
)
    requires
        keys_distinct(a),
        keys_distinct(b),
        0 <= i < a.len(),
        0 <= j < b.len(),
        a[i].0@ == b[j].0@,
        a[i].1.lib_id.is_some() != b[j].1.lib_id.is_some() || (a[i].1.lib_id.is_some() && a[i].1.lib_id.unwrap()@
            != b[j].1.lib_id.unwrap()@),
    ensures
        exists|k: int|
            0 <= k < entity_changes(project, scope, a, b).len() && (#[trigger] entity_changes(project, scope, a, b)[k]).kind
                == ChangeKind::FootprintChanged && entity_changes(project, scope, a, b)[k].reference == b[j].1.reference@
                && entity_changes(project, scope, a, b)[k].detail == "Library: "@ + (match a[i].1.lib_id {
                Some(s) => s@,
                None => "-"@,
            }) + " -> "@ + (match b[j].1.lib_id {
                Some(s) => s@,
                None => "-"@,
            }),
{
    let x = a[i].1;
    let y = b[j].1;
    let row = fact_row(
        project,
        scope,
        ChangeKind::FootprintChanged,
        Some(x),
        Some(y),
        y.reference@,
        "Library: "@ + or_dash(opt_text(x.lib_id)) + " -> "@ + or_dash(opt_text(y.lib_id)),
    );
    let c = compare_rows(project, scope, x, y);
    let r1: Seq<ChangeView> = if x.reference@ != y.reference@ {
        seq![fact_row(project, scope, ChangeKind::Renamed, Some(x), Some(y), y.reference@,
            "Renamed: "@ + x.reference@ + " -> "@ + y.reference@)]
    } else {
        seq![]
    };
    let r2: Seq<ChangeView> = if scope == Kind::Sch && opt_text(x.value) != opt_text(y.value) {
        seq![fact_row(project, scope, ChangeKind::ValueChanged, Some(x), Some(y), y.reference@,
            "Value: "@ + or_dash(opt_text(x.value)) + " -> "@ + or_dash(opt_text(y.value)))]
    } else {
        seq![]
    };
    assert(opt_text(x.lib_id) != opt_text(y.lib_id));
    assert(c[(r1.len() + r2.len()) as int] == row);
    assert(c.contains(row));
    lemma_compared_row_reported(project, scope, a, b, i, j, row);
    let out = entity_changes(project, scope, a, b);
    let k = choose|k: int| 0 <= k < out.len() && row_key(#[trigger] out[k]) == row_key(row);
    lemma_kind_names_differ(out[k].kind, ChangeKind::FootprintChanged);
}

/// A rotation on the board is reported: when the two revisions of a board
/// part (the same key on both sides) sit at the same place on the same
/// side and differ only in orientation, the board diff holds a move row
/// under the head reference reading "Rotated to" the new angle.
pub proof fn law_board_rotations_are_reported(
    project: Seq<char>,
    a: Seq<(EntityId, Entity)>,
    b: Seq<(EntityId, Entity)>,
    i: int,
    j: int,
)
    requires
        keys_distinct(a),
        keys_distinct(b),
        0 <= i < a.len(),
        0 <= j < b.len(),
        a[i].0@ == b[j].0@,
        a[i].1.at is Some,
        a[i].1.at == b[j].1.at,
        page_view(a[i].1.layer) == page_view(b[j].1.layer),
        a[i].1.rotation != b[j].1.rotation,
    ensures
        exists|k: int|
            0 <= k < entity_changes(project, Kind::Pcb, a, b).len() && (#[trigger] entity_changes(
                project,
                Kind::Pcb,
                a,
                b,
            )[k]).kind == ChangeKind::Moved && entity_changes(project, Kind::Pcb, a, b)[k].reference
                == b[j].1.reference@ && entity_changes(project, Kind::Pcb, a, b)[k].detail == "Rotated to "@
                + crate::semantic::part::degrees(b[j].1.rotation as int) + "\u{b0}"@,
{
    let x = a[i].1;
    let y = b[j].1;
    let m = motion(x, y);
    let piece = "rotated to "@ + crate::semantic::part::degrees(y.rotation as int) + "\u{b0}"@;
    assert(dist2(x.at.unwrap(), y.at.unwrap()) == 0);
    assert(m =~= seq![piece]);
    assert(join(m, ", "@) == piece);
    reveal_strlit("rotated to ");
    reveal_strlit("Rotated to ");
    let detail = crate::text::capitalize(piece);
    assert(detail =~= "Rotated to "@ + crate::semantic::part::degrees(y.rotation as int) + "\u{b0}"@);
    let row = fact_row(project, Kind::Pcb, ChangeKind::Moved, Some(x), Some(y), y.reference@, detail);
    let f = board_rows(project, Kind::Pcb, x, y);
    assert(f == seq![row]);
    let c = compare_rows(project, Kind::Pcb, x, y);
    assert(c[c.len() - 1] == row);
    assert(c.contains(row));
    lemma_compared_row_reported(project, Kind::Pcb, a, b, i, j, row);
    let out = entity_changes(project, Kind::Pcb, a, b);
    let k = choose|k: int| 0 <= k < out.len() && row_key(#[trigger] out[k]) == row_key(row);
    lemma_kind_names_differ(out[k].kind, ChangeKind::Moved);
}

/// The net pairs left to structural matching are visited best overlap
/// first: along `overlap_pairs`, the number of compared pins a pair shares
/// never grows, so no pair is taken before one sharing strictly more pins;
/// and every pair of nets sharing a pin is visited.
pub proof fn law_structural_pairs_best_overlap_first(c: ConnInput)
    ensures
        forall|p: int, q: int|
            0 <= p < q < overlap_pairs(c).len() ==> c.overlap(
                (#[trigger] overlap_pairs(c)[p]).0,
                overlap_pairs(c)[p].1,
            ) >= c.overlap((#[trigger] overlap_pairs(c)[q]).0, overlap_pairs(c)[q].1),
        forall|ai: nat, bi: nat|
            ai < c.names_a().len() && bi < c.names_b().len() && #[trigger] c.overlap(ai, bi) > 0 ==> overlap_pairs(
                c,
            ).contains((ai, bi)),
{
    let pset = Set::new(
        |p: (nat, nat)| p.0 < c.names_a().len() && p.1 < c.names_b().len() && c.overlap(p.0, p.1) > 0,
    );
    lemma_pairs_finite(c);
    assert(strict_order(pair_order(c)) && total(pair_order(c))) by {
        assert forall|p: (nat, nat), q: (nat, nat)| p != q implies #[trigger] pair_order(c)(p, q) || pair_order(c)(q, p) by {}
    }
    lemma_sorted_seq_of(pset, pair_order(c));
    let ps = overlap_pairs(c);
    assert forall|p: int, q: int| 0 <= p < q < ps.len() implies c.overlap((#[trigger] ps[p]).0, ps[p].1) >= c.overlap(
        (#[trigger] ps[q]).0,
        ps[q].1,
    ) by {
        assert(pair_order(c)(ps[p], ps[q]));
    }
    assert forall|ai: nat, bi: nat|
        ai < c.names_a().len() && bi < c.names_b().len() && #[trigger] c.overlap(ai, bi) > 0 implies ps.contains(
        (ai, bi),
    ) by {
        assert(pset.contains((ai, bi)));
        assert(ps.to_set().contains((ai, bi)));
    }
}

} // verus!

verus! {

/// Matching by name keeps one entry per base net and one per head net.
proof fn lemma_by_name_lens(c: ConnInput, k: nat)
    requires
        k <= c.names_a().len(),
    ensures
        match_by_name(c, k).0.len() == c.names_a().len(),
        match_by_name(c, k).1.len() == c.names_b().len(),
    decreases k,
{
    if k > 0 {
        lemma_by_name_lens(c, (k - 1) as nat);
        crate::semantic::connectivity::lemma_last_named_bound(c.names_b(), c.names_a()[k - 1]);
    }
}

/// Greedy matching only adds matches, keeps the state's sizes, and leaves
/// no visited pair with both nets free.
proof fn lemma_greedy_maximal(ps: Seq<(nat, nat)>, st: (Seq<Option<nat>>, Seq<bool>))
    requires
        forall|k: int| 0 <= k < ps.len() ==> (#[trigger] ps[k]).0 < st.0.len() && ps[k].1 < st.1.len(),
    ensures
        match_greedy(ps, st).0.len() == st.0.len(),
        match_greedy(ps, st).1.len() == st.1.len(),
        forall|i: int| 0 <= i < st.0.len() && st.0[i] is Some ==> (#[trigger] match_greedy(ps, st).0[i]) is Some,
        forall|j: int| 0 <= j < st.1.len() && st.1[j] ==> #[trigger] match_greedy(ps, st).1[j],
        forall|k: int|
            0 <= k < ps.len() ==> match_greedy(ps, st).0[(#[trigger] ps[k]).0 as int] is Some || match_greedy(ps, st).1[ps[k].1 as int],
    decreases ps.len(),
{
    if ps.len() > 0 {
        let d = ps.drop_last();
        assert forall|k: int| 0 <= k < d.len() implies (#[trigger] d[k]).0 < st.0.len() && d[k].1 < st.1.len() by {
            assert(d[k] == ps[k]);
        }
        lemma_greedy_maximal(d, st);
        let (m, t) = match_greedy(d, st);
        let p = ps.last();
        let r = match_greedy(ps, st);
        assert forall|k: int| 0 <= k < ps.len() implies r.0[(#[trigger] ps[k]).0 as int] is Some || r.1[ps[k].1 as int] by {
            if k < d.len() {
                assert(d[k] == ps[k]);
                assert(m[d[k].0 as int] is Some || t[d[k].1 as int]);
            }
        }
    }
}

/// No base net that shares a compared pin with a head net is left
/// unmatched while that head net stays free: the matching takes every pair
/// of nets sharing pins unless one of the two is already matched.
pub proof fn law_matching_leaves_no_sharing_pair_free(c: ConnInput, ai: nat, bi: nat)
    requires
        ai < c.names_a().len(),
        bi < c.names_b().len(),
        c.overlap(ai, bi) > 0,
    ensures
        matched(c)[ai as int] is Some || match_greedy(overlap_pairs(c), match_by_name(c, c.names_a().len())).1[bi as int],
{
    law_structural_pairs_best_overlap_first(c);
    lemma_by_name_lens(c, c.names_a().len());
    let ps = overlap_pairs(c);
    let pset = Set::new(
        |p: (nat, nat)| p.0 < c.names_a().len() && p.1 < c.names_b().len() && c.overlap(p.0, p.1) > 0,
    );
    lemma_pairs_finite(c);
    assert(strict_order(pair_order(c)) && total(pair_order(c))) by {
        assert forall|p: (nat, nat), q: (nat, nat)| p != q implies #[trigger] pair_order(c)(p, q) || pair_order(c)(q, p) by {}
    }
    lemma_sorted_seq_of(pset, pair_order(c));
    let st = match_by_name(c, c.names_a().len());
    assert forall|k: int| 0 <= k < ps.len() implies (#[trigger] ps[k]).0 < st.0.len() && ps[k].1 < st.1.len() by {
        assert(ps.to_set().contains(ps[k]));
        assert(pset.contains(ps[k]));
    }
    lemma_greedy_maximal(ps, st);
    assert(ps.contains((ai, bi)));
    let k = choose|k: int| 0 <= k < ps.len() && ps[k] == (ai, bi);
    assert(ps[k] == (ai, bi));
}

} // verus!
