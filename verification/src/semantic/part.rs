//! Part-level diff: matching by UUID, re-placement pairing, per-fact rows.

use vstd::prelude::*;

use crate::ids::{EntityId, PageName, ProjectLabel, Reference};
use crate::kicad::Kind;
use crate::order::{sorted_seq_of, strict_order, strictly_sorted};
use crate::semantic::{page_view, Change, ChangeKind, ChangeView, Entity, Point, change_kind_name};
use crate::semantic::{changes_view, clone_page};
use crate::text::{
    capitalize, chars_of, decimal, join, join_exec, lemma_seq_lt_irreflexive, lemma_seq_lt_transitive, push_chars,
    push_str, seq_lt, str_eq, str_lt, string_of,
};

verus! {

/// The characters of an optional text.
pub open spec fn opt_text(o: Option<String>) -> Option<Seq<char>> {
    match o {
        Some(s) => Some(s@),
        None => None,
    }
}

/// An optional text as shown in a detail: the text, or "-".
pub open spec fn or_dash(o: Option<Seq<char>>) -> Seq<char> {
    match o {
        Some(s) => s,
        None => "-"@,
    }
}

/// The change row a fact produces. `x` is the part on the base side, `y`
/// on the head side; either may be absent. The sheet and layer come from
/// the head side when it exists, and each side keeps its own location.
pub open spec fn fact_row(
    project: Seq<char>,
    scope: Kind,
    kind: ChangeKind,
    x: Option<Entity>,
    y: Option<Entity>,
    reference: Seq<char>,
    detail: Seq<char>,
) -> ChangeView {
    let src = if y is Some {
        y
    } else {
        x
    };
    ChangeView {
        project,
        scope,
        sheet: match src {
            Some(e) => page_view(e.sheet),
            None => None,
        },
        kind,
        reference,
        detail,
        layer: match src {
            Some(e) => page_view(e.layer),
            None => None,
        },
        at_base: match x {
            Some(e) => e.at,
            None => None,
        },
        at_head: match y {
            Some(e) => e.at,
            None => None,
        },
        frac_base: None,
        frac_head: None,
    }
}

/// The value of property `key` among `props` (the first entry with that name).
pub open spec fn prop_get(props: Seq<(String, String)>, key: Seq<char>) -> Option<Seq<char>>
    decreases props.len(),
{
    if props.len() == 0 {
        None
    } else if props[0].0@ == key {
        Some(props[0].1@)
    } else {
        prop_get(props.drop_first(), key)
    }
}

/// The names of the properties of `props`.
pub open spec fn prop_names(props: Seq<(String, String)>) -> Set<Seq<char>> {
    Set::new(|k: Seq<char>| exists|i: int| #![trigger props[i]] 0 <= i < props.len() && props[i].0@ == k)
}

/// `seq_lt` as a value.
pub open spec fn text_order() -> spec_fn(Seq<char>, Seq<char>) -> bool {
    |a: Seq<char>, b: Seq<char>| seq_lt(a, b)
}

/// The property names of either part, in order.
pub open spec fn prop_keys(x: Entity, y: Entity) -> Seq<Seq<char>> {
    sorted_seq_of(prop_names(x.properties@).union(prop_names(y.properties@)), text_order())
}

/// The property rows for the names `keys`: one per property whose value
/// differs, except a field that disappears together with a symbol swap
/// (it left with the old symbol; the swap row is the parent of that).
pub open spec fn property_rows(project: Seq<char>, scope: Kind, x: Entity, y: Entity, keys: Seq<Seq<char>>) -> Seq<
    ChangeView,
>
    decreases keys.len(),
{
    if keys.len() == 0 {
        seq![]
    } else {
        let rest = property_rows(project, scope, x, y, keys.drop_last());
        let key = keys.last();
        let from = prop_get(x.properties@, key);
        let to = prop_get(y.properties@, key);
        if from == to || (to is None && opt_text(x.lib_id) != opt_text(y.lib_id)) {
            rest
        } else {
            rest.push(
                fact_row(
                    project,
                    scope,
                    ChangeKind::PropertyChanged,
                    Some(x),
                    Some(y),
                    y.reference@,
                    key + ": "@ + or_dash(from) + " -> "@ + or_dash(to),
                ),
            )
        }
    }
}

/// The squared distance between two points, in square nanometres.
pub open spec fn dist2(p: Point, q: Point) -> int {
    (p.x - q.x) * (p.x - q.x) + (p.y - q.y) * (p.y - q.y)
}

/// `r` is the integer square root of `n`.
pub open spec fn is_isqrt(r: int, n: int) -> bool {
    0 <= r && r * r <= n < (r + 1) * (r + 1)
}

/// A distance given by its square, in hundredths of a millimetre, rounded
/// to the nearest.
pub open spec fn hundredths(d2: int) -> int {
    ((choose|r: int| is_isqrt(r, d2)) + 5000) / 10000
}

/// Two decimal digits of a value below one hundred.
pub open spec fn two_digits(v: nat) -> Seq<char> {
    seq![crate::text::digit_char(v / 10), crate::text::digit_char(v % 10)]
}

/// A length in hundredths of a millimetre, with two decimals ("5.00").
pub open spec fn mm2(h: nat) -> Seq<char> {
    decimal(h / 100) + "."@ + two_digits(h % 100)
}

/// The `n` decimal digits of `f`, zero-padded on the left.
pub open spec fn padded(f: nat, n: nat) -> Seq<char>
    decreases n,
{
    if n == 0 {
        seq![]
    } else {
        padded(f / 10, (n - 1) as nat).push(crate::text::digit_char(f % 10))
    }
}

/// Digits without their trailing zeros.
pub open spec fn strip_zeros(s: Seq<char>) -> Seq<char>
    decreases s.len(),
{
    if s.len() > 0 && s.last() == '0' {
        strip_zeros(s.drop_last())
    } else {
        s
    }
}

/// The decimals of a count of billionths below one billion, trailing zeros
/// dropped ("" for none).
pub open spec fn billionths(f: nat) -> Seq<char> {
    if f == 0 {
        seq![]
    } else {
        "."@ + strip_zeros(padded(f, 9))
    }
}

/// An angle in billionths of a degree, as the shortest decimal ("180",
/// "-45.5", "12.3456").
pub open spec fn degrees(r: int) -> Seq<char> {
    let a = if r < 0 {
        -r
    } else {
        r
    };
    (if r < 0 {
        "-"@
    } else {
        seq![]
    }) + decimal((a / 1_000_000_000) as nat) + billionths((a % 1_000_000_000) as nat)
}

/// Position delta (squared, in square nanometres) a footprint must exceed
/// to be reported as moved: 0.01 mm.
pub open spec fn move_epsilon2() -> int {
    100_000_000
}

/// How a footprint moved between revisions: "moved 2.31 mm" beyond the
/// threshold, "rotated to 90°" on a new orientation.
pub open spec fn motion(x: Entity, y: Entity) -> Seq<Seq<char>> {
    match (x.at, y.at) {
        (Some(pa), Some(pb)) => {
            let d2 = dist2(pa, pb);
            (if d2 > move_epsilon2() {
                seq!["moved "@ + mm2(hundredths(d2) as nat) + " mm"@]
            } else {
                seq![]
            }) + (if x.rotation != y.rotation {
                seq!["rotated to "@ + degrees(y.rotation as int) + "\u{b0}"@]
            } else {
                seq![]
            })
        },
        _ => seq![],
    }
}

/// The board rows of a part: a side swap gets a row on each copper layer
/// (where it left, marking the base location; where it landed, marking the
/// head location), any motion trailing the direction; otherwise motion alone
/// makes one row.
pub open spec fn board_rows(project: Seq<char>, scope: Kind, x: Entity, y: Entity) -> Seq<ChangeView> {
    let m = motion(x, y);
    if page_view(x.layer) != page_view(y.layer) && x.layer is Some && y.layer is Some {
        let to = y.layer.unwrap()@;
        let from = x.layer.unwrap()@;
        seq![
            fact_row(project, scope, ChangeKind::Flipped, Some(x), None, y.reference@,
                join(seq!["Flipped to "@ + to] + m, ", "@)),
            fact_row(project, scope, ChangeKind::Flipped, None, Some(y), y.reference@,
                join(seq!["Flipped from "@ + from] + m, ", "@)),
        ]
    } else if m.len() > 0 {
        seq![fact_row(project, scope, ChangeKind::Moved, Some(x), Some(y), y.reference@, capitalize(join(m, ", "@)))]
    } else {
        seq![]
    }
}

/// Differences between two revisions of the same part. Each fact is reported
/// in the domain that owns it: value and properties on the schematic,
/// placement on the board.
pub open spec fn compare_rows(project: Seq<char>, scope: Kind, x: Entity, y: Entity) -> Seq<ChangeView> {
    (if x.reference@ != y.reference@ {
        seq![fact_row(project, scope, ChangeKind::Renamed, Some(x), Some(y), y.reference@,
            "Renamed: "@ + x.reference@ + " -> "@ + y.reference@)]
    } else {
        seq![]
    }) + (if scope == Kind::Sch && opt_text(x.value) != opt_text(y.value) {
        seq![fact_row(project, scope, ChangeKind::ValueChanged, Some(x), Some(y), y.reference@,
            "Value: "@ + or_dash(opt_text(x.value)) + " -> "@ + or_dash(opt_text(y.value)))]
    } else {
        seq![]
    }) + (if opt_text(x.lib_id) != opt_text(y.lib_id) {
        seq![fact_row(project, scope, ChangeKind::FootprintChanged, Some(x), Some(y), y.reference@,
            "Library: "@ + or_dash(opt_text(x.lib_id)) + " -> "@ + or_dash(opt_text(y.lib_id)))]
    } else {
        seq![]
    }) + (if scope == Kind::Sch {
        property_rows(project, scope, x, y, prop_keys(x, y))
    } else {
        seq![]
    }) + (if scope == Kind::Pcb {
        board_rows(project, scope, x, y)
    } else {
        seq![]
    })
}

} // verus!

verus! {

/// The lines describing a part's non-empty properties.
pub open spec fn prop_lines(props: Seq<(String, String)>) -> Seq<Seq<char>>
    decreases props.len(),
{
    if props.len() == 0 {
        seq![]
    } else {
        let rest = prop_lines(props.drop_last());
        let (k, v) = props.last();
        if v@.len() > 0 {
            rest.push(k@ + ": "@ + v@)
        } else {
            rest
        }
    }
}

/// Everything a fresh part brings, one line per fact.
pub open spec fn describe(e: Entity) -> Seq<char> {
    join(
        (match opt_text(e.value) {
            Some(v) => if v.len() > 0 {
                seq!["Value: "@ + v]
            } else {
                seq![]
            },
            None => seq![],
        }) + (match opt_text(e.lib_id) {
            Some(l) => if l.len() > 0 {
                seq!["Library: "@ + l]
            } else {
                seq![]
            },
            None => seq![],
        }) + prop_lines(e.properties@),
        "\n"@,
    )
}

/// The position of the part keyed `id` (the first one).
pub open spec fn find_id(es: Seq<(EntityId, Entity)>, id: Seq<char>) -> Option<int>
    decreases es.len(),
{
    if es.len() == 0 {
        None
    } else {
        match find_id(es.drop_last(), id) {
            Some(i) => Some(i),
            None => if es.last().0@ == id {
                Some(es.len() - 1)
            } else {
                None
            },
        }
    }
}

/// The rows of parts present on both sides, in key order.
pub open spec fn matched_rows(
    project: Seq<char>,
    scope: Kind,
    a: Seq<(EntityId, Entity)>,
    b: Seq<(EntityId, Entity)>,
) -> Seq<ChangeView>
    decreases a.len(),
{
    if a.len() == 0 {
        seq![]
    } else {
        let rest = matched_rows(project, scope, a.drop_last(), b);
        match find_id(b, a.last().0@) {
            Some(j) => rest + compare_rows(project, scope, a.last().1, b[j].1),
            None => rest,
        }
    }
}

/// The parts of `a` whose key `b` lacks, in order.
pub open spec fn only_in(a: Seq<(EntityId, Entity)>, b: Seq<(EntityId, Entity)>) -> Seq<Entity>
    decreases a.len(),
{
    if a.len() == 0 {
        seq![]
    } else {
        let rest = only_in(a.drop_last(), b);
        if find_id(b, a.last().0@) is None {
            rest.push(a.last().1)
        } else {
            rest
        }
    }
}

/// How many parts of `es` carry reference `r`.
pub open spec fn ref_count(es: Seq<Entity>, r: Seq<char>) -> nat
    decreases es.len(),
{
    if es.len() == 0 {
        0
    } else {
        ref_count(es.drop_last(), r) + (if es.last().reference@ == r {
            1nat
        } else {
            0nat
        })
    }
}

/// The first part of `es` with reference `r`.
pub open spec fn first_ref(es: Seq<Entity>, r: Seq<char>) -> Option<int>
    decreases es.len(),
{
    if es.len() == 0 {
        None
    } else {
        match first_ref(es.drop_last(), r) {
            Some(i) => Some(i),
            None => if es.last().reference@ == r {
                Some(es.len() - 1)
            } else {
                None
            },
        }
    }
}

/// An added part re-places a removed one: re-placing a part gives it a
/// fresh key though it is the same part to the user, so the only removed
/// part of a reference pairs with the first added part of that reference.
pub open spec fn replaces(removed: Seq<Entity>, added: Seq<Entity>, k: int) -> bool {
    ref_count(removed, added[k].reference@) == 1 && first_ref(added, added[k].reference@) == Some(k)
}

/// The rows of the added parts: re-placements report their real
/// differences; the rest are additions describing what arrived.
pub open spec fn added_rows(
    project: Seq<char>,
    scope: Kind,
    removed: Seq<Entity>,
    added: Seq<Entity>,
    k: int,
) -> Seq<ChangeView>
    decreases k,
{
    if k <= 0 {
        seq![]
    } else {
        let rest = added_rows(project, scope, removed, added, k - 1);
        let e = added[k - 1];
        if replaces(removed, added, k - 1) {
            rest + compare_rows(project, scope, removed[first_ref(removed, e.reference@).unwrap()], e)
        } else {
            rest.push(fact_row(project, scope, ChangeKind::Added, None, Some(e), e.reference@, describe(e)))
        }
    }
}

/// The references of the removed parts, in order.
pub open spec fn removed_refs(removed: Seq<Entity>) -> Seq<Seq<char>> {
    sorted_seq_of(
        Set::new(|r: Seq<char>| exists|i: int| #![trigger removed[i]] 0 <= i < removed.len() && removed[i].reference@ == r),
        text_order(),
    )
}

/// The removal rows of reference `r`'s removed parts, in order.
pub open spec fn removals_of(project: Seq<char>, scope: Kind, removed: Seq<Entity>, r: Seq<char>) -> Seq<ChangeView>
    decreases removed.len(),
{
    if removed.len() == 0 {
        seq![]
    } else {
        let rest = removals_of(project, scope, removed.drop_last(), r);
        let e = removed.last();
        if e.reference@ == r {
            rest.push(fact_row(project, scope, ChangeKind::Removed, Some(e), None, e.reference@, seq![]))
        } else {
            rest
        }
    }
}

/// The removal rows by reference, leaving out the parts that were re-placed.
pub open spec fn removed_rows(
    project: Seq<char>,
    scope: Kind,
    removed: Seq<Entity>,
    added: Seq<Entity>,
    refs: Seq<Seq<char>>,
) -> Seq<ChangeView>
    decreases refs.len(),
{
    if refs.len() == 0 {
        seq![]
    } else {
        let rest = removed_rows(project, scope, removed, added, refs.drop_last());
        let r = refs.last();
        if ref_count(removed, r) == 1 && first_ref(added, r) is Some {
            rest
        } else {
            rest + removals_of(project, scope, removed, r)
        }
    }
}

/// Every row the part diff produces, before ordering and deduplication.
pub open spec fn entity_rows(
    project: Seq<char>,
    scope: Kind,
    a: Seq<(EntityId, Entity)>,
    b: Seq<(EntityId, Entity)>,
) -> Seq<ChangeView> {
    let removed = only_in(a, b);
    let added = only_in(b, a);
    matched_rows(project, scope, a, b) + added_rows(project, scope, removed, added, added.len() as int)
        + removed_rows(project, scope, removed, added, removed_refs(removed))
}

/// What identifies a row for ordering and deduplication.
pub open spec fn row_key(c: ChangeView) -> (Option<Seq<char>>, Seq<char>, Seq<char>, Seq<char>) {
    (c.sheet, c.reference, change_kind_name(c.kind), c.detail)
}

/// Absent sorts before present; present texts by `seq_lt`.
pub open spec fn opt_lt(a: Option<Seq<char>>, b: Option<Seq<char>>) -> bool {
    match (a, b) {
        (None, Some(_)) => true,
        (Some(x), Some(y)) => seq_lt(x, y),
        _ => false,
    }
}

/// Rows order by sheet, reference, kind name, then detail.
pub open spec fn row_lt(a: ChangeView, b: ChangeView) -> bool {
    let (ka, kb) = (row_key(a), row_key(b));
    opt_lt(ka.0, kb.0) || (ka.0 == kb.0 && (seq_lt(ka.1, kb.1) || (ka.1 == kb.1 && (seq_lt(ka.2, kb.2) || (
    ka.2 == kb.2 && seq_lt(ka.3, kb.3))))))
}

/// `row_lt` as a value.
pub open spec fn row_order() -> spec_fn(ChangeView, ChangeView) -> bool {
    |a: ChangeView, b: ChangeView| row_lt(a, b)
}

/// Row `i` of `rows` is the first with its key.
pub open spec fn first_of_key(rows: Seq<ChangeView>, i: int) -> bool {
    forall|j: int| #![trigger rows[j]] 0 <= j < i ==> row_key(rows[j]) != row_key(rows[i])
}

/// The first row of each key.
pub open spec fn first_rows(rows: Seq<ChangeView>) -> Set<ChangeView> {
    Set::new(|c: ChangeView| exists|i: int| #![trigger rows[i]] 0 <= i < rows.len() && rows[i] == c && first_of_key(rows, i))
}

/// The rows, ordered, each key said once (by its first row).
pub open spec fn sort_dedup(rows: Seq<ChangeView>) -> Seq<ChangeView> {
    sorted_seq_of(first_rows(rows), row_order())
}

/// The part diff between two revisions' part maps (each in key order).
pub open spec fn entity_changes(
    project: Seq<char>,
    scope: Kind,
    a: Seq<(EntityId, Entity)>,
    b: Seq<(EntityId, Entity)>,
) -> Seq<ChangeView> {
    sort_dedup(entity_rows(project, scope, a, b))
}

} // verus!

verus! {

/// Whether two optional texts are equal.
fn opt_eq(a: &Option<String>, b: &Option<String>) -> (r: bool)
    ensures
        r == (opt_text(*a) == opt_text(*b)),
{
    match (a, b) {
        (Some(x), Some(y)) => str_eq(x.as_str(), y.as_str()),
        (None, None) => true,
        _ => false,
    }
}

/// Appends an optional text as shown in a detail.
fn push_or_dash(out: &mut Vec<char>, o: &Option<String>)
    ensures
        final(out)@ == old(out)@ + or_dash(opt_text(*o)),
{
    match o {
        Some(s) => push_str(out, s.as_str()),
        None => push_str(out, "-"),
    }
}

/// The change row a fact produces.
fn fact_row_exec(
    project: &ProjectLabel,
    scope: Kind,
    kind: ChangeKind,
    x: Option<&Entity>,
    y: Option<&Entity>,
    reference: &Reference,
    detail: &Vec<char>,
) -> (c: Change)
    ensures
        c@ == fact_row(
            project@,
            scope,
            kind,
            match x {
                Some(e) => Some(*e),
                None => None,
            },
            match y {
                Some(e) => Some(*e),
                None => None,
            },
            reference@,
            detail@,
        ),
{
    let src = match y {
        Some(e) => Some(e),
        None => x,
    };
    let sheet = match src {
        Some(e) => clone_page(&e.sheet),
        None => None,
    };
    let layer = match src {
        Some(e) => clone_page(&e.layer),
        None => None,
    };
    Change {
        project: project.clone(),
        scope,
        sheet,
        kind,
        reference: reference.clone(),
        detail: string_of(detail.as_slice()),
        layer,
        at_base: match x {
            Some(e) => e.at,
            None => None,
        },
        at_head: match y {
            Some(e) => e.at,
            None => None,
        },
        frac_base: None,
        frac_head: None,
    }
}

/// The value of property `key`.
fn prop_get_exec<'a>(props: &'a Vec<(String, String)>, key: &String) -> (r: Option<&'a String>)
    ensures
        match r {
            Some(v) => prop_get(props@, key@) == Some(v@),
            None => prop_get(props@, key@) is None,
        },
{
    let mut i: usize = 0;
    assert(props@.skip(0) == props@);
    while i < props.len()
        invariant
            i <= props.len(),
            prop_get(props@, key@) == prop_get(props@.skip(i as int), key@),
        decreases props.len() - i,
    {
        proof {
            assert(props@.skip(i as int).drop_first() == props@.skip(i + 1));
            assert(props@.skip(i as int)[0] == props@[i as int]);
        }
        if str_eq(props[i].0.as_str(), key.as_str()) {
            return Some(&props[i].1);
        }
        i = i + 1;
    }
    None
}

/// `text_order` is a strict order.
pub proof fn lemma_text_order()
    ensures
        strict_order(text_order()),
{
    assert forall|a: Seq<char>| !#[trigger] text_order()(a, a) by {
        lemma_seq_lt_irreflexive(a);
    }
    assert forall|a: Seq<char>, b: Seq<char>, c: Seq<char>|
        #[trigger] text_order()(a, b) && #[trigger] text_order()(b, c) implies text_order()(a, c) by {
        lemma_seq_lt_transitive(a, b, c);
    }
}

/// Adds `s` to a sorted, duplicate-free list of texts.
pub fn insert_text(v: &mut Vec<String>, s: &String)
    requires
        strictly_sorted(strings_view(old(v)@), text_order()),
    ensures
        strictly_sorted(strings_view(final(v)@), text_order()),
        strings_view(final(v)@).to_set() == strings_view(old(v)@).to_set().insert(s@),
{
    let ghost ov = strings_view(v@);
    let ghost ord = text_order();
    let mut i: usize = 0;
    while i < v.len() && str_lt(v[i].as_str(), s.as_str())
        invariant
            i <= v.len(),
            v@ == old(v)@,
            ov == strings_view(v@),
            ord == text_order(),
            forall|j: int| 0 <= j < i ==> ord(ov[j], s@),
        decreases v.len() - i,
    {
        assert(ov[i as int] == v@[i as int]@);
        i = i + 1;
    }
    if i < v.len() && str_eq(v[i].as_str(), s.as_str()) {
        assert(ov[i as int] == s@);
        assert(ov.to_set().insert(s@) =~= ov.to_set());
        return;
    }
    proof {
        lemma_text_order();
        if i < v.len() {
            assert(ov[i as int] == v@[i as int]@);
            crate::text::lemma_seq_lt_total(ov[i as int], s@);
            assert(ord(s@, ov[i as int]));
        }
    }
    v.insert(i, s.clone());
    proof {
        let nu = strings_view(v@);
        assert(nu =~= ov.insert(i as int, s@));
        assert forall|a: int, b: int| 0 <= a < b < nu.len() implies ord(nu[a], nu[b]) by {
            if b < i {
                assert(nu[a] == ov[a] && nu[b] == ov[b]);
            } else if a < i && b == i {
                assert(nu[a] == ov[a] && nu[b] == s@);
            } else if a < i {
                assert(nu[a] == ov[a] && nu[b] == ov[b - 1]);
                assert(ord(ov[a], s@));
                assert(ord(s@, ov[i as int]));
                assert(ord(ov[a], ov[i as int]));
                if b - 1 > i {
                    assert(ord(ov[i as int], ov[b - 1]));
                }
            } else if a == i {
                assert(nu[a] == s@ && nu[b] == ov[b - 1]);
                if b - 1 > i {
                    assert(ord(ov[i as int], ov[b - 1]));
                }
            } else {
                assert(nu[a] == ov[a - 1] && nu[b] == ov[b - 1]);
            }
        }
        assert forall|x: Seq<char>| nu.to_set().contains(x) <==> ov.to_set().insert(s@).contains(x) by {
            if nu.to_set().contains(x) {
                let q = choose|q: int| 0 <= q < nu.len() && nu[q] == x;
                if q < i {
                    assert(ov[q] == x);
                } else if q > i {
                    assert(ov[q - 1] == x);
                }
            }
            if ov.to_set().contains(x) {
                let q = choose|q: int| 0 <= q < ov.len() && ov[q] == x;
                if q < i {
                    assert(nu[q] == x);
                } else {
                    assert(nu[q + 1] == x);
                }
            }
            if x == s@ {
                assert(nu[i as int] == x);
            }
        }
        assert(nu.to_set() =~= ov.to_set().insert(s@));
    }
}

/// The characters of every text in a list.
pub open spec fn strings_view(v: Seq<String>) -> Seq<Seq<char>> {
    v.map_values(|s: String| s@)
}

/// The property names of both parts, in order.
fn prop_keys_exec(x: &Entity, y: &Entity) -> (keys: Vec<String>)
    ensures
        strings_view(keys@) == prop_keys(*x, *y),
{
    let mut keys: Vec<String> = Vec::new();
    let mut i: usize = 0;
    while i < x.properties.len()
        invariant
            i <= x.properties.len(),
            strictly_sorted(strings_view(keys@), text_order()),
            strings_view(keys@).to_set() == Set::new(
                |k: Seq<char>|
                    exists|j: int| #![trigger x.properties@[j]] 0 <= j < i && x.properties@[j].0@ == k,
            ),
        decreases x.properties.len() - i,
    {
        insert_text(&mut keys, &x.properties[i].0);
        proof {
            assert(x.properties@[i as int].0@ == x.properties[i as int].0@);
            assert(strings_view(keys@).to_set() =~= Set::new(
                |k: Seq<char>|
                    exists|j: int| #![trigger x.properties@[j]] 0 <= j < i + 1 && x.properties@[j].0@ == k,
            ));
        }
        i = i + 1;
    }
    let mut i: usize = 0;
    while i < y.properties.len()
        invariant
            i <= y.properties.len(),
            strictly_sorted(strings_view(keys@), text_order()),
            strings_view(keys@).to_set() == prop_names(x.properties@).union(
                Set::new(
                    |k: Seq<char>|
                        exists|j: int| #![trigger y.properties@[j]] 0 <= j < i && y.properties@[j].0@ == k,
                ),
            ),
        decreases y.properties.len() - i,
    {
        insert_text(&mut keys, &y.properties[i].0);
        proof {
            assert(y.properties@[i as int].0@ == y.properties[i as int].0@);
            assert(strings_view(keys@).to_set() =~= prop_names(x.properties@).union(
                Set::new(
                    |k: Seq<char>|
                        exists|j: int| #![trigger y.properties@[j]] 0 <= j < i + 1 && y.properties@[j].0@ == k,
                ),
            ));
        }
        i = i + 1;
    }
    proof {
        assert(strings_view(keys@).to_set() =~= prop_names(x.properties@).union(prop_names(y.properties@)));
        lemma_text_order();
        crate::order::lemma_is_sorted_seq_of(
            strings_view(keys@),
            prop_names(x.properties@).union(prop_names(y.properties@)),
            text_order(),
        );
    }
    keys
}

} // verus!

verus! {

/// Appends the property rows of two revisions of a part.
fn property_rows_exec(out: &mut Vec<Change>, project: &ProjectLabel, scope: Kind, x: &Entity, y: &Entity)
    ensures
        changes_view(final(out)@) == changes_view(old(out)@) + property_rows(
            project@,
            scope,
            *x,
            *y,
            prop_keys(*x, *y),
        ),
{
    let keys = prop_keys_exec(x, y);
    let ghost kv = strings_view(keys@);
    let ghost start = changes_view(out@);
    let mut k: usize = 0;
    while k < keys.len()
        invariant
            k <= keys.len(),
            kv == strings_view(keys@),
            kv == prop_keys(*x, *y),
            changes_view(out@) == start + property_rows(project@, scope, *x, *y, kv.take(k as int)),
        decreases keys.len() - k,
    {
        proof {
            assert(kv.take(k + 1).drop_last() == kv.take(k as int));
            assert(kv.take(k + 1).last() == keys@[k as int]@);
        }
        let key = &keys[k];
        let from = prop_get_exec(&x.properties, key);
        let to = prop_get_exec(&y.properties, key);
        let same = match (from, to) {
            (Some(a), Some(b)) => str_eq(a.as_str(), b.as_str()),
            (None, None) => true,
            _ => false,
        };
        if !(same || (to.is_none() && !opt_eq(&x.lib_id, &y.lib_id))) {
            let mut detail = chars_of(key.as_str());
            push_str(&mut detail, ": ");
            match from {
                Some(v) => push_str(&mut detail, v.as_str()),
                None => push_str(&mut detail, "-"),
            }
            push_str(&mut detail, " -> ");
            match to {
                Some(v) => push_str(&mut detail, v.as_str()),
                None => push_str(&mut detail, "-"),
            }
            let row = fact_row_exec(
                project,
                scope,
                ChangeKind::PropertyChanged,
                Some(x),
                Some(y),
                &y.reference,
                &detail,
            );
            let ghost before = changes_view(out@);
            out.push(row);
            proof {
                assert(changes_view(out@) =~= before.push(row@));
            }
        }
        k = k + 1;
    }
    proof {
        assert(kv.take(keys.len() as int) == kv);
    }
}

/// Integer square roots are unique.
pub(crate) proof fn lemma_isqrt_unique(r1: int, r2: int, n: int)
    requires
        is_isqrt(r1, n),
        is_isqrt(r2, n),
    ensures
        r1 == r2,
{
    if r1 < r2 {
        assert((r1 + 1) * (r1 + 1) <= r2 * r2) by (nonlinear_arith)
            requires
                0 <= r1,
                r1 + 1 <= r2,
        ;
    }
    if r2 < r1 {
        assert((r2 + 1) * (r2 + 1) <= r1 * r1) by (nonlinear_arith)
            requires
                0 <= r2,
                r2 + 1 <= r1,
        ;
    }
}

/// The integer square root of `n`.
pub(crate) fn isqrt(n: u128) -> (r: u128)
    requires
        n < 0x4_0000_0000_0000_0000,
    ensures
        is_isqrt(r as int, n as int),
        r <= 0x2_0000_0000,
{
    let mut lo: u128 = 0;
    let mut hi: u128 = 0x2_0000_0000;
    assert(hi * hi == 0x4_0000_0000_0000_0000);
    while hi - lo > 1
        invariant
            lo < hi <= 0x2_0000_0000,
            lo * lo <= n,
            n < hi * hi,
        decreases hi - lo,
    {
        let mid = lo + (hi - lo) / 2;
        assert(mid * mid <= 0x4_0000_0000_0000_0000) by (nonlinear_arith)
            requires
                mid <= 0x2_0000_0000,
        ;
        if mid * mid <= n {
            lo = mid;
        } else {
            hi = mid;
        }
    }
    assert(hi == lo + 1);
    lo
}

/// Two decimal digits of a value below one hundred.
fn two_digits_exec(v: u64) -> (r: Vec<char>)
    requires
        v < 100,
    ensures
        r@ == two_digits(v as nat),
{
    let mut r = Vec::new();
    r.push(crate::text::digit(v / 10));
    r.push(crate::text::digit(v % 10));
    proof {
        assert(r@ =~= two_digits(v as nat));
    }
    r
}

/// A length in hundredths of a millimetre, with two decimals.
fn mm2_exec(h: u64) -> (r: Vec<char>)
    ensures
        r@ == mm2(h as nat),
{
    let mut r = crate::text::decimal_chars(h / 100);
    push_str(&mut r, ".");
    push_chars(&mut r, &two_digits_exec(h % 100));
    r
}

/// The `n` decimal digits of `f`, zero-padded on the left.
fn padded_exec(f: u64, n: u64) -> (r: Vec<char>)
    requires
        n <= 9,
    ensures
        r@ == padded(f as nat, n as nat),
    decreases n,
{
    if n == 0 {
        Vec::new()
    } else {
        let mut r = padded_exec(f / 10, n - 1);
        r.push(crate::text::digit(f % 10));
        r
    }
}

/// Digits without their trailing zeros.
fn strip_zeros_exec(v: Vec<char>) -> (r: Vec<char>)
    ensures
        r@ == strip_zeros(v@),
{
    let mut v = v;
    let ghost orig = v@;
    while v.len() > 0 && v[v.len() - 1] == '0'
        invariant
            strip_zeros(v@) == strip_zeros(orig),
        decreases v.len(),
    {
        let ghost before = v@;
        v.pop();
        assert(v@ =~= before.drop_last());
    }
    v
}

/// An angle in billionths of a degree, as the shortest decimal.
fn degrees_exec(r: i64) -> (s: Vec<char>)
    ensures
        s@ == degrees(r as int),
{
    let a: u128 = if r < 0 {
        (0 - r as i128) as u128
    } else {
        r as u128
    };
    let mut s: Vec<char> = Vec::new();
    if r < 0 {
        push_str(&mut s, "-");
    }
    push_chars(&mut s, &crate::text::decimal_chars((a / 1_000_000_000) as u64));
    let f: u64 = (a % 1_000_000_000) as u64;
    if f != 0 {
        push_str(&mut s, ".");
        push_chars(&mut s, &strip_zeros_exec(padded_exec(f, 9)));
    }
    proof {
        reveal_strlit(".");
        reveal_strlit("-");
        let sign = if r < 0 {
            "-"@
        } else {
            seq![]
        };
        assert(s@ =~= sign + decimal((a / 1_000_000_000) as nat) + billionths(f as nat));
    }
    s
}

} // verus!

verus! {

/// The motion pieces of a footprint between revisions.
fn motion_exec(x: &Entity, y: &Entity) -> (m: Vec<Vec<char>>)
    ensures
        m@.map_values(|p: Vec<char>| p@) == motion(*x, *y),
{
    let mut m: Vec<Vec<char>> = Vec::new();
    match (x.at, y.at) {
        (Some(pa), Some(pb)) => {
            let dx: i128 = pa.x as i128 - pb.x as i128;
            let dy: i128 = pa.y as i128 - pb.y as i128;
            assert(dx * dx <= 0x1_0000_0000_0000_0000) by (nonlinear_arith)
                requires
                    -0x1_0000_0000 <= dx <= 0x1_0000_0000,
            ;
            assert(dy * dy <= 0x1_0000_0000_0000_0000) by (nonlinear_arith)
                requires
                    -0x1_0000_0000 <= dy <= 0x1_0000_0000,
            ;
            assert(dx * dx >= 0 && dy * dy >= 0) by (nonlinear_arith);
            let d2: i128 = dx * dx + dy * dy;
            proof {
                assert(d2 == dist2(pa, pb));
            }
            let ghost first: Seq<Seq<char>> = if d2 > move_epsilon2() {
                seq!["moved "@ + mm2(hundredths(d2 as int) as nat) + " mm"@]
            } else {
                seq![]
            };
            let ghost second: Seq<Seq<char>> = if x.rotation != y.rotation {
                seq!["rotated to "@ + degrees(y.rotation as int) + "\u{b0}"@]
            } else {
                seq![]
            };
            if d2 > 100_000_000 {
                let r = isqrt(d2 as u128);
                proof {
                    let q = choose|q: int| is_isqrt(q, d2 as int);
                    assert(is_isqrt(q, d2 as int));
                    lemma_isqrt_unique(r as int, q, d2 as int);
                }
                let h: u64 = ((r + 5000) / 10000) as u64;
                assert(h as nat == hundredths(d2 as int) as nat);
                let mut piece = chars_of("moved ");
                push_chars(&mut piece, &mm2_exec(h));
                push_str(&mut piece, " mm");
                m.push(piece);
            }
            proof {
                assert(m@.map_values(|p: Vec<char>| p@) =~= first);
            }
            if x.rotation != y.rotation {
                let mut piece = chars_of("rotated to ");
                push_chars(&mut piece, &degrees_exec(y.rotation));
                push_str(&mut piece, "\u{b0}");
                let ghost before = m@.map_values(|p: Vec<char>| p@);
                m.push(piece);
                proof {
                    assert(m@.map_values(|p: Vec<char>| p@) =~= before.push(piece@));
                }
            }
            proof {
                assert(m@.map_values(|p: Vec<char>| p@) =~= first + second);
                assert(motion(*x, *y) == first + second);
            }
        },
        _ => {
            proof {
                assert(m@.map_values(|p: Vec<char>| p@) =~= motion(*x, *y));
            }
        },
    }
    m
}

} // verus!

verus! {

/// The pieces of a direction followed by the motion pieces.
fn lead_with(first: Vec<char>, m: &Vec<Vec<char>>) -> (r: Vec<Vec<char>>)
    ensures
        r@.map_values(|p: Vec<char>| p@) == seq![first@] + m@.map_values(|p: Vec<char>| p@),
{
    let mut r: Vec<Vec<char>> = Vec::new();
    let ghost f = first@;
    r.push(first);
    let mut i: usize = 0;
    while i < m.len()
        invariant
            i <= m.len(),
            r@.map_values(|p: Vec<char>| p@) == seq![f] + m@.map_values(|p: Vec<char>| p@).take(i as int),
        decreases m.len() - i,
    {
        let ghost before = r@.map_values(|p: Vec<char>| p@);
        let c = crate::text::copy_chars(&m[i]);
        r.push(c);
        proof {
            assert(r@.map_values(|p: Vec<char>| p@) =~= before.push(c@));
            assert(m@.map_values(|p: Vec<char>| p@).take(i + 1) =~= m@.map_values(|p: Vec<char>| p@).take(
                i as int,
            ).push(m@[i as int]@));
            assert(r@.map_values(|p: Vec<char>| p@) =~= seq![f] + m@.map_values(|p: Vec<char>| p@).take(
                i + 1,
            ));
        }
        i = i + 1;
    }
    proof {
        assert(m@.map_values(|p: Vec<char>| p@).take(m.len() as int) == m@.map_values(|p: Vec<char>| p@));
    }
    r
}

/// Appends the board rows of two revisions of a part.
fn board_rows_exec(out: &mut Vec<Change>, project: &ProjectLabel, scope: Kind, x: &Entity, y: &Entity)
    ensures
        changes_view(final(out)@) == changes_view(old(out)@) + board_rows(project@, scope, *x, *y),
{
    let m = motion_exec(x, y);
    let ghost mv = m@.map_values(|p: Vec<char>| p@);
    let ghost start = changes_view(out@);
    match (&x.layer, &y.layer) {
        (Some(from), Some(to)) => {
            if !str_eq(from.as_str(), to.as_str()) {
                let mut d1 = chars_of("Flipped to ");
                push_str(&mut d1, to.as_str());
                let p1 = lead_with(d1, &m);
                let detail1 = crate::text::join_exec(&p1, ", ");
                let r1 = fact_row_exec(project, scope, ChangeKind::Flipped, Some(x), None, &y.reference, &detail1);
                out.push(r1);
                let mut d2 = chars_of("Flipped from ");
                push_str(&mut d2, from.as_str());
                let p2 = lead_with(d2, &m);
                let detail2 = crate::text::join_exec(&p2, ", ");
                let r2 = fact_row_exec(project, scope, ChangeKind::Flipped, None, Some(y), &y.reference, &detail2);
                out.push(r2);
                proof {
                    assert(changes_view(out@) =~= start.push(r1@).push(r2@));
                    assert(start.push(r1@).push(r2@) =~= start + board_rows(project@, scope, *x, *y));
                }
                return;
            }
        },
        _ => {},
    }
    if m.len() > 0 {
        let mut detail = crate::text::join_exec(&m, ", ");
        crate::text::capitalize_exec(&mut detail);
        let r = fact_row_exec(project, scope, ChangeKind::Moved, Some(x), Some(y), &y.reference, &detail);
        out.push(r);
        proof {
            assert(changes_view(out@) =~= start.push(r@));
        }
    } else {
        proof {
            assert(start + board_rows(project@, scope, *x, *y) =~= start);
        }
    }
}

/// Appends the rows for two revisions of the same part.
fn compare_into(out: &mut Vec<Change>, project: &ProjectLabel, scope: Kind, x: &Entity, y: &Entity)
    ensures
        changes_view(final(out)@) == changes_view(old(out)@) + compare_rows(project@, scope, *x, *y),
{
    let ghost start = changes_view(out@);
    let ghost p = project@;
    if !str_eq(x.reference.as_str(), y.reference.as_str()) {
        let mut d = chars_of("Renamed: ");
        push_str(&mut d, x.reference.as_str());
        push_str(&mut d, " -> ");
        push_str(&mut d, y.reference.as_str());
        out.push(fact_row_exec(project, scope, ChangeKind::Renamed, Some(x), Some(y), &y.reference, &d));
    }
    let ghost s1 = changes_view(out@);
    proof {
        assert(s1 =~= start + (if x.reference@ != y.reference@ {
            seq![fact_row(p, scope, ChangeKind::Renamed, Some(*x), Some(*y), y.reference@,
                "Renamed: "@ + x.reference@ + " -> "@ + y.reference@)]
        } else {
            seq![]
        }));
    }
    if scope == Kind::Sch && !opt_eq(&x.value, &y.value) {
        let mut d = chars_of("Value: ");
        push_or_dash(&mut d, &x.value);
        push_str(&mut d, " -> ");
        push_or_dash(&mut d, &y.value);
        out.push(fact_row_exec(project, scope, ChangeKind::ValueChanged, Some(x), Some(y), &y.reference, &d));
    }
    let ghost s2 = changes_view(out@);
    proof {
        assert(s2 =~= s1 + (if scope == Kind::Sch && opt_text(x.value) != opt_text(y.value) {
            seq![fact_row(p, scope, ChangeKind::ValueChanged, Some(*x), Some(*y), y.reference@,
                "Value: "@ + or_dash(opt_text(x.value)) + " -> "@ + or_dash(opt_text(y.value)))]
        } else {
            seq![]
        }));
    }
    if !opt_eq(&x.lib_id, &y.lib_id) {
        let mut d = chars_of("Library: ");
        push_or_dash(&mut d, &x.lib_id);
        push_str(&mut d, " -> ");
        push_or_dash(&mut d, &y.lib_id);
        out.push(fact_row_exec(project, scope, ChangeKind::FootprintChanged, Some(x), Some(y), &y.reference, &d));
    }
    let ghost s3 = changes_view(out@);
    proof {
        assert(s3 =~= s2 + (if opt_text(x.lib_id) != opt_text(y.lib_id) {
            seq![fact_row(p, scope, ChangeKind::FootprintChanged, Some(*x), Some(*y), y.reference@,
                "Library: "@ + or_dash(opt_text(x.lib_id)) + " -> "@ + or_dash(opt_text(y.lib_id)))]
        } else {
            seq![]
        }));
    }
    if scope == Kind::Sch {
        property_rows_exec(out, project, scope, x, y);
    }
    let ghost s4 = changes_view(out@);
    proof {
        assert(s4 =~= s3 + (if scope == Kind::Sch {
            property_rows(p, scope, *x, *y, prop_keys(*x, *y))
        } else {
            seq![]
        }));
    }
    if scope == Kind::Pcb {
        board_rows_exec(out, project, scope, x, y);
    }
    proof {
        assert(changes_view(out@) =~= s4 + (if scope == Kind::Pcb {
            board_rows(p, scope, *x, *y)
        } else {
            seq![]
        }));
        assert(changes_view(out@) =~= start + compare_rows(p, scope, *x, *y));
    }
}

} // verus!

verus! {

/// `opt_lt` is irreflexive, transitive, and total on distinct values.
pub proof fn lemma_opt_lt(a: Option<Seq<char>>, b: Option<Seq<char>>, c: Option<Seq<char>>)
    ensures
        !opt_lt(a, a),
        opt_lt(a, b) && opt_lt(b, c) ==> opt_lt(a, c),
        a != b ==> opt_lt(a, b) || opt_lt(b, a),
{
    match (a, b, c) {
        (Some(x), Some(y), Some(z)) => {
            lemma_seq_lt_irreflexive(x);
            if seq_lt(x, y) && seq_lt(y, z) {
                lemma_seq_lt_transitive(x, y, z);
            }
            crate::text::lemma_seq_lt_total(x, y);
        },
        (Some(x), Some(y), None) => {
            lemma_seq_lt_irreflexive(x);
            crate::text::lemma_seq_lt_total(x, y);
        },
        (Some(x), None, _) => {
            lemma_seq_lt_irreflexive(x);
        },
        _ => {},
    }
}

/// Rows ordered by `row_lt` never share a key, and keys order totally.
pub proof fn lemma_row_lt(a: ChangeView, b: ChangeView, c: ChangeView)
    ensures
        !row_lt(a, a),
        row_lt(a, b) && row_lt(b, c) ==> row_lt(a, c),
        row_key(a) != row_key(b) ==> row_lt(a, b) || row_lt(b, a),
        row_lt(a, b) ==> row_key(a) != row_key(b),
{
    let (ka, kb, kc) = (row_key(a), row_key(b), row_key(c));
    lemma_opt_lt(ka.0, kb.0, kc.0);
    lemma_opt_lt(ka.0, ka.0, ka.0);
    lemma_opt_lt(kb.0, ka.0, kc.0);
    lemma_seq_lt_irreflexive(ka.1);
    lemma_seq_lt_irreflexive(ka.2);
    lemma_seq_lt_irreflexive(ka.3);
    crate::text::lemma_seq_lt_total(ka.1, kb.1);
    crate::text::lemma_seq_lt_total(ka.2, kb.2);
    crate::text::lemma_seq_lt_total(ka.3, kb.3);
    if seq_lt(ka.1, kb.1) && seq_lt(kb.1, kc.1) {
        lemma_seq_lt_transitive(ka.1, kb.1, kc.1);
    }
    if seq_lt(ka.2, kb.2) && seq_lt(kb.2, kc.2) {
        lemma_seq_lt_transitive(ka.2, kb.2, kc.2);
    }
    if seq_lt(ka.3, kb.3) && seq_lt(kb.3, kc.3) {
        lemma_seq_lt_transitive(ka.3, kb.3, kc.3);
    }
}

/// `row_order` is a strict order.
pub proof fn lemma_row_order()
    ensures
        strict_order(row_order()),
{
    assert forall|a: ChangeView| !#[trigger] row_order()(a, a) by {
        lemma_row_lt(a, a, a);
    }
    assert forall|a: ChangeView, b: ChangeView, c: ChangeView|
        #[trigger] row_order()(a, b) && #[trigger] row_order()(b, c) implies row_order()(a, c) by {
        lemma_row_lt(a, b, c);
    }
}

/// Whether one optional page name sorts before another.
pub(crate) fn opt_page_lt(a: &Option<PageName>, b: &Option<PageName>) -> (r: bool)
    ensures
        r == opt_lt(page_view(*a), page_view(*b)),
{
    match (a, b) {
        (None, Some(_)) => true,
        (Some(x), Some(y)) => str_lt(x.as_str(), y.as_str()),
        _ => false,
    }
}

/// Whether two optional page names are equal.
pub(crate) fn opt_page_eq(a: &Option<PageName>, b: &Option<PageName>) -> (r: bool)
    ensures
        r == (page_view(*a) == page_view(*b)),
{
    match (a, b) {
        (None, None) => true,
        (Some(x), Some(y)) => str_eq(x.as_str(), y.as_str()),
        _ => false,
    }
}

/// Whether row `a` sorts before row `b`.
fn row_lt_exec(a: &Change, b: &Change) -> (r: bool)
    ensures
        r == row_lt(a@, b@),
{
    if opt_page_lt(&a.sheet, &b.sheet) {
        return true;
    }
    if !opt_page_eq(&a.sheet, &b.sheet) {
        return false;
    }
    if str_lt(a.reference.as_str(), b.reference.as_str()) {
        return true;
    }
    if !str_eq(a.reference.as_str(), b.reference.as_str()) {
        return false;
    }
    if str_lt(a.kind.as_str(), b.kind.as_str()) {
        return true;
    }
    if !str_eq(a.kind.as_str(), b.kind.as_str()) {
        return false;
    }
    str_lt(a.detail.as_str(), b.detail.as_str())
}

/// Whether two rows share a key.
fn row_key_eq(a: &Change, b: &Change) -> (r: bool)
    ensures
        r == (row_key(a@) == row_key(b@)),
{
    opt_page_eq(&a.sheet, &b.sheet) && str_eq(a.reference.as_str(), b.reference.as_str()) && str_eq(
        a.kind.as_str(),
        b.kind.as_str(),
    ) && str_eq(a.detail.as_str(), b.detail.as_str())
}

/// Orders the rows by key, keeping the first row of each key.
fn sort_dedup_exec(rows: &Vec<Change>) -> (out: Vec<Change>)
    ensures
        changes_view(out@) == sort_dedup(changes_view(rows@)),
        strictly_sorted(changes_view(out@), row_order()),
{
    let ghost rv = changes_view(rows@);
    let ghost ord = row_order();
    let mut out: Vec<Change> = Vec::new();
    let mut k: usize = 0;
    while k < rows.len()
        invariant
            k <= rows.len(),
            rv == changes_view(rows@),
            ord == row_order(),
            strictly_sorted(changes_view(out@), ord),
            changes_view(out@).to_set() == Set::new(
                |c: ChangeView| exists|i: int| #![trigger rv[i]] 0 <= i < k && rv[i] == c && first_of_key(rv, i),
            ),
            forall|i: int|
                #![trigger rv[i]]
                0 <= i < k ==> exists|j: int|
                    0 <= j < out.len() && row_key(changes_view(out@)[j]) == row_key(rv[i]),
        decreases rows.len() - k,
    {
        let ghost ov = changes_view(out@);
        let ghost cv = rv[k as int];
        proof {
            assert(cv == rows@[k as int]@);
        }
        let mut i: usize = 0;
        while i < out.len() && row_lt_exec(&out[i], &rows[k])
            invariant
                i <= out.len(),
                k < rows.len(),
                ov == changes_view(out@),
                cv == rows@[k as int]@,
                ord == row_order(),
                forall|j: int| 0 <= j < i ==> ord(ov[j], cv),
            decreases out.len() - i,
        {
            assert(ov[i as int] == out@[i as int]@);
            i = i + 1;
        }
        if i < out.len() && row_key_eq(&out[i], &rows[k]) {
            proof {
                assert(ov[i as int] == out@[i as int]@);
                assert(ov.to_set().contains(ov[i as int]));
                let w = choose|w: int| #![trigger rv[w]] 0 <= w < k && rv[w] == ov[i as int] && first_of_key(rv, w);
                assert(!first_of_key(rv, k as int)) by {
                    assert(row_key(rv[w]) == row_key(rv[k as int]));
                }
                assert(changes_view(out@).to_set() =~= Set::new(
                    |c: ChangeView| exists|q: int| #![trigger rv[q]] 0 <= q < k + 1 && rv[q] == c && first_of_key(rv, q),
                ));
                assert forall|q: int|
                    #![trigger rv[q]]
                    0 <= q < k + 1 implies exists|j: int|
                        0 <= j < out.len() && row_key(changes_view(out@)[j]) == row_key(rv[q]) by {
                    if q == k {
                        assert(row_key(changes_view(out@)[i as int]) == row_key(rv[q]));
                    }
                }
            }
        } else {
            proof {
                lemma_row_order();
                assert forall|j: int| 0 <= j < ov.len() implies row_key(ov[j]) != row_key(cv) by {
                    if j < i {
                        lemma_row_lt(ov[j], cv, cv);
                    } else {
                        assert(ov[i as int] == out@[i as int]@);
                        lemma_row_lt(ov[i as int], cv, cv);
                        lemma_row_lt(cv, ov[i as int], ov[j]);
                        if j > i {
                            assert(ord(ov[i as int], ov[j]));
                            lemma_row_lt(cv, ov[j], cv);
                        }
                    }
                }
                assert(first_of_key(rv, k as int)) by {
                    assert forall|q: int| #![trigger rv[q]] 0 <= q < k implies row_key(rv[q]) != row_key(rv[k as int]) by {
                        let j = choose|j: int| 0 <= j < out.len() && row_key(changes_view(out@)[j]) == row_key(rv[q]);
                    }
                }
                if i < out.len() {
                    assert(ov[i as int] == out@[i as int]@);
                    lemma_row_lt(ov[i as int], cv, cv);
                    assert(ord(cv, ov[i as int]));
                }
            }
            let c = crate::semantic::clone_change(&rows[k]);
            out.insert(i, c);
            proof {
                let nu = changes_view(out@);
                assert(nu =~= ov.insert(i as int, cv));
                assert forall|a: int, b: int| 0 <= a < b < nu.len() implies ord(nu[a], nu[b]) by {
                    if b < i {
                        assert(nu[a] == ov[a] && nu[b] == ov[b]);
                    } else if a < i && b == i {
                        assert(nu[a] == ov[a] && nu[b] == cv);
                    } else if a < i {
                        assert(nu[a] == ov[a] && nu[b] == ov[b - 1]);
                        assert(ord(ov[a], cv));
                        assert(ord(cv, ov[i as int]));
                        assert(ord(ov[a], ov[i as int]));
                        if b - 1 > i {
                            assert(ord(ov[i as int], ov[b - 1]));
                        }
                    } else if a == i {
                        assert(nu[a] == cv && nu[b] == ov[b - 1]);
                        if b - 1 > i {
                            assert(ord(ov[i as int], ov[b - 1]));
                        }
                    } else {
                        assert(nu[a] == ov[a - 1] && nu[b] == ov[b - 1]);
                    }
                }
                assert forall|x: ChangeView| nu.to_set().contains(x) <==> ov.to_set().insert(cv).contains(x) by {
                    if nu.to_set().contains(x) {
                        let q = choose|q: int| 0 <= q < nu.len() && nu[q] == x;
                        if q < i {
                            assert(ov[q] == x);
                        } else if q > i {
                            assert(ov[q - 1] == x);
                        }
                    }
                    if ov.to_set().contains(x) {
                        let q = choose|q: int| 0 <= q < ov.len() && ov[q] == x;
                        if q < i {
                            assert(nu[q] == x);
                        } else {
                            assert(nu[q + 1] == x);
                        }
                    }
                    if x == cv {
                        assert(nu[i as int] == x);
                    }
                }
                assert(nu.to_set() =~= Set::new(
                    |c: ChangeView| exists|q: int| #![trigger rv[q]] 0 <= q < k + 1 && rv[q] == c && first_of_key(rv, q),
                ));
                assert forall|q: int|
                    #![trigger rv[q]]
                    0 <= q < k + 1 implies exists|j: int|
                        0 <= j < out.len() && row_key(nu[j]) == row_key(rv[q]) by {
                    if q == k {
                        assert(nu[i as int] == cv);
                    } else {
                        let j = choose|j: int| 0 <= j < ov.len() && row_key(ov[j]) == row_key(rv[q]);
                        if j < i {
                            assert(nu[j] == ov[j]);
                        } else {
                            assert(nu[j + 1] == ov[j]);
                        }
                    }
                }
            }
        }
        k = k + 1;
    }
    proof {
        lemma_row_order();
        assert(changes_view(out@).to_set() =~= Set::new(
            |c: ChangeView| exists|i: int| #![trigger rv[i]] 0 <= i < rv.len() && rv[i] == c && first_of_key(rv, i),
        ));
        crate::order::lemma_is_sorted_seq_of(
            changes_view(out@),
            Set::new(
                |c: ChangeView| exists|i: int| #![trigger rv[i]] 0 <= i < rv.len() && rv[i] == c && first_of_key(rv, i),
            ),
            row_order(),
        );
    }
    out
}

} // verus!

verus! {

/// The lines describing the non-empty properties among the first `n`.
fn prop_lines_exec(props: &Vec<(String, String)>, lines: &mut Vec<Vec<char>>)
    ensures
        final(lines)@.map_values(|p: Vec<char>| p@) == old(lines)@.map_values(|p: Vec<char>| p@)
            + prop_lines(props@),
{
    let ghost start = lines@.map_values(|p: Vec<char>| p@);
    let mut i: usize = 0;
    while i < props.len()
        invariant
            i <= props.len(),
            lines@.map_values(|p: Vec<char>| p@) == start + prop_lines(props@.take(i as int)),
        decreases props.len() - i,
    {
        proof {
            assert(props@.take(i + 1).drop_last() == props@.take(i as int));
            assert(props@.take(i + 1).last() == props@[i as int]);
        }
        let ghost before = lines@.map_values(|p: Vec<char>| p@);
        let v = chars_of(props[i].1.as_str());
        if v.len() > 0 {
            let mut line = chars_of(props[i].0.as_str());
            push_str(&mut line, ": ");
            push_chars(&mut line, &v);
            lines.push(line);
            proof {
                assert(lines@.map_values(|p: Vec<char>| p@) =~= before.push(line@));
            }
        }
        i = i + 1;
    }
    assert(props@.take(props.len() as int) == props@);
}

/// Everything a fresh part brings, one line per fact.
fn describe_exec(e: &Entity) -> (d: Vec<char>)
    ensures
        d@ == describe(*e),
{
    let mut lines: Vec<Vec<char>> = Vec::new();
    let ghost first: Seq<Seq<char>> = match opt_text(e.value) {
        Some(v) => if v.len() > 0 {
            seq!["Value: "@ + v]
        } else {
            seq![]
        },
        None => seq![],
    };
    let ghost second: Seq<Seq<char>> = match opt_text(e.lib_id) {
        Some(l) => if l.len() > 0 {
            seq!["Library: "@ + l]
        } else {
            seq![]
        },
        None => seq![],
    };
    if let Some(v) = &e.value {
        let cs = chars_of(v.as_str());
        if cs.len() > 0 {
            let mut line = chars_of("Value: ");
            push_chars(&mut line, &cs);
            lines.push(line);
        }
    }
    assert(lines@.map_values(|p: Vec<char>| p@) =~= first);
    if let Some(l) = &e.lib_id {
        let cs = chars_of(l.as_str());
        if cs.len() > 0 {
            let mut line = chars_of("Library: ");
            push_chars(&mut line, &cs);
            let ghost before = lines@.map_values(|p: Vec<char>| p@);
            lines.push(line);
            assert(lines@.map_values(|p: Vec<char>| p@) =~= before.push(line@));
        }
    }
    assert(lines@.map_values(|p: Vec<char>| p@) =~= first + second);
    prop_lines_exec(&e.properties, &mut lines);
    join_exec(&lines, "\n")
}

/// `find_id` is settled by the first entries once they hold the key.
proof fn lemma_find_id_prefix(es: Seq<(EntityId, Entity)>, n: int, id: Seq<char>)
    requires
        0 <= n <= es.len(),
        find_id(es.take(n), id) is Some,
    ensures
        find_id(es, id) == find_id(es.take(n), id),
    decreases es.len(),
{
    if n < es.len() {
        assert(es.drop_last().take(n) == es.take(n));
        lemma_find_id_prefix(es.drop_last(), n, id);
    } else {
        assert(es.take(n) == es);
    }
}

/// `find_id` names an entry holding the key.
proof fn lemma_find_id_found(es: Seq<(EntityId, Entity)>, id: Seq<char>)
    ensures
        match find_id(es, id) {
            Some(i) => 0 <= i < es.len() && es[i].0@ == id,
            None => forall|j: int| 0 <= j < es.len() ==> es[j].0@ != id,
        },
    decreases es.len(),
{
    if es.len() > 0 {
        lemma_find_id_found(es.drop_last(), id);
        if find_id(es.drop_last(), id) is None {
            assert forall|j: int| 0 <= j < es.len() - 1 implies es[j].0@ != id by {
                assert(es.drop_last()[j] == es[j]);
            }
        }
    }
}

/// `find_id` names an entry holding the key.
pub proof fn lemma_find_id_found_pub(es: Seq<(EntityId, Entity)>, id: Seq<char>)
    ensures
        match find_id(es, id) {
            Some(i) => 0 <= i < es.len() && es[i].0@ == id,
            None => forall|j: int| 0 <= j < es.len() ==> es[j].0@ != id,
        },
{
    lemma_find_id_found(es, id);
}

/// The position of the part keyed `id`.
fn find_id_exec(es: &Vec<(EntityId, Entity)>, id: &EntityId) -> (r: Option<usize>)
    ensures
        match r {
            Some(i) => find_id(es@, id@) == Some(i as int),
            None => find_id(es@, id@) is None,
        },
{
    let mut i: usize = 0;
    while i < es.len()
        invariant
            i <= es.len(),
            find_id(es@.take(i as int), id@) is None,
        decreases es.len() - i,
    {
        proof {
            assert(es@.take(i + 1).drop_last() == es@.take(i as int));
            assert(es@.take(i + 1).last() == es@[i as int]);
        }
        if str_eq(es[i].0.as_str(), id.as_str()) {
            proof {
                lemma_find_id_prefix(es@, i + 1, id@);
            }
            return Some(i);
        }
        i = i + 1;
    }
    assert(es@.take(es.len() as int) == es@);
    None
}

/// The parts at the given positions.
pub open spec fn ents_at(es: Seq<(EntityId, Entity)>, idx: Seq<usize>) -> Seq<Entity> {
    idx.map_values(|i: usize| es[i as int].1)
}

/// The positions of the parts of `a` whose key `b` lacks.
fn only_in_exec(a: &Vec<(EntityId, Entity)>, b: &Vec<(EntityId, Entity)>) -> (idx: Vec<usize>)
    ensures
        ents_at(a@, idx@) == only_in(a@, b@),
        forall|k: int| 0 <= k < idx.len() ==> idx@[k] < a.len(),
{
    let mut idx: Vec<usize> = Vec::new();
    let mut i: usize = 0;
    while i < a.len()
        invariant
            i <= a.len(),
            ents_at(a@, idx@) == only_in(a@.take(i as int), b@),
            forall|k: int| 0 <= k < idx.len() ==> idx@[k] < a.len(),
        decreases a.len() - i,
    {
        proof {
            assert(a@.take(i + 1).drop_last() == a@.take(i as int));
            assert(a@.take(i + 1).last() == a@[i as int]);
        }
        let ghost before = ents_at(a@, idx@);
        if find_id_exec(b, &a[i].0).is_none() {
            idx.push(i);
            assert(ents_at(a@, idx@) =~= before.push(a@[i as int].1));
        }
        i = i + 1;
    }
    assert(a@.take(a.len() as int) == a@);
    idx
}

/// How many of the listed parts carry reference `r`.
fn ref_count_exec(es: &Vec<(EntityId, Entity)>, idx: &Vec<usize>, r: &str) -> (n: usize)
    requires
        forall|k: int| 0 <= k < idx.len() ==> idx@[k] < es.len(),
    ensures
        n == ref_count(ents_at(es@, idx@), r@),
{
    let ghost all = ents_at(es@, idx@);
    let mut n: usize = 0;
    let mut i: usize = 0;
    while i < idx.len()
        invariant
            i <= idx.len(),
            all == ents_at(es@, idx@),
            forall|k: int| 0 <= k < idx.len() ==> idx@[k] < es.len(),
            n == ref_count(all.take(i as int), r@),
            n <= i,
        decreases idx.len() - i,
    {
        proof {
            assert(all.take(i + 1).drop_last() == all.take(i as int));
            assert(all.take(i + 1).last() == es@[idx@[i as int] as int].1);
        }
        if str_eq(es[idx[i]].1.reference.as_str(), r) {
            n = n + 1;
        }
        i = i + 1;
    }
    assert(all.take(idx.len() as int) == all);
    n
}

/// `first_ref` is settled by the first entries once they hold the reference.
proof fn lemma_first_ref_prefix(es: Seq<Entity>, n: int, r: Seq<char>)
    requires
        0 <= n <= es.len(),
        first_ref(es.take(n), r) is Some,
    ensures
        first_ref(es, r) == first_ref(es.take(n), r),
    decreases es.len(),
{
    if n < es.len() {
        assert(es.drop_last().take(n) == es.take(n));
        lemma_first_ref_prefix(es.drop_last(), n, r);
    } else {
        assert(es.take(n) == es);
    }
}

/// The first of the listed parts with reference `r`, as a position in the list.
fn first_ref_exec(es: &Vec<(EntityId, Entity)>, idx: &Vec<usize>, r: &str) -> (f: Option<usize>)
    requires
        forall|k: int| 0 <= k < idx.len() ==> idx@[k] < es.len(),
    ensures
        match f {
            Some(k) => first_ref(ents_at(es@, idx@), r@) == Some(k as int) && k < idx.len(),
            None => first_ref(ents_at(es@, idx@), r@) is None,
        },
{
    let ghost all = ents_at(es@, idx@);
    let mut i: usize = 0;
    while i < idx.len()
        invariant
            i <= idx.len(),
            all == ents_at(es@, idx@),
            forall|k: int| 0 <= k < idx.len() ==> idx@[k] < es.len(),
            first_ref(all.take(i as int), r@) is None,
        decreases idx.len() - i,
    {
        proof {
            assert(all.take(i + 1).drop_last() == all.take(i as int));
            assert(all.take(i + 1).last() == es@[idx@[i as int] as int].1);
        }
        if str_eq(es[idx[i]].1.reference.as_str(), r) {
            proof {
                lemma_first_ref_prefix(all, i + 1, r@);
            }
            return Some(i);
        }
        i = i + 1;
    }
    assert(all.take(idx.len() as int) == all);
    None
}

} // verus!

verus! {

/// A reference counted among some parts has a first part.
pub proof fn lemma_ref_count_first(es: Seq<Entity>, r: Seq<char>)
    ensures
        ref_count(es, r) > 0 <==> first_ref(es, r) is Some,
        match first_ref(es, r) {
            Some(i) => 0 <= i < es.len() && es[i].reference@ == r,
            None => true,
        },
    decreases es.len(),
{
    if es.len() > 0 {
        lemma_ref_count_first(es.drop_last(), r);
    }
}

/// Appends the rows of the added parts (positions `add` of `b`), pairing
/// re-placements with the removed parts (positions `rem` of `a`).
fn added_rows_exec(
    out: &mut Vec<Change>,
    project: &ProjectLabel,
    scope: Kind,
    a: &Vec<(EntityId, Entity)>,
    rem: &Vec<usize>,
    b: &Vec<(EntityId, Entity)>,
    add: &Vec<usize>,
)
    requires
        forall|k: int| 0 <= k < rem.len() ==> rem@[k] < a.len(),
        forall|k: int| 0 <= k < add.len() ==> add@[k] < b.len(),
    ensures
        changes_view(final(out)@) == changes_view(old(out)@) + added_rows(
            project@,
            scope,
            ents_at(a@, rem@),
            ents_at(b@, add@),
            add.len() as int,
        ),
{
    let ghost start = changes_view(out@);
    let ghost removed = ents_at(a@, rem@);
    let ghost added = ents_at(b@, add@);
    let mut k: usize = 0;
    while k < add.len()
        invariant
            k <= add.len(),
            removed == ents_at(a@, rem@),
            added == ents_at(b@, add@),
            forall|q: int| 0 <= q < rem.len() ==> rem@[q] < a.len(),
            forall|q: int| 0 <= q < add.len() ==> add@[q] < b.len(),
            changes_view(out@) == start + added_rows(project@, scope, removed, added, k as int),
        decreases add.len() - k,
    {
        let e = &b[add[k]].1;
        assert(*e == added[k as int]);
        let count = ref_count_exec(a, rem, e.reference.as_str());
        let first = first_ref_exec(b, add, e.reference.as_str());
        let again = match first {
            Some(f) => f == k,
            None => false,
        };
        let ghost before = changes_view(out@);
        if count == 1 && again {
            proof {
                lemma_ref_count_first(removed, e.reference@);
            }
            let j = match first_ref_exec(a, rem, e.reference.as_str()) {
                Some(j) => j,
                None => 0,
            };
            assert(first_ref(removed, e.reference@) == Some(j as int));
            compare_into(out, project, scope, &a[rem[j]].1, e);
        } else {
            let d = describe_exec(e);
            out.push(fact_row_exec(project, scope, ChangeKind::Added, None, Some(e), &e.reference, &d));
            proof {
                assert(changes_view(out@) =~= before.push(out@.last()@));
            }
        }
        k = k + 1;
    }
}

/// The references of the listed parts, in order.
fn removed_refs_exec(a: &Vec<(EntityId, Entity)>, rem: &Vec<usize>) -> (refs: Vec<String>)
    requires
        forall|k: int| 0 <= k < rem.len() ==> rem@[k] < a.len(),
    ensures
        strings_view(refs@) == removed_refs(ents_at(a@, rem@)),
{
    let ghost removed = ents_at(a@, rem@);
    let mut refs: Vec<String> = Vec::new();
    let mut i: usize = 0;
    while i < rem.len()
        invariant
            i <= rem.len(),
            removed == ents_at(a@, rem@),
            forall|k: int| 0 <= k < rem.len() ==> rem@[k] < a.len(),
            strictly_sorted(strings_view(refs@), text_order()),
            strings_view(refs@).to_set() == Set::new(
                |r: Seq<char>| exists|j: int| #![trigger removed[j]] 0 <= j < i && removed[j].reference@ == r,
            ),
        decreases rem.len() - i,
    {
        let s = a[rem[i]].1.reference.as_str().to_owned();
        insert_text(&mut refs, &s);
        proof {
            assert(removed[i as int].reference@ == s@);
            assert(strings_view(refs@).to_set() =~= Set::new(
                |r: Seq<char>| exists|j: int| #![trigger removed[j]] 0 <= j < i + 1 && removed[j].reference@ == r,
            ));
        }
        i = i + 1;
    }
    proof {
        let set = Set::new(
            |r: Seq<char>| exists|j: int| #![trigger removed[j]] 0 <= j < removed.len() && removed[j].reference@ == r,
        );
        assert(strings_view(refs@).to_set() =~= set);
        lemma_text_order();
        crate::order::lemma_is_sorted_seq_of(strings_view(refs@), set, text_order());
    }
    refs
}

/// Appends the removal rows of reference `r`'s removed parts.
fn removals_of_exec(
    out: &mut Vec<Change>,
    project: &ProjectLabel,
    scope: Kind,
    a: &Vec<(EntityId, Entity)>,
    rem: &Vec<usize>,
    r: &str,
)
    requires
        forall|k: int| 0 <= k < rem.len() ==> rem@[k] < a.len(),
    ensures
        changes_view(final(out)@) == changes_view(old(out)@) + removals_of(
            project@,
            scope,
            ents_at(a@, rem@),
            r@,
        ),
{
    let ghost start = changes_view(out@);
    let ghost removed = ents_at(a@, rem@);
    let empty: Vec<char> = Vec::new();
    let mut i: usize = 0;
    while i < rem.len()
        invariant
            i <= rem.len(),
            removed == ents_at(a@, rem@),
            forall|k: int| 0 <= k < rem.len() ==> rem@[k] < a.len(),
            empty@ == Seq::<char>::empty(),
            changes_view(out@) == start + removals_of(project@, scope, removed.take(i as int), r@),
        decreases rem.len() - i,
    {
        proof {
            assert(removed.take(i + 1).drop_last() == removed.take(i as int));
            assert(removed.take(i + 1).last() == removed[i as int]);
        }
        let e = &a[rem[i]].1;
        assert(*e == removed[i as int]);
        let ghost before = changes_view(out@);
        if str_eq(e.reference.as_str(), r) {
            out.push(fact_row_exec(project, scope, ChangeKind::Removed, Some(e), None, &e.reference, &empty));
            proof {
                assert(changes_view(out@) =~= before.push(out@.last()@));
            }
        }
        i = i + 1;
    }
    assert(removed.take(rem.len() as int) == removed);
}

/// Appends the removal rows by reference, leaving out re-placed parts.
fn removed_rows_exec(
    out: &mut Vec<Change>,
    project: &ProjectLabel,
    scope: Kind,
    a: &Vec<(EntityId, Entity)>,
    rem: &Vec<usize>,
    b: &Vec<(EntityId, Entity)>,
    add: &Vec<usize>,
    refs: &Vec<String>,
)
    requires
        forall|k: int| 0 <= k < rem.len() ==> rem@[k] < a.len(),
        forall|k: int| 0 <= k < add.len() ==> add@[k] < b.len(),
    ensures
        changes_view(final(out)@) == changes_view(old(out)@) + removed_rows(
            project@,
            scope,
            ents_at(a@, rem@),
            ents_at(b@, add@),
            strings_view(refs@),
        ),
{
    let ghost start = changes_view(out@);
    let ghost removed = ents_at(a@, rem@);
    let ghost added = ents_at(b@, add@);
    let ghost rv = strings_view(refs@);
    let mut i: usize = 0;
    while i < refs.len()
        invariant
            i <= refs.len(),
            removed == ents_at(a@, rem@),
            added == ents_at(b@, add@),
            rv == strings_view(refs@),
            forall|q: int| 0 <= q < rem.len() ==> rem@[q] < a.len(),
            forall|q: int| 0 <= q < add.len() ==> add@[q] < b.len(),
            changes_view(out@) == start + removed_rows(project@, scope, removed, added, rv.take(i as int)),
        decreases refs.len() - i,
    {
        proof {
            assert(rv.take(i + 1).drop_last() == rv.take(i as int));
            assert(rv.take(i + 1).last() == refs@[i as int]@);
        }
        let r = refs[i].as_str();
        let count = ref_count_exec(a, rem, r);
        let first = first_ref_exec(b, add, r);
        if count == 1 && first.is_some() {
        } else {
            let ghost before = changes_view(out@);
            removals_of_exec(out, project, scope, a, rem, r);
            proof {
                assert(changes_view(out@) =~= before + removals_of(project@, scope, removed, r@));
            }
        }
        i = i + 1;
    }
    assert(rv.take(refs.len() as int) == rv);
}

/// The semantic changes between two revisions' parts, each side given as its
/// part map in key order (as a `BTreeMap` walks it): parts matched by key
/// report their differing facts; a part re-placed under a fresh key pairs
/// with the only removed part of its reference; the rest are added or
/// removed. The rows come ordered by sheet, reference, kind and detail,
/// each said once: a multi-unit symbol repeats its part-level facts.
pub fn diff_entities(
    project: &ProjectLabel,
    scope: Kind,
    a: &Vec<(EntityId, Entity)>,
    b: &Vec<(EntityId, Entity)>,
) -> (changes: Vec<Change>)
    ensures
        changes_view(changes@) == entity_changes(project@, scope, a@, b@),
        forall|i: int, j: int|
            #![trigger changes@[i], changes@[j]]
            0 <= i < j < changes.len() ==> row_lt(changes@[i]@, changes@[j]@) && row_key(changes@[i]@) != row_key(
                changes@[j]@,
            ),
{
    let mut rows: Vec<Change> = Vec::new();
    let mut i: usize = 0;
    while i < a.len()
        invariant
            i <= a.len(),
            changes_view(rows@) == matched_rows(project@, scope, a@.take(i as int), b@),
        decreases a.len() - i,
    {
        proof {
            assert(a@.take(i + 1).drop_last() == a@.take(i as int));
            assert(a@.take(i + 1).last() == a@[i as int]);
        }
        match find_id_exec(b, &a[i].0) {
            Some(j) => {
                proof {
                    lemma_find_id_found(b@, a@[i as int].0@);
                }
                compare_into(&mut rows, project, scope, &a[i].1, &b[j].1);
            },
            None => {},
        }
        i = i + 1;
    }
    assert(a@.take(a.len() as int) == a@);
    let rem = only_in_exec(a, b);
    let add = only_in_exec(b, a);
    let ghost matched = changes_view(rows@);
    added_rows_exec(&mut rows, project, scope, a, &rem, b, &add);
    let ghost with_added = changes_view(rows@);
    let refs = removed_refs_exec(a, &rem);
    removed_rows_exec(&mut rows, project, scope, a, &rem, b, &add, &refs);
    proof {
        assert(changes_view(rows@) == entity_rows(project@, scope, a@, b@));
    }
    let out = sort_dedup_exec(&rows);
    proof {
        assert forall|i: int, j: int|
            #![trigger out@[i], out@[j]]
            0 <= i < j < out.len() implies row_lt(out@[i]@, out@[j]@) && row_key(out@[i]@) != row_key(out@[j]@) by {
            assert(changes_view(out@)[i] == out@[i]@ && changes_view(out@)[j] == out@[j]@);
            assert(row_order()(out@[i]@, out@[j]@));
            lemma_row_lt_keys(out@[i]@, out@[j]@);
        }
    }
    out
}

/// Rows in order have different keys.
proof fn lemma_row_lt_keys(x: ChangeView, y: ChangeView)
    requires
        row_lt(x, y),
    ensures
        row_key(x) != row_key(y),
{
    if row_key(x) == row_key(y) {
        lemma_seq_lt_irreflexive(x.reference);
        lemma_seq_lt_irreflexive(change_kind_name(x.kind));
        lemma_seq_lt_irreflexive(x.detail);
        match x.sheet {
            Some(s) => lemma_seq_lt_irreflexive(s),
            None => {},
        }
    }
}

} // verus!
