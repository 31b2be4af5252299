//! Semantic diffing of KiCAD projects: parts, properties and connectivity.

pub mod connectivity;
pub mod extract;
pub mod geometry;
pub mod laws;
pub mod part;
pub mod symbols;
pub mod table;
pub mod walk;

use vstd::prelude::*;

use crate::ids::{EntityId, PageName, Pin, ProjectLabel, Reference};
use crate::kicad::Kind;
use crate::order::{sorted_seq_of, strict_order, strictly_sorted};
use crate::semantic::part::{insert_text, lemma_text_order, strings_view, text_order};
use crate::netlist::Net;
use crate::semantic::connectivity::{connectivity_changes, diff_connectivity, ConnInput};
use crate::semantic::part::{diff_entities, entity_changes, opt_lt, opt_page_eq, opt_page_lt};
use crate::text::{chars_lt, seq_lt, str_eq, str_lt};

verus! {

/// A location on a sheet or board, in nanometres (KiCAD's internal unit).
#[derive(Clone, Copy, PartialEq, Eq, Debug, Structural)]
pub struct Point {
    pub x: i32,
    pub y: i32,
}

/// A part (one placed symbol unit, or one footprint) on one revision.
pub struct Entity {
    pub reference: Reference,
    pub value: Option<String>,
    pub lib_id: Option<String>,
    pub at: Option<Point>,
    /// Orientation in billionths of a degree.
    pub rotation: i64,
    pub sheet: Option<PageName>,
    pub layer: Option<PageName>,
    /// The symbol's remaining properties (schematics only), by name: the
    /// assigned footprint and any BOM field (MPN, LCSC, ...).
    pub properties: Vec<(String, String)>,
    /// Sheet positions of this instance's pins by pin number (schematics
    /// only), for pointing at net connection changes.
    pub pins: Vec<(Pin, Point)>,
    /// Pins not drawn on the sheet; a hidden pin is stacked under a visible
    /// one and its connectivity is that pin's business.
    pub hidden_pins: Vec<Pin>,
}

/// The kinds of semantic change.
#[derive(Clone, Copy, PartialEq, Eq, Debug, Structural)]
pub enum ChangeKind {
    Added,
    Removed,
    Renamed,
    Moved,
    Flipped,
    ValueChanged,
    FootprintChanged,
    PropertyChanged,
    NetChanged,
}

/// The name a change kind goes by in the report data.
pub open spec fn change_kind_name(k: ChangeKind) -> Seq<char> {
    match k {
        ChangeKind::Added => "added"@,
        ChangeKind::Removed => "removed"@,
        ChangeKind::Renamed => "renamed"@,
        ChangeKind::Moved => "moved"@,
        ChangeKind::Flipped => "flipped"@,
        ChangeKind::ValueChanged => "value"@,
        ChangeKind::FootprintChanged => "footprint"@,
        ChangeKind::PropertyChanged => "property"@,
        ChangeKind::NetChanged => "net"@,
    }
}

impl ChangeKind {
    /// The kind's name in the report data.
    pub fn as_str(self) -> (r: &'static str)
        ensures
            r@ == change_kind_name(self),
    {
        match self {
            ChangeKind::Added => "added",
            ChangeKind::Removed => "removed",
            ChangeKind::Renamed => "renamed",
            ChangeKind::Moved => "moved",
            ChangeKind::Flipped => "flipped",
            ChangeKind::ValueChanged => "value",
            ChangeKind::FootprintChanged => "footprint",
            ChangeKind::PropertyChanged => "property",
            ChangeKind::NetChanged => "net",
        }
    }
}

/// An exact ratio `num / den` with a positive denominator.
#[derive(Clone, Copy, PartialEq, Eq, Debug, Structural)]
pub struct Ratio {
    pub num: i64,
    pub den: i64,
}

/// A change location as fractions of a rendered page's width and height.
#[derive(Clone, Copy, PartialEq, Eq, Debug, Structural)]
pub struct Frac {
    pub x: Ratio,
    pub y: Ratio,
}

/// One semantic difference between the two revisions of a project.
pub struct Change {
    /// Sidebar group this belongs to.
    pub project: ProjectLabel,
    /// `Kind::Pcb` or `Kind::Sch`.
    pub scope: Kind,
    /// Page name of the schematic sheet the part sits on; `None` for PCB scope.
    pub sheet: Option<PageName>,
    pub kind: ChangeKind,
    /// Reference designator (head side when it exists, base side otherwise).
    pub reference: Reference,
    /// Human-facing summary ("10k -> 4k7", "moved 2.31 mm", ...).
    pub detail: String,
    /// For PCB scope: the copper layer the part sits on ("F.Cu"/"B.Cu"),
    /// which is the page the viewer navigates to.
    pub layer: Option<PageName>,
    /// Location on each revision.
    pub at_base: Option<Point>,
    pub at_head: Option<Point>,
    /// The locations as fractions of each side's rendered extent.
    pub frac_base: Option<Frac>,
    pub frac_head: Option<Frac>,
}

} // verus!

verus! {

/// What a change says, with every text taken by its characters.
pub struct ChangeView {
    pub project: Seq<char>,
    pub scope: Kind,
    pub sheet: Option<Seq<char>>,
    pub kind: ChangeKind,
    pub reference: Seq<char>,
    pub detail: Seq<char>,
    pub layer: Option<Seq<char>>,
    pub at_base: Option<Point>,
    pub at_head: Option<Point>,
    pub frac_base: Option<Frac>,
    pub frac_head: Option<Frac>,
}

/// The characters of an optional page name.
pub open spec fn page_view(p: Option<PageName>) -> Option<Seq<char>> {
    match p {
        Some(n) => Some(n@),
        None => None,
    }
}

impl View for Change {
    type V = ChangeView;

    open spec fn view(&self) -> ChangeView {
        ChangeView {
            project: self.project@,
            scope: self.scope,
            sheet: page_view(self.sheet),
            kind: self.kind,
            reference: self.reference@,
            detail: self.detail@,
            layer: page_view(self.layer),
            at_base: self.at_base,
            at_head: self.at_head,
            frac_base: self.frac_base,
            frac_head: self.frac_head,
        }
    }
}

} // verus!

verus! {

/// A copy of an optional page name.
pub fn clone_page(p: &Option<PageName>) -> (r: Option<PageName>)
    ensures
        page_view(r) == page_view(*p),
{
    match p {
        Some(n) => Some(n.clone()),
        None => None,
    }
}

/// The views of a list of changes.
pub open spec fn changes_view(cs: Seq<Change>) -> Seq<ChangeView> {
    cs.map_values(|c: Change| c@)
}

} // verus!

verus! {

/// A copy of a change.
pub fn clone_change(c: &Change) -> (r: Change)
    ensures
        r@ == c@,
{
    Change {
        project: c.project.clone(),
        scope: c.scope,
        sheet: clone_page(&c.sheet),
        kind: c.kind,
        reference: c.reference.clone(),
        detail: c.detail.clone(),
        layer: clone_page(&c.layer),
        at_base: c.at_base,
        at_head: c.at_head,
        frac_base: c.frac_base,
        frac_head: c.frac_head,
    }
}

} // verus!

verus! {

/// The page a part sits on for a scope: its copper layer on a board, its
/// sheet on a schematic.
pub open spec fn page_of(e: Entity, scope: Kind) -> Option<Seq<char>> {
    if scope == Kind::Pcb {
        page_view(e.layer)
    } else {
        page_view(e.sheet)
    }
}

/// The parts of both revisions, base first.
pub open spec fn parts_of(a: Seq<(EntityId, Entity)>, b: Seq<(EntityId, Entity)>) -> Seq<Entity> {
    a.map_values(|p: (EntityId, Entity)| p.1) + b.map_values(|p: (EntityId, Entity)| p.1)
}

/// The pages any of the parts sits on.
pub open spec fn pages_of(parts: Seq<Entity>, scope: Kind) -> Set<Seq<char>> {
    Set::new(|p: Seq<char>| exists|i: int| #![trigger parts[i]] 0 <= i < parts.len() && page_of(parts[i], scope) == Some(p))
}

/// The references of the parts on `page`.
pub open spec fn refs_on(parts: Seq<Entity>, scope: Kind, page: Seq<char>) -> Set<Seq<char>> {
    Set::new(
        |r: Seq<char>|
            exists|i: int|
                #![trigger parts[i]]
                0 <= i < parts.len() && page_of(parts[i], scope) == Some(page) && parts[i].reference@ == r,
    )
}

/// Totals order by page name.
pub open spec fn total_order() -> spec_fn((Seq<char>, nat), (Seq<char>, nat)) -> bool {
    |x: (Seq<char>, nat), y: (Seq<char>, nat)| seq_lt(x.0, y.0)
}

/// Unique references per page, union of both sides, in page order: the
/// denominator behind the "% of parts changed" summaries.
pub open spec fn part_totals_of(a: Seq<(EntityId, Entity)>, b: Seq<(EntityId, Entity)>, scope: Kind) -> Seq<
    (Seq<char>, nat),
> {
    let parts = parts_of(a, b);
    sorted_seq_of(
        Set::new(
            |t: (Seq<char>, nat)| pages_of(parts, scope).contains(t.0) && t.1 == refs_on(parts, scope, t.0).len(),
        ),
        total_order(),
    )
}

/// The views of a list of page totals.
pub open spec fn totals_view(t: Seq<(PageName, usize)>) -> Seq<(Seq<char>, nat)> {
    t.map_values(|x: (PageName, usize)| (x.0@, x.1 as nat))
}

/// The page a part sits on for a scope.
fn page_of_exec(e: &Entity, scope: Kind) -> (r: Option<&PageName>)
    ensures
        match r {
            Some(p) => page_of(*e, scope) == Some(p@),
            None => page_of(*e, scope) is None,
        },
{
    match scope {
        Kind::Pcb => match &e.layer {
            Some(p) => Some(p),
            None => None,
        },
        _ => match &e.sheet {
            Some(p) => Some(p),
            None => None,
        },
    }
}

/// Part `k` of both revisions, base first.
fn part_at<'a>(a: &'a Vec<(EntityId, Entity)>, b: &'a Vec<(EntityId, Entity)>, k: usize) -> (e: &'a Entity)
    requires
        k < a.len() + b.len(),
    ensures
        *e == parts_of(a@, b@)[k as int],
{
    if k < a.len() {
        &a[k].1
    } else {
        &b[k - a.len()].1
    }
}

/// The sorted, distinct pages the parts sit on.
fn pages_exec(a: &Vec<(EntityId, Entity)>, b: &Vec<(EntityId, Entity)>, scope: Kind) -> (pages: Vec<String>)
    requires
        a.len() + b.len() <= usize::MAX,
    ensures
        strictly_sorted(strings_view(pages@), text_order()),
        strings_view(pages@).to_set() == pages_of(parts_of(a@, b@), scope),
{
    let ghost parts = parts_of(a@, b@);
    let n = a.len() + b.len();
    let mut pages: Vec<String> = Vec::new();
    let mut k: usize = 0;
    while k < n
        invariant
            k <= n,
            n == a.len() + b.len(),
            parts == parts_of(a@, b@),
            strictly_sorted(strings_view(pages@), text_order()),
            strings_view(pages@).to_set() == Set::new(
                |p: Seq<char>| exists|i: int| #![trigger parts[i]] 0 <= i < k && page_of(parts[i], scope) == Some(p),
            ),
        decreases n - k,
    {
        let e = part_at(a, b, k);
        match page_of_exec(e, scope) {
            Some(p) => {
                let s = p.as_str().to_owned();
                insert_text(&mut pages, &s);
            },
            None => {},
        }
        proof {
            assert(strings_view(pages@).to_set() =~= Set::new(
                |p: Seq<char>| exists|i: int| #![trigger parts[i]] 0 <= i < k + 1 && page_of(parts[i], scope) == Some(p),
            ));
        }
        k = k + 1;
    }
    assert(strings_view(pages@).to_set() =~= pages_of(parts, scope));
    pages
}

/// The number of distinct references on `page`.
fn refs_count(a: &Vec<(EntityId, Entity)>, b: &Vec<(EntityId, Entity)>, scope: Kind, page: &str) -> (n: usize)
    requires
        a.len() + b.len() <= usize::MAX,
    ensures
        n == refs_on(parts_of(a@, b@), scope, page@).len(),
{
    let ghost parts = parts_of(a@, b@);
    let n = a.len() + b.len();
    let mut refs: Vec<String> = Vec::new();
    let mut k: usize = 0;
    while k < n
        invariant
            k <= n,
            n == a.len() + b.len(),
            parts == parts_of(a@, b@),
            strictly_sorted(strings_view(refs@), text_order()),
            strings_view(refs@).to_set() == Set::new(
                |r: Seq<char>|
                    exists|i: int|
                        #![trigger parts[i]]
                        0 <= i < k && page_of(parts[i], scope) == Some(page@) && parts[i].reference@ == r,
            ),
        decreases n - k,
    {
        let e = part_at(a, b, k);
        let on = match page_of_exec(e, scope) {
            Some(p) => str_eq(p.as_str(), page),
            None => false,
        };
        if on {
            let s = e.reference.as_str().to_owned();
            insert_text(&mut refs, &s);
        }
        proof {
            assert(strings_view(refs@).to_set() =~= Set::new(
                |r: Seq<char>|
                    exists|i: int|
                        #![trigger parts[i]]
                        0 <= i < k + 1 && page_of(parts[i], scope) == Some(page@) && parts[i].reference@ == r,
            ));
        }
        k = k + 1;
    }
    proof {
        let sv = strings_view(refs@);
        assert(sv.to_set() =~= refs_on(parts, scope, page@));
        lemma_text_order();
        assert(sv.no_duplicates()) by {
            assert forall|i: int, j: int| 0 <= i < sv.len() && 0 <= j < sv.len() && i != j implies sv[i] != sv[j] by {
                if i < j {
                    assert(text_order()(sv[i], sv[j]));
                } else {
                    assert(text_order()(sv[j], sv[i]));
                }
            }
        }
        sv.unique_seq_to_set();
    }
    refs.len()
}

/// Unique references per page (sheet or copper layer by `scope`), union of
/// both sides, in page order.
pub fn part_totals(a: &Vec<(EntityId, Entity)>, b: &Vec<(EntityId, Entity)>, scope: Kind) -> (totals: Vec<
    (PageName, usize),
>)
    requires
        a.len() + b.len() <= usize::MAX,
    ensures
        totals_view(totals@) == part_totals_of(a@, b@, scope),
{
    let ghost parts = parts_of(a@, b@);
    let pages = pages_exec(a, b, scope);
    let ghost pv = strings_view(pages@);
    let mut totals: Vec<(PageName, usize)> = Vec::new();
    let mut i: usize = 0;
    while i < pages.len()
        invariant
            i <= pages.len(),
            a.len() + b.len() <= usize::MAX,
            parts == parts_of(a@, b@),
            pv == strings_view(pages@),
            strictly_sorted(pv, text_order()),
            totals.len() == i,
            forall|j: int|
                0 <= j < i ==> #[trigger] totals_view(totals@)[j] == (pv[j], refs_on(parts, scope, pv[j]).len()),
        decreases pages.len() - i,
    {
        let count = refs_count(a, b, scope, pages[i].as_str());
        let ghost before = totals_view(totals@);
        totals.push((PageName::from_string(pages[i].clone()), count));
        proof {
            assert(totals_view(totals@) =~= before.push((pv[i as int], count as nat)));
        }
        i = i + 1;
    }
    proof {
        let tv = totals_view(totals@);
        let set = Set::new(
            |t: (Seq<char>, nat)| pages_of(parts, scope).contains(t.0) && t.1 == refs_on(parts, scope, t.0).len(),
        );
        assert forall|x: int, y: int| 0 <= x < y < tv.len() implies total_order()(tv[x], tv[y]) by {
            assert(tv[x] == (pv[x], refs_on(parts, scope, pv[x]).len()));
            assert(tv[y] == (pv[y], refs_on(parts, scope, pv[y]).len()));
        }
        assert forall|t: (Seq<char>, nat)| tv.to_set().contains(t) <==> set.contains(t) by {
            if tv.to_set().contains(t) {
                let x = choose|x: int| 0 <= x < tv.len() && tv[x] == t;
                assert(tv[x] == (pv[x], refs_on(parts, scope, pv[x]).len()));
                assert(pv.to_set().contains(pv[x]));
            }
            if set.contains(t) {
                assert(pv.to_set().contains(t.0));
                let x = choose|x: int| 0 <= x < pv.len() && pv[x] == t.0;
                assert(tv[x] == (pv[x], refs_on(parts, scope, pv[x]).len()));
            }
        }
        assert(tv.to_set() =~= set);
        assert(strict_order(total_order())) by {
            assert forall|x: (Seq<char>, nat)| !#[trigger] total_order()(x, x) by {
                crate::text::lemma_seq_lt_irreflexive(x.0);
            }
            assert forall|x: (Seq<char>, nat), y: (Seq<char>, nat), z: (Seq<char>, nat)|
                #[trigger] total_order()(x, y) && #[trigger] total_order()(y, z) implies total_order()(x, z) by {
                crate::text::lemma_seq_lt_transitive(x.0, y.0, z.0);
            }
        }
        crate::order::lemma_is_sorted_seq_of(tv, set, total_order());
    }
    totals
}

} // verus!

verus! {

/// The name `m` gives key `k` (its first entry with that key).
pub open spec fn name_at(m: Seq<(String, PageName)>, k: Seq<char>) -> Option<Seq<char>>
    decreases m.len(),
{
    if m.len() == 0 {
        None
    } else {
        match name_at(m.drop_last(), k) {
            Some(n) => Some(n),
            None => if m.last().0@ == k {
                Some(m.last().1@)
            } else {
                None
            },
        }
    }
}

/// The new names that the first `n` base sheets called `old` carry on the
/// head side.
pub open spec fn renamed_within(
    a: Seq<(String, PageName)>,
    b: Seq<(String, PageName)>,
    old: Seq<char>,
    n: int,
) -> Set<Seq<char>> {
    Set::new(
        |new: Seq<char>|
            exists|i: int|
                #![trigger a[i]]
                0 <= i < n && a[i].1@ == old && name_at(b, a[i].0@) == Some(new) && new != old,
    )
}

/// The new names that base sheets called `old` carry on the head side.
pub open spec fn renamed_to(a: Seq<(String, PageName)>, b: Seq<(String, PageName)>, old: Seq<char>) -> Set<
    Seq<char>,
> {
    renamed_within(a, b, old, a.len() as int)
}

/// Base names some instance of which keeps its name (or has no head
/// counterpart): their exported page still owns that name on the base side.
pub open spec fn kept_names(a: Seq<(String, PageName)>, b: Seq<(String, PageName)>) -> Set<Seq<char>> {
    Set::new(
        |old: Seq<char>|
            exists|i: int|
                #![trigger a[i]]
                0 <= i < a.len() && a[i].1@ == old && (name_at(b, a[i].0@) is None || name_at(b, a[i].0@) == Some(
                    old,
                )),
    )
}

/// The one name base sheets called `old` are renamed to, when they all go
/// to the same new name and none keeps the old one.
pub open spec fn sole_rename(a: Seq<(String, PageName)>, b: Seq<(String, PageName)>, old: Seq<char>) -> Option<
    Seq<char>,
> {
    if !kept_names(a, b).contains(old) && exists|n: Seq<char>| renamed_to(a, b, old) == set![n] {
        Some(choose|n: Seq<char>| renamed_to(a, b, old) == set![n])
    } else {
        None
    }
}

/// A rename stands when it is the only rename landing on its new name and
/// no kept base page owns that name.
pub open spec fn is_rename(a: Seq<(String, PageName)>, b: Seq<(String, PageName)>, old: Seq<char>, new: Seq<char>) -> bool {
    &&& sole_rename(a, b, old) == Some(new)
    &&& !kept_names(a, b).contains(new)
    &&& forall|o: Seq<char>| o != old ==> sole_rename(a, b, o) != Some(new)
}

/// Renames order by old name.
pub open spec fn rename_order() -> spec_fn((Seq<char>, Seq<char>), (Seq<char>, Seq<char>)) -> bool {
    |x: (Seq<char>, Seq<char>), y: (Seq<char>, Seq<char>)| seq_lt(x.0, y.0)
}

/// The sheet renames between two revisions' sheet names (keyed by instance
/// path), as (old, new) pairs in old-name order.
pub open spec fn renames_of(a: Seq<(String, PageName)>, b: Seq<(String, PageName)>) -> Seq<
    (Seq<char>, Seq<char>),
> {
    sorted_seq_of(Set::new(|t: (Seq<char>, Seq<char>)| is_rename(a, b, t.0, t.1)), rename_order())
}

/// The views of a list of renames.
pub open spec fn renames_view(r: Seq<(PageName, PageName)>) -> Seq<(Seq<char>, Seq<char>)> {
    r.map_values(|x: (PageName, PageName)| (x.0@, x.1@))
}

/// `name_at` is settled by the first entries once they hold the key.
proof fn lemma_name_at_prefix(m: Seq<(String, PageName)>, n: int, k: Seq<char>)
    requires
        0 <= n <= m.len(),
        name_at(m.take(n), k) is Some,
    ensures
        name_at(m, k) == name_at(m.take(n), k),
    decreases m.len(),
{
    if n < m.len() {
        assert(m.drop_last().take(n) == m.take(n));
        lemma_name_at_prefix(m.drop_last(), n, k);
    } else {
        assert(m.take(n) == m);
    }
}

/// The name `m` gives key `k`.
fn name_at_exec<'a>(m: &'a Vec<(String, PageName)>, k: &str) -> (r: Option<&'a PageName>)
    ensures
        match r {
            Some(p) => name_at(m@, k@) == Some(p@),
            None => name_at(m@, k@) is None,
        },
{
    let mut i: usize = 0;
    while i < m.len()
        invariant
            i <= m.len(),
            name_at(m@.take(i as int), k@) is None,
        decreases m.len() - i,
    {
        proof {
            assert(m@.take(i + 1).drop_last() == m@.take(i as int));
            assert(m@.take(i + 1).last() == m@[i as int]);
        }
        if str_eq(m[i].0.as_str(), k) {
            proof {
                lemma_name_at_prefix(m@, i + 1, k@);
            }
            return Some(&m[i].1);
        }
        i = i + 1;
    }
    assert(m@.take(m.len() as int) == m@);
    None
}

/// Whether some base sheet called `name` keeps it.
fn is_kept(a: &Vec<(String, PageName)>, b: &Vec<(String, PageName)>, name: &str) -> (r: bool)
    ensures
        r == kept_names(a@, b@).contains(name@),
{
    let mut i: usize = 0;
    while i < a.len()
        invariant
            i <= a.len(),
            forall|j: int|
                #![trigger a@[j]]
                0 <= j < i ==> !(a@[j].1@ == name@ && (name_at(b@, a@[j].0@) is None || name_at(b@, a@[j].0@)
                    == Some(name@))),
        decreases a.len() - i,
    {
        if str_eq(a[i].1.as_str(), name) {
            match name_at_exec(b, a[i].0.as_str()) {
                None => {
                    return true;
                },
                Some(n) => if str_eq(n.as_str(), name) {
                    return true;
                },
            }
        }
        i = i + 1;
    }
    false
}

/// The one name base sheets called `old` are renamed to, if any.
fn sole_rename_exec(a: &Vec<(String, PageName)>, b: &Vec<(String, PageName)>, old: &str) -> (r: Option<String>)
    ensures
        match r {
            Some(n) => sole_rename(a@, b@, old@) == Some(n@),
            None => sole_rename(a@, b@, old@) is None,
        },
{
    if is_kept(a, b, old) {
        return None;
    }
    let mut first: Option<String> = None;
    let mut multi = false;
    let mut i: usize = 0;
    while i < a.len()
        invariant
            i <= a.len(),
            match first {
                None => !multi && forall|n: Seq<char>| !#[trigger] renamed_within(a@, b@, old@, i as int).contains(n),
                Some(f) => renamed_to(a@, b@, old@).contains(f@) && (multi ==> exists|n: Seq<char>|
                    n != f@ && #[trigger] renamed_to(a@, b@, old@).contains(n)) && (!multi ==> forall|n: Seq<char>|
                    #[trigger] renamed_within(a@, b@, old@, i as int).contains(n) ==> n == f@),
            },
        decreases a.len() - i,
    {
        if str_eq(a[i].1.as_str(), old) {
            match name_at_exec(b, a[i].0.as_str()) {
                Some(n) => if !str_eq(n.as_str(), old) {
                    assert(renamed_to(a@, b@, old@).contains(n@)) by {
                        assert(a@[i as int].1@ == old@);
                    }
                    match &first {
                        None => {
                            first = Some(n.as_str().to_owned());
                        },
                        Some(f) => if !str_eq(f.as_str(), n.as_str()) {
                            multi = true;
                        },
                    }
                },
                None => {},
            }
        }
        proof {
            assert forall|n: Seq<char>| #[trigger]
                renamed_within(a@, b@, old@, i + 1).contains(n) implies renamed_within(a@, b@, old@, i as int).contains(
                n,
            ) || (a@[i as int].1@ == old@ && name_at(b@, a@[i as int].0@) == Some(n) && n != old@) by {
                let j = choose|j: int|
                    #![trigger a@[j]]
                    0 <= j < i + 1 && a@[j].1@ == old@ && name_at(b@, a@[j].0@) == Some(n) && n != old@;
                if j < i {
                    assert(renamed_within(a@, b@, old@, i as int).contains(n));
                }
            }
        }
        i = i + 1;
    }
    let ghost set = renamed_to(a@, b@, old@);
    match first {
        None => {
            proof {
                if exists|n: Seq<char>| set == set![n] {
                    let n = choose|n: Seq<char>| set == set![n];
                    assert(set.contains(n));
                }
            }
            None
        },
        Some(f) => {
            if multi {
                proof {
                    if exists|n: Seq<char>| set == set![n] {
                        let n = choose|n: Seq<char>| set == set![n];
                        let m = choose|m: Seq<char>| m != f@ && #[trigger] set.contains(m);
                        assert(set.contains(f@));
                        assert(f@ == n && m == n);
                    }
                }
                None
            } else {
                proof {
                    assert(set =~= set![f@]);
                    let n = choose|n: Seq<char>| set == set![n];
                    assert(set![n].contains(f@));
                }
                Some(f)
            }
        },
    }
}

} // verus!

verus! {

/// The renames whose old name is among the first `i` of `olds`.
pub open spec fn renames_within(
    a: Seq<(String, PageName)>,
    b: Seq<(String, PageName)>,
    olds: Seq<Seq<char>>,
    i: int,
) -> Set<(Seq<char>, Seq<char>)> {
    Set::new(
        |t: (Seq<char>, Seq<char>)|
            exists|j: int| #![trigger olds[j]] 0 <= j < i && olds[j] == t.0 && is_rename(a, b, t.0, t.1),
    )
}

/// Only names some base sheet carries can be renamed.
proof fn lemma_sole_rename_named(a: Seq<(String, PageName)>, b: Seq<(String, PageName)>, old: Seq<char>)
    requires
        sole_rename(a, b, old) is Some,
    ensures
        exists|i: int| #![trigger a[i]] 0 <= i < a.len() && a[i].1@ == old,
{
    let n = choose|n: Seq<char>| renamed_to(a, b, old) == set![n];
    assert(renamed_to(a, b, old).contains(n));
}

/// `rename_order` is a strict order.
proof fn lemma_rename_order()
    ensures
        strict_order(rename_order()),
{
    assert forall|x: (Seq<char>, Seq<char>)| !#[trigger] rename_order()(x, x) by {
        crate::text::lemma_seq_lt_irreflexive(x.0);
    }
    assert forall|x: (Seq<char>, Seq<char>), y: (Seq<char>, Seq<char>), z: (Seq<char>, Seq<char>)|
        #[trigger] rename_order()(x, y) && #[trigger] rename_order()(y, z) implies rename_order()(x, z) by {
        crate::text::lemma_seq_lt_transitive(x.0, y.0, z.0);
    }
}

/// The sheet renames between two revisions, given each side's sheet names
/// keyed by instance path. Sheets pair by their instance keys, which survive
/// both a new display name and a renamed file; anything ambiguous (a base
/// name going to several new names, a new name claimed twice, or a name a
/// kept page still owns) stays out and keeps the added/removed report.
pub fn sheet_renames(a: &Vec<(String, PageName)>, b: &Vec<(String, PageName)>) -> (renames: Vec<
    (PageName, PageName),
>)
    ensures
        renames_view(renames@) == renames_of(a@, b@),
{
    let mut olds: Vec<String> = Vec::new();
    let mut i: usize = 0;
    while i < a.len()
        invariant
            i <= a.len(),
            strictly_sorted(strings_view(olds@), text_order()),
            strings_view(olds@).to_set() == Set::new(
                |o: Seq<char>| exists|j: int| #![trigger a@[j]] 0 <= j < i && a@[j].1@ == o,
            ),
        decreases a.len() - i,
    {
        let s = a[i].1.as_str().to_owned();
        insert_text(&mut olds, &s);
        assert(strings_view(olds@).to_set() =~= Set::new(
            |o: Seq<char>| exists|j: int| #![trigger a@[j]] 0 <= j < i + 1 && a@[j].1@ == o,
        ));
        i = i + 1;
    }
    let ghost ov = strings_view(olds@);
    let mut soles: Vec<Option<String>> = Vec::new();
    let mut i: usize = 0;
    while i < olds.len()
        invariant
            i <= olds.len(),
            ov == strings_view(olds@),
            soles.len() == i,
            forall|j: int| 0 <= j < i ==> #[trigger] crate::semantic::part::opt_text(soles@[j]) == sole_rename(a@, b@, ov[j]),
        decreases olds.len() - i,
    {
        let s = sole_rename_exec(a, b, olds[i].as_str());
        soles.push(s);
        i = i + 1;
    }
    let mut renames: Vec<(PageName, PageName)> = Vec::new();
    let mut i: usize = 0;
    while i < olds.len()
        invariant
            i <= olds.len(),
            ov == strings_view(olds@),
            strictly_sorted(ov, text_order()),
            ov.to_set() == Set::new(|o: Seq<char>| exists|j: int| #![trigger a@[j]] 0 <= j < a.len() && a@[j].1@ == o),
            soles.len() == olds.len(),
            forall|j: int| 0 <= j < olds.len() ==> #[trigger] crate::semantic::part::opt_text(soles@[j]) == sole_rename(a@, b@, ov[j]),
            strictly_sorted(renames_view(renames@), rename_order()),
            forall|k: int| 0 <= k < renames.len() ==> exists|j: int| 0 <= j < i && #[trigger] renames_view(renames@)[k].0 == ov[j],
            renames_view(renames@).to_set() == renames_within(a@, b@, ov, i as int),
        decreases olds.len() - i,
    {
        let ghost before = renames_view(renames@);
        match &soles[i] {
            Some(n) => {
                let mut unique = !is_kept(a, b, n.as_str());
                let mut j: usize = 0;
                while j < soles.len()
                    invariant
                        j <= soles.len(),
                        i < soles.len(),
                        unique ==> !kept_names(a@, b@).contains(n@),
                        unique ==> forall|q: int| 0 <= q < j && q != i ==> #[trigger] crate::semantic::part::opt_text(soles@[q]) != Some(n@),
                        !unique ==> (kept_names(a@, b@).contains(n@) || exists|q: int| 0 <= q < j && q != i && #[trigger] crate::semantic::part::opt_text(soles@[q]) == Some(n@)),
                    decreases soles.len() - j,
                {
                    if j != i {
                        match &soles[j] {
                            Some(m) => if str_eq(m.as_str(), n.as_str()) {
                                unique = false;
                                assert(crate::semantic::part::opt_text(soles@[j as int]) == Some(n@));
                            },
                            None => {},
                        }
                    }
                    j = j + 1;
                }
                proof {
                    assert(crate::semantic::part::opt_text(soles@[i as int]) == Some(n@));
                    assert(sole_rename(a@, b@, ov[i as int]) == Some(n@));
                    if unique {
                        assert forall|o: Seq<char>| o != ov[i as int] implies sole_rename(a@, b@, o) != Some(n@) by {
                            if sole_rename(a@, b@, o) == Some(n@) {
                                lemma_sole_rename_named(a@, b@, o);
                                assert(ov.to_set().contains(o));
                                let q = choose|q: int| 0 <= q < ov.len() && ov[q] == o;
                                assert(crate::semantic::part::opt_text(soles@[q]) == sole_rename(a@, b@, ov[q]));
                            }
                        }
                        assert(is_rename(a@, b@, ov[i as int], n@));
                    } else {
                        if kept_names(a@, b@).contains(n@) {
                        } else {
                            let q = choose|q: int| 0 <= q < soles.len() && q != i && #[trigger] crate::semantic::part::opt_text(soles@[q]) == Some(n@);
                            assert(sole_rename(a@, b@, ov[q]) == Some(n@));
                            assert(ov[q] != ov[i as int]) by {
                                if q < i {
                                    assert(text_order()(ov[q], ov[i as int]));
                                    crate::text::lemma_seq_lt_irreflexive(ov[q]);
                                } else {
                                    assert(text_order()(ov[i as int], ov[q]));
                                    crate::text::lemma_seq_lt_irreflexive(ov[q]);
                                }
                            }
                        }
                        assert forall|m: Seq<char>| !is_rename(a@, b@, ov[i as int], m) by {
                            if is_rename(a@, b@, ov[i as int], m) {
                                assert(m == n@);
                            }
                        }
                    }
                }
                if unique {
                    let old_name = PageName::new(olds[i].as_str());
                    let new_name = PageName::new(n.as_str());
                    renames.push((old_name, new_name));
                    proof {
                        let nv = renames_view(renames@);
                        assert(nv =~= before.push((ov[i as int], n@)));
                        assert forall|x: int, y: int| 0 <= x < y < nv.len() implies rename_order()(nv[x], nv[y]) by {
                            if y == nv.len() - 1 {
                                let j = choose|j: int| 0 <= j < i && #[trigger] before[x].0 == ov[j];
                                assert(text_order()(ov[j], ov[i as int]));
                            }
                        }
                        lemma_push_set(before, (ov[i as int], n@));
                        assert(nv.to_set() =~= renames_within(a@, b@, ov, i + 1)) by {
                            assert forall|t: (Seq<char>, Seq<char>)| nv.to_set().contains(t) == renames_within(a@, b@, ov, i + 1).contains(t) by {
                                if renames_within(a@, b@, ov, i + 1).contains(t) {
                                    let j = choose|j: int| #![trigger ov[j]] 0 <= j < i + 1 && ov[j] == t.0 && is_rename(a@, b@, t.0, t.1);
                                    if j == i {
                                        assert(t.1 == n@);
                                    } else {
                                        assert(before.to_set().contains(t));
                                    }
                                }
                            }
                        }
                        assert forall|k: int| 0 <= k < nv.len() implies exists|j: int| 0 <= j < i + 1 && #[trigger] nv[k].0 == ov[j] by {
                            if k < before.len() {
                                let j = choose|j: int| 0 <= j < i && #[trigger] before[k].0 == ov[j];
                                assert(nv[k].0 == ov[j]);
                            } else {
                                assert(nv[k].0 == ov[i as int]);
                            }
                        }
                    }
                } else {
                    proof {
                        assert(renames_view(renames@).to_set() =~= renames_within(a@, b@, ov, i + 1)) by {
                            assert forall|t: (Seq<char>, Seq<char>)| renames_within(a@, b@, ov, i + 1).contains(t) implies renames_view(renames@).to_set().contains(t) by {
                                let j = choose|j: int| #![trigger ov[j]] 0 <= j < i + 1 && ov[j] == t.0 && is_rename(a@, b@, t.0, t.1);
                                if j == i {
                                    assert(!is_rename(a@, b@, ov[i as int], t.1));
                                }
                            }
                        }
                    }
                }
            },
            None => {
                proof {
                    assert(sole_rename(a@, b@, ov[i as int]) is None);
                    assert(renames_view(renames@).to_set() =~= renames_within(a@, b@, ov, i + 1)) by {
                        assert forall|t: (Seq<char>, Seq<char>)| renames_within(a@, b@, ov, i + 1).contains(t) implies renames_view(renames@).to_set().contains(t) by {
                            let j = choose|j: int| #![trigger ov[j]] 0 <= j < i + 1 && ov[j] == t.0 && is_rename(a@, b@, t.0, t.1);
                            if j == i {
                                assert(false);
                            }
                        }
                    }
                }
            },
        }
        i = i + 1;
    }
    proof {
        let rv = renames_view(renames@);
        let set = Set::new(|t: (Seq<char>, Seq<char>)| is_rename(a@, b@, t.0, t.1));
        assert forall|t: (Seq<char>, Seq<char>)| rv.to_set().contains(t) <==> set.contains(t) by {
            if set.contains(t) {
                lemma_sole_rename_named(a@, b@, t.0);
                assert(ov.to_set().contains(t.0));
                let j = choose|j: int| 0 <= j < ov.len() && ov[j] == t.0;
                assert(is_rename(a@, b@, t.0, t.1));
            }
        }
        assert(rv.to_set() =~= set);
        lemma_rename_order();
        crate::order::lemma_is_sorted_seq_of(rv, set, rename_order());
    }
    renames
}

/// Pushing an element adds it to the sequence's set.
proof fn lemma_push_set<T>(s: Seq<T>, x: T)
    ensures
        s.push(x).to_set() == s.to_set().insert(x),
{
    crate::order::lemma_push_to_set(s, x);
}

} // verus!

verus! {

/// A board's bounding box, in nanometres.
#[derive(Clone, Copy, PartialEq, Eq, Debug, Structural)]
pub struct Bbox {
    pub min_x: i32,
    pub min_y: i32,
    pub max_x: i32,
    pub max_y: i32,
}

/// A location as fractions of a bounding box's width and height; none
/// without a location, a box, or a box with extent.
pub open spec fn frac_in(at: Option<Point>, bbox: Option<Bbox>) -> Option<Frac> {
    match (at, bbox) {
        (Some(p), Some(b)) => if b.max_x > b.min_x && b.max_y > b.min_y {
            Some(
                Frac {
                    x: Ratio { num: (p.x - b.min_x) as i64, den: (b.max_x - b.min_x) as i64 },
                    y: Ratio { num: (p.y - b.min_y) as i64, den: (b.max_y - b.min_y) as i64 },
                },
            )
        } else {
            None
        },
        _ => None,
    }
}

/// A location as fractions of a bounding box.
fn to_frac(at: Option<Point>, bbox: Option<Bbox>) -> (r: Option<Frac>)
    ensures
        r == frac_in(at, bbox),
{
    match (at, bbox) {
        (Some(p), Some(b)) => if b.max_x > b.min_x && b.max_y > b.min_y {
            Some(
                Frac {
                    x: Ratio { num: p.x as i64 - b.min_x as i64, den: b.max_x as i64 - b.min_x as i64 },
                    y: Ratio { num: p.y as i64 - b.min_y as i64, den: b.max_y as i64 - b.min_y as i64 },
                },
            )
        } else {
            None
        },
        _ => None,
    }
}

/// A board change located within each side's board box.
pub open spec fn boxed(c: ChangeView, bbox_a: Option<Bbox>, bbox_b: Option<Bbox>) -> ChangeView {
    ChangeView { frac_base: frac_in(c.at_base, bbox_a), frac_head: frac_in(c.at_head, bbox_b), ..c }
}

/// The board changes between two revisions, each located as fractions of
/// its side's board box (the extent the layer images are fit to).
pub open spec fn pcb_changes(
    project: Seq<char>,
    a: Seq<(EntityId, Entity)>,
    b: Seq<(EntityId, Entity)>,
    bbox_a: Option<Bbox>,
    bbox_b: Option<Bbox>,
) -> Seq<ChangeView> {
    entity_changes(project, Kind::Pcb, a, b).map_values(|c: ChangeView| boxed(c, bbox_a, bbox_b))
}

/// Diffs the footprints of two boards (each side's footprints in key order,
/// with its board box): the part diff, with each change located as
/// fractions of its side's board box; also the part total per copper layer.
pub fn diff_pcb(
    project: &ProjectLabel,
    a: &Vec<(EntityId, Entity)>,
    b: &Vec<(EntityId, Entity)>,
    bbox_a: Option<Bbox>,
    bbox_b: Option<Bbox>,
) -> (r: (Vec<Change>, Vec<(PageName, usize)>))
    requires
        a.len() + b.len() <= usize::MAX,
    ensures
        changes_view(r.0@) == pcb_changes(project@, a@, b@, bbox_a, bbox_b),
        totals_view(r.1@) == part_totals_of(a@, b@, Kind::Pcb),
{
    let changes = diff_entities(project, Kind::Pcb, a, b);
    let ghost cv = changes_view(changes@);
    let mut out: Vec<Change> = Vec::new();
    let mut i: usize = 0;
    while i < changes.len()
        invariant
            i <= changes.len(),
            cv == changes_view(changes@),
            changes_view(out@) == cv.take(i as int).map_values(|c: ChangeView| boxed(c, bbox_a, bbox_b)),
        decreases changes.len() - i,
    {
        let mut c = crate::semantic::clone_change(&changes[i]);
        c.frac_base = to_frac(c.at_base, bbox_a);
        c.frac_head = to_frac(c.at_head, bbox_b);
        let ghost before = changes_view(out@);
        out.push(c);
        proof {
            assert(cv[i as int] == changes@[i as int]@);
            assert(changes_view(out@) =~= before.push(boxed(cv[i as int], bbox_a, bbox_b)));
            assert(cv.take(i + 1).map_values(|c: ChangeView| boxed(c, bbox_a, bbox_b)) =~= cv.take(
                i as int,
            ).map_values(|c: ChangeView| boxed(c, bbox_a, bbox_b)).push(boxed(cv[i as int], bbox_a, bbox_b)));
        }
        i = i + 1;
    }
    assert(cv.take(changes.len() as int) == cv);
    let totals = part_totals(a, b, Kind::Pcb);
    (out, totals)
}

} // verus!

verus! {

/// The head name `renames` gives base sheet `s` (its first pair for `s`).
pub open spec fn rename_of(renames: Seq<(PageName, PageName)>, s: Seq<char>) -> Option<PageName>
    decreases renames.len(),
{
    if renames.len() == 0 {
        None
    } else {
        match rename_of(renames.drop_last(), s) {
            Some(n) => Some(n),
            None => if renames.last().0@ == s {
                Some(renames.last().1)
            } else {
                None
            },
        }
    }
}

/// A base part with its sheet under the sheet's head name.
pub open spec fn renamed_part(e: Entity, renames: Seq<(PageName, PageName)>) -> Entity {
    match e.sheet {
        Some(s) => match rename_of(renames, s@) {
            Some(n) => Entity { sheet: Some(n), ..e },
            None => e,
        },
        None => e,
    }
}

/// The base parts with renamed sheets under their head names.
pub open spec fn renamed_parts(a: Seq<(EntityId, Entity)>, renames: Seq<(PageName, PageName)>) -> Seq<
    (EntityId, Entity),
> {
    a.map_values(|p: (EntityId, Entity)| (p.0, renamed_part(p.1, renames)))
}

/// Rows order by sheet (absent first), then reference.
pub open spec fn place_lt(x: ChangeView, y: ChangeView) -> bool {
    opt_lt(x.sheet, y.sheet) || (x.sheet == y.sheet && seq_lt(x.reference, y.reference))
}

/// Where a stable insertion puts `x` into the ordered `t`: after every row
/// it does not sort before.
pub open spec fn insert_pos(t: Seq<ChangeView>, x: ChangeView) -> int
    decreases t.len(),
{
    if t.len() == 0 {
        0
    } else if place_lt(x, t.last()) {
        insert_pos(t.drop_last(), x)
    } else {
        t.len() as int
    }
}

/// The rows stably sorted by sheet and reference: rows that tie keep
/// their order.
pub open spec fn place_sorted(s: Seq<ChangeView>) -> Seq<ChangeView>
    decreases s.len(),
{
    if s.len() == 0 {
        s
    } else {
        let t = place_sorted(s.drop_last());
        t.insert(insert_pos(t, s.last()), s.last())
    }
}

/// `insert_pos` lies within the sequence.
proof fn lemma_insert_pos(t: Seq<ChangeView>, x: ChangeView)
    ensures
        0 <= insert_pos(t, x) <= t.len(),
    decreases t.len(),
{
    if t.len() > 0 {
        lemma_insert_pos(t.drop_last(), x);
    }
}

/// `place_sorted` keeps the length.
proof fn lemma_place_sorted_len(s: Seq<ChangeView>)
    ensures
        place_sorted(s).len() == s.len(),
    decreases s.len(),
{
    if s.len() > 0 {
        lemma_place_sorted_len(s.drop_last());
        lemma_insert_pos(place_sorted(s.drop_last()), s.last());
    }
}

/// Whether row `x` sorts before row `y` by sheet and reference.
fn place_lt_exec(x: &Change, y: &Change) -> (r: bool)
    ensures
        r == place_lt(x@, y@),
{
    opt_page_lt(&x.sheet, &y.sheet) || (opt_page_eq(&x.sheet, &y.sheet) && str_lt(
        x.reference.as_str(),
        y.reference.as_str(),
    ))
}

/// The rows stably sorted by sheet and reference.
fn place_sort(rows: Vec<Change>) -> (out: Vec<Change>)
    ensures
        changes_view(out@) == place_sorted(changes_view(rows@)),
{
    let ghost rv = changes_view(rows@);
    let mut out: Vec<Change> = Vec::new();
    let mut k: usize = 0;
    while k < rows.len()
        invariant
            k <= rows.len(),
            rv == changes_view(rows@),
            changes_view(out@) == place_sorted(rv.take(k as int)),
        decreases rows.len() - k,
    {
        let ghost ov = changes_view(out@);
        let c = crate::semantic::clone_change(&rows[k]);
        let ghost cv = c@;
        proof {
            assert(cv == rv[k as int]);
            lemma_place_sorted_len(rv.take(k as int));
        }
        let mut j: usize = out.len();
        assert(ov.take(j as int) == ov);
        while j > 0 && place_lt_exec(&c, &out[j - 1])
            invariant
                j <= out.len(),
                ov == changes_view(out@),
                cv == c@,
                insert_pos(ov, cv) == insert_pos(ov.take(j as int), cv),
            decreases j,
        {
            proof {
                assert(ov.take(j as int).drop_last() == ov.take(j - 1));
                assert(ov.take(j as int).last() == out@[j - 1]@);
            }
            j = j - 1;
        }
        proof {
            if j > 0 {
                assert(ov.take(j as int).last() == out@[j - 1]@);
            }
            assert(insert_pos(ov, cv) == j);
        }
        out.insert(j, c);
        proof {
            assert(rv.take(k + 1).drop_last() == rv.take(k as int));
            assert(rv.take(k + 1).last() == cv);
            assert(changes_view(out@) =~= ov.insert(j as int, cv));
        }
        k = k + 1;
    }
    assert(rv.take(rows.len() as int) == rv);
    out
}

/// The schematic changes between two revisions: the part diff of the base
/// parts (sheets under their head names) against the head parts, plus, when
/// both sides' nets are given, the connectivity changes, all stably ordered
/// by sheet and reference.
pub open spec fn sch_changes(
    project: Seq<char>,
    a: Seq<(EntityId, Entity)>,
    b: Seq<(EntityId, Entity)>,
    nets: Option<(Seq<Net>, Seq<Net>)>,
    renames: Seq<(PageName, PageName)>,
) -> Seq<ChangeView> {
    let ra = renamed_parts(a, renames);
    let parts = entity_changes(project, Kind::Sch, ra, b);
    match nets {
        Some((na, nb)) => place_sorted(
            parts + connectivity_changes(ConnInput { ea: ra, eb: b, nets_a: na, nets_b: nb }, project),
        ),
        None => parts,
    }
}

/// Diffs the symbols of two schematic hierarchies (each side's parts in key
/// order), with renamed base sheets taken under their head names, plus
/// electrical connectivity when both sides' nets are given; also the part
/// total per sheet.
pub fn diff_schematics(
    project: &ProjectLabel,
    a: Vec<(EntityId, Entity)>,
    b: &Vec<(EntityId, Entity)>,
    nets: Option<(&Vec<Net>, &Vec<Net>)>,
    renames: &Vec<(PageName, PageName)>,
) -> (r: (Vec<Change>, Vec<(PageName, usize)>))
    requires
        a.len() + b.len() <= usize::MAX,
    ensures
        changes_view(r.0@) == sch_changes(
            project@,
            a@,
            b@,
            match nets {
                Some((na, nb)) => Some((na@, nb@)),
                None => None,
            },
            renames@,
        ),
        totals_view(r.1@) == part_totals_of(renamed_parts(a@, renames@), b@, Kind::Sch),
{
    let mut a = a;
    let ghost orig = a@;
    let mut i: usize = 0;
    while i < a.len()
        invariant
            i <= a.len(),
            a.len() == orig.len(),
            forall|j: int| 0 <= j < i ==> #[trigger] a@[j] == (orig[j].0, renamed_part(orig[j].1, renames@)),
            forall|j: int| i <= j < a.len() ==> #[trigger] a@[j] == orig[j],
        decreases a.len() - i,
    {
        let target = match &a[i].1.sheet {
            Some(s) => rename_lookup(renames, s.as_str()),
            None => None,
        };
        match target {
            Some(n) => {
                a[i].1.sheet = Some(n);
            },
            None => {},
        }
        i = i + 1;
    }
    assert(a@ =~= renamed_parts(orig, renames@));
    let changes = diff_entities(project, Kind::Sch, &a, b);
    let changes = match nets {
        Some((na, nb)) => {
            let mut all = changes;
            let mut conn = diff_connectivity(project, na, nb, &a, b);
            let ghost first = changes_view(all@);
            let ghost second = changes_view(conn@);
            all.append(&mut conn);
            assert(changes_view(all@) =~= first + second);
            place_sort(all)
        },
        None => changes,
    };
    let totals = part_totals(&a, b, Kind::Sch);
    (changes, totals)
}

/// `rename_of` is settled by the first pairs once they hold the name.
proof fn lemma_rename_of_prefix(m: Seq<(PageName, PageName)>, n: int, s: Seq<char>)
    requires
        0 <= n <= m.len(),
        rename_of(m.take(n), s) is Some,
    ensures
        rename_of(m, s) == rename_of(m.take(n), s),
    decreases m.len(),
{
    if n < m.len() {
        assert(m.drop_last().take(n) == m.take(n));
        lemma_rename_of_prefix(m.drop_last(), n, s);
    } else {
        assert(m.take(n) == m);
    }
}

/// The head name `renames` gives base sheet `s`.
fn rename_lookup(renames: &Vec<(PageName, PageName)>, s: &str) -> (r: Option<PageName>)
    ensures
        r == rename_of(renames@, s@),
{
    let mut i: usize = 0;
    while i < renames.len()
        invariant
            i <= renames.len(),
            rename_of(renames@.take(i as int), s@) is None,
        decreases renames.len() - i,
    {
        proof {
            assert(renames@.take(i + 1).drop_last() == renames@.take(i as int));
            assert(renames@.take(i + 1).last() == renames@[i as int]);
        }
        if str_eq(renames[i].0.as_str(), s) {
            proof {
                lemma_rename_of_prefix(renames@, i + 1, s@);
            }
            return Some(renames[i].1.clone());
        }
        i = i + 1;
    }
    assert(renames@.take(renames.len() as int) == renames@);
    None
}

} // verus!

verus! {

/// The set of renames is finite: each names a base sheet and its sole new name.
proof fn lemma_renames_finite(a: Seq<(String, PageName)>, b: Seq<(String, PageName)>)
    ensures
        Set::new(|t: (Seq<char>, Seq<char>)| is_rename(a, b, t.0, t.1)).finite(),
{
    let set = Set::new(|t: (Seq<char>, Seq<char>)| is_rename(a, b, t.0, t.1));
    let all = a.map_values(|e: (String, PageName)| (e.1@, sole_rename(a, b, e.1@).unwrap()));
    assert forall|t: (Seq<char>, Seq<char>)| set.contains(t) implies all.to_set().contains(t) by {
        lemma_sole_rename_named(a, b, t.0);
        let i = choose|i: int| #![trigger a[i]] 0 <= i < a.len() && a[i].1@ == t.0;
        assert(all[i] == t);
    }
    vstd::seq_lib::seq_to_set_is_finite(all);
    vstd::set_lib::lemma_len_subset(set, all.to_set());
}

/// Sheet renames are unambiguous: each changes the name, no two come from
/// the same old name or land on the same new one, and no rename touches a
/// name that a kept page still owns.
pub proof fn law_renames_are_unambiguous(a: Seq<(String, PageName)>, b: Seq<(String, PageName)>)
    ensures
        forall|i: int|
            0 <= i < renames_of(a, b).len() ==> (#[trigger] renames_of(a, b)[i]).0 != renames_of(a, b)[i].1
                && !kept_names(a, b).contains(renames_of(a, b)[i].0) && !kept_names(a, b).contains(
                renames_of(a, b)[i].1,
            ),
        forall|i: int, j: int|
            0 <= i < j < renames_of(a, b).len() ==> (#[trigger] renames_of(a, b)[i]).0 != (#[trigger] renames_of(
                a,
                b,
            )[j]).0 && renames_of(a, b)[i].1 != renames_of(a, b)[j].1,
{
    let set = Set::new(|t: (Seq<char>, Seq<char>)| is_rename(a, b, t.0, t.1));
    lemma_renames_finite(a, b);
    lemma_rename_order();
    assert(crate::order::total_on(set, rename_order())) by {
        assert forall|x: (Seq<char>, Seq<char>), y: (Seq<char>, Seq<char>)|
            set.contains(x) && set.contains(y) && x != y implies #[trigger] rename_order()(x, y) || rename_order()(
            y,
            x,
        ) by {
            crate::text::lemma_seq_lt_total(x.0, y.0);
        }
    }
    crate::order::lemma_sorted_seq_of_on(set, rename_order());
    let r = renames_of(a, b);
    assert forall|i: int| 0 <= i < r.len() implies (#[trigger] r[i]).0 != r[i].1 && !kept_names(a, b).contains(r[i].0)
        && !kept_names(a, b).contains(r[i].1) by {
        assert(r.to_set().contains(r[i]));
        let t = r[i];
        assert(is_rename(a, b, t.0, t.1));
        let n = choose|n: Seq<char>| renamed_to(a, b, t.0) == set![n];
        assert(renamed_to(a, b, t.0).contains(t.1));
    }
    assert forall|i: int, j: int| 0 <= i < j < r.len() implies (#[trigger] r[i]).0 != (#[trigger] r[j]).0 && r[i].1
        != r[j].1 by {
        assert(rename_order()(r[i], r[j]));
        assert(r.to_set().contains(r[i]) && r.to_set().contains(r[j]));
        if r[i].0 == r[j].0 {
            crate::text::lemma_seq_lt_irreflexive(r[i].0);
        }
        assert(is_rename(a, b, r[i].0, r[i].1) && is_rename(a, b, r[j].0, r[j].1));
    }
}

} // verus!

verus! {

/// `place_lt` orders rows by their (sheet, reference) place, totally.
proof fn lemma_place_lt(x: ChangeView, y: ChangeView, z: ChangeView)
    ensures
        !place_lt(x, x),
        place_lt(x, y) ==> !place_lt(y, x),
        place_lt(x, y) && place_lt(y, z) ==> place_lt(x, z),
        place_lt(x, y) || place_lt(y, x) || (x.sheet == y.sheet && x.reference == y.reference),
{
    crate::semantic::part::lemma_opt_lt(x.sheet, y.sheet, z.sheet);
    crate::semantic::part::lemma_opt_lt(y.sheet, x.sheet, z.sheet);
    crate::semantic::part::lemma_opt_lt(x.sheet, y.sheet, x.sheet);
    crate::text::lemma_seq_lt_irreflexive(x.reference);
    crate::text::lemma_seq_lt_total(x.reference, y.reference);
    if seq_lt(x.reference, y.reference) {
        crate::text::lemma_seq_lt_asymmetric(x.reference, y.reference);
    }
    if seq_lt(x.reference, y.reference) && seq_lt(y.reference, z.reference) {
        crate::text::lemma_seq_lt_transitive(x.reference, y.reference, z.reference);
    }
}

/// Where a stable insertion puts a row: every row after it sorts after the
/// row, and the one just before it does not.
proof fn lemma_insert_pos_facts(t: Seq<ChangeView>, x: ChangeView)
    ensures
        0 <= insert_pos(t, x) <= t.len(),
        forall|k: int| insert_pos(t, x) <= k < t.len() ==> place_lt(x, #[trigger] t[k]),
        insert_pos(t, x) > 0 ==> !place_lt(x, t[insert_pos(t, x) - 1]),
    decreases t.len(),
{
    if t.len() > 0 && place_lt(x, t.last()) {
        lemma_insert_pos_facts(t.drop_last(), x);
        assert forall|k: int| insert_pos(t, x) <= k < t.len() implies place_lt(x, #[trigger] t[k]) by {
            if k < t.len() - 1 {
                assert(t.drop_last()[k] == t[k]);
            }
        }
        if insert_pos(t, x) > 0 {
            assert(t.drop_last()[insert_pos(t, x) - 1] == t[insert_pos(t, x) - 1]);
        }
    }
}

/// Rows in place order: no row sorts before an earlier one.
pub open spec fn in_place_order(s: Seq<ChangeView>) -> bool {
    forall|i: int, j: int| 0 <= i < j < s.len() ==> !place_lt(#[trigger] s[j], #[trigger] s[i])
}

/// Schematic changes come ordered by sheet, then reference: the stable
/// sort leaves no row before an earlier one, and keeps every row.
pub proof fn law_place_sort_orders(s: Seq<ChangeView>)
    ensures
        in_place_order(place_sorted(s)),
        place_sorted(s).len() == s.len(),
    decreases s.len(),
{
    if s.len() > 0 {
        law_place_sort_orders(s.drop_last());
        let t = place_sorted(s.drop_last());
        let x = s.last();
        lemma_insert_pos_facts(t, x);
        let p = insert_pos(t, x);
        let r = t.insert(p, x);
        assert(place_sorted(s) == r);
        assert forall|i: int, j: int| 0 <= i < j < r.len() implies !place_lt(#[trigger] r[j], #[trigger] r[i]) by {
            if j < p {
                assert(r[i] == t[i] && r[j] == t[j]);
            } else if i < p && j == p {
                assert(r[i] == t[i] && r[j] == x);
                assert(!place_lt(x, t[p - 1]));
                if i < p - 1 {
                    assert(!place_lt(t[p - 1], t[i]));
                    lemma_place_lt(x, t[p - 1], t[i]);
                    lemma_place_lt(t[p - 1], t[i], x);
                    lemma_place_lt(x, t[i], t[p - 1]);
                    lemma_place_lt(t[i], x, t[p - 1]);
                    lemma_place_lt(t[p - 1], x, t[i]);
                    lemma_place_lt(t[i], t[p - 1], x);
                }
            } else if i < p {
                assert(r[i] == t[i] && r[j] == t[j - 1]);
            } else if i == p {
                assert(r[i] == x && r[j] == t[j - 1]);
                assert(place_lt(x, t[j - 1]));
                lemma_place_lt(x, t[j - 1], x);
            } else {
                assert(r[i] == t[i - 1] && r[j] == t[j - 1]);
            }
        }
    }
}

} // verus!
