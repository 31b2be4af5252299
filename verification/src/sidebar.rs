//! Contains all data to be displayed in the sidebar.
//!
//! The sidebar only needs to be rendered in the frontend, the contents are
//! static. Thus the contents can be pre-generated, with ordering and all.

use vstd::prelude::*;

use crate::ids::{PageName, ProjectLabel, Reference};
use crate::kicad::{kind_name, status_name, Kind, Page, Status};
use crate::order::{sorted_seq_of, strict_order, strictly_sorted};
use crate::semantic::{change_kind_name, changes_view, Change, ChangeKind, ChangeView};
use crate::text::{chars_of, decimal, decimal_chars, push_chars, push_str, str_eq, string_of};

verus! {

/// The first position of `pages` whose page satisfies `pred`.
pub open spec fn first_where(pages: Seq<Page>, pred: spec_fn(Page) -> bool) -> Option<int>
    decreases pages.len(),
{
    if pages.len() == 0 {
        None
    } else {
        match first_where(pages.drop_last(), pred) {
            Some(i) => Some(i),
            None => if pred(pages.last()) {
                Some(pages.len() - 1)
            } else {
                None
            },
        }
    }
}

/// A page of `project` and `kind` named `name` (never, without a name).
pub open spec fn named(project: Seq<char>, kind: Kind, name: Option<Seq<char>>) -> spec_fn(Page) -> bool {
    |p: Page| p.project@ == project && p.kind == kind && name == Some(p.name@)
}

/// A board page of `project`.
pub open spec fn board_of(project: Seq<char>) -> spec_fn(Page) -> bool {
    |p: Page| p.project@ == project && p.kind == Kind::Pcb
}

/// The page a change lives under, which is also where clicking it
/// navigates: the sheet for schematic changes, the part's copper layer for
/// board changes (or the board's first page when that layer is not in the
/// report).
pub open spec fn home(c: ChangeView, pages: Seq<Page>) -> Option<int> {
    if c.scope == Kind::Sch {
        first_where(pages, named(c.project, Kind::Sch, c.sheet))
    } else {
        match first_where(pages, named(c.project, Kind::Pcb, c.layer)) {
            Some(i) => Some(i),
            None => first_where(pages, board_of(c.project)),
        }
    }
}

/// How early a change sorts within its page: the ones that move no pixel
/// come first, since they are the ones a visual diff cannot show you.
pub open spec fn rank_of(kind: ChangeKind) -> int {
    match kind {
        ChangeKind::PropertyChanged => 0,
        ChangeKind::NetChanged => 1,
        _ => 2,
    }
}

/// Changes order by rank, then by position.
pub open spec fn sneak_order(cs: Seq<ChangeView>) -> spec_fn(int, int) -> bool {
    |i: int, j: int| rank_of(cs[i].kind) < rank_of(cs[j].kind) || (rank_of(cs[i].kind) == rank_of(cs[j].kind) && i < j)
}

/// The changes living under page `p`, sneakiest first, ties in list order.
pub open spec fn page_changes(pages: Seq<Page>, cs: Seq<ChangeView>, p: int) -> Seq<int> {
    sorted_seq_of(Set::new(|i: int| 0 <= i < cs.len() && home(cs[i], pages) == Some(p)), sneak_order(cs))
}

/// How early a change sorts within its page.
fn rank(kind: ChangeKind) -> (r: u8)
    ensures
        r == rank_of(kind),
{
    match kind {
        ChangeKind::PropertyChanged => 0,
        ChangeKind::NetChanged => 1,
        _ => 2,
    }
}

/// `first_where` is settled by the first pages once they hold a match.
proof fn lemma_first_where_prefix(pages: Seq<Page>, n: int, pred: spec_fn(Page) -> bool)
    requires
        0 <= n <= pages.len(),
        first_where(pages.take(n), pred) is Some,
    ensures
        first_where(pages, pred) == first_where(pages.take(n), pred),
    decreases pages.len(),
{
    if n < pages.len() {
        assert(pages.drop_last().take(n) == pages.take(n));
        lemma_first_where_prefix(pages.drop_last(), n, pred);
    } else {
        assert(pages.take(n) == pages);
    }
}

/// Whether a page is `project`'s page of `kind` named `name`.
fn is_named(page: &Page, project: &ProjectLabel, kind: Kind, name: &Option<PageName>) -> (r: bool)
    ensures
        r == named(project@, kind, crate::semantic::page_view(*name))(*page),
{
    match name {
        Some(n) => str_eq(page.project.as_str(), project.as_str()) && page.kind == kind && str_eq(
            n.as_str(),
            page.name.as_str(),
        ),
        None => false,
    }
}

/// The first page of `project` and `kind` named `name`.
fn find_named(pages: &Vec<Page>, project: &ProjectLabel, kind: Kind, name: &Option<PageName>) -> (r: Option<usize>)
    ensures
        match r {
            Some(i) => first_where(pages@, named(project@, kind, crate::semantic::page_view(*name))) == Some(
                i as int,
            ),
            None => first_where(pages@, named(project@, kind, crate::semantic::page_view(*name))) is None,
        },
{
    let ghost pred = named(project@, kind, crate::semantic::page_view(*name));
    let mut i: usize = 0;
    while i < pages.len()
        invariant
            i <= pages.len(),
            pred == named(project@, kind, crate::semantic::page_view(*name)),
            first_where(pages@.take(i as int), pred) is None,
        decreases pages.len() - i,
    {
        proof {
            assert(pages@.take(i + 1).drop_last() == pages@.take(i as int));
            assert(pages@.take(i + 1).last() == pages@[i as int]);
        }
        if is_named(&pages[i], project, kind, name) {
            proof {
                lemma_first_where_prefix(pages@, i + 1, pred);
            }
            return Some(i);
        }
        i = i + 1;
    }
    assert(pages@.take(pages.len() as int) == pages@);
    None
}

/// The first board page of `project`.
fn find_board(pages: &Vec<Page>, project: &ProjectLabel) -> (r: Option<usize>)
    ensures
        match r {
            Some(i) => first_where(pages@, board_of(project@)) == Some(i as int),
            None => first_where(pages@, board_of(project@)) is None,
        },
{
    let ghost pred = board_of(project@);
    let mut i: usize = 0;
    while i < pages.len()
        invariant
            i <= pages.len(),
            pred == board_of(project@),
            first_where(pages@.take(i as int), pred) is None,
        decreases pages.len() - i,
    {
        proof {
            assert(pages@.take(i + 1).drop_last() == pages@.take(i as int));
            assert(pages@.take(i + 1).last() == pages@[i as int]);
        }
        if str_eq(pages[i].project.as_str(), project.as_str()) && pages[i].kind == Kind::Pcb {
            proof {
                lemma_first_where_prefix(pages@, i + 1, pred);
            }
            return Some(i);
        }
        i = i + 1;
    }
    assert(pages@.take(pages.len() as int) == pages@);
    None
}

/// The page a change lives under.
fn home_of(change: &Change, pages: &Vec<Page>) -> (r: Option<usize>)
    ensures
        match r {
            Some(i) => home(change@, pages@) == Some(i as int),
            None => home(change@, pages@) is None,
        },
{
    if change.scope == Kind::Sch {
        return find_named(pages, &change.project, Kind::Sch, &change.sheet);
    }
    match find_named(pages, &change.project, Kind::Pcb, &change.layer) {
        Some(i) => Some(i),
        None => find_board(pages, &change.project),
    }
}

} // verus!

verus! {

/// `sneak_order` is a strict order.
proof fn lemma_sneak_order(cs: Seq<ChangeView>)
    ensures
        strict_order(sneak_order(cs)),
{
}

/// The positions in a list of indices, as integers.
pub open spec fn ints(v: Seq<usize>) -> Seq<int> {
    v.map_values(|x: usize| x as int)
}

/// The changes living under page `p`, sneakiest first, given each change's home.
fn page_list(cs: &Vec<Change>, homes: &Vec<Option<usize>>, pages: &Vec<Page>, p: usize) -> (list: Vec<usize>)
    requires
        homes.len() == cs.len(),
        forall|i: int|
            0 <= i < cs.len() ==> match #[trigger] homes@[i] {
                Some(h) => home(cs@[i]@, pages@) == Some(h as int),
                None => home(cs@[i]@, pages@) is None,
            },
    ensures
        ints(list@) == page_changes(pages@, changes_view(cs@), p as int),
        forall|k: int| 0 <= k < list.len() ==> list@[k] < cs.len(),
{
    let ghost cv = changes_view(cs@);
    let ghost ord = sneak_order(cv);
    let mut list: Vec<usize> = Vec::new();
    let mut i: usize = 0;
    while i < cs.len()
        invariant
            i <= cs.len(),
            homes.len() == cs.len(),
            cv == changes_view(cs@),
            ord == sneak_order(cv),
            forall|q: int|
                0 <= q < cs.len() ==> match #[trigger] homes@[q] {
                    Some(h) => home(cs@[q]@, pages@) == Some(h as int),
                    None => home(cs@[q]@, pages@) is None,
                },
            strictly_sorted(ints(list@), ord),
            forall|k: int| 0 <= k < list.len() ==> list@[k] < i,
            ints(list@).to_set() == Set::new(|q: int| 0 <= q < i && home(cv[q], pages@) == Some(p as int)),
        decreases cs.len() - i,
    {
        let ghost lv = ints(list@);
        let here = match homes[i] {
            Some(h) => h == p,
            None => false,
        };
        proof {
            assert(cv[i as int] == cs@[i as int]@);
        }
        if here {
            let r = rank(cs[i].kind);
            let mut j: usize = list.len();
            while j > 0 && rank(cs[list[j - 1]].kind) > r
                invariant
                    j <= list.len(),
                    lv == ints(list@),
                    forall|k: int| 0 <= k < list.len() ==> list@[k] < i,
                    i < cs.len(),
                    cv == changes_view(cs@),
                    r == rank_of(cv[i as int].kind),
                    forall|k: int| j <= k < list.len() ==> rank_of(cv[lv[k]].kind) > r,
                decreases j,
            {
                proof {
                    assert(cv[list@[j - 1] as int] == cs@[list@[j - 1] as int]@);
                }
                j = j - 1;
            }
            proof {
                if j > 0 {
                    assert(cv[list@[j - 1] as int] == cs@[list@[j - 1] as int]@);
                }
            }
            list.insert(j, i);
            proof {
                let nv = ints(list@);
                assert(nv =~= lv.insert(j as int, i as int));
                assert forall|x: int, y: int| 0 <= x < y < nv.len() implies ord(nv[x], nv[y]) by {
                    if y < j {
                        assert(ord(lv[x], lv[y]));
                    } else if x < j && y == j {
                        assert(rank_of(cv[lv[j - 1]].kind) <= r);
                        if x < j - 1 {
                            assert(ord(lv[x], lv[j - 1]));
                        }
                    } else if x < j {
                        assert(ord(lv[x], lv[y - 1]));
                    } else if x == j {
                        assert(rank_of(cv[lv[y - 1]].kind) > r);
                    } else {
                        assert(ord(lv[x - 1], lv[y - 1]));
                    }
                }
                crate::order::lemma_push_to_set(lv, i as int);
                assert(nv.to_set() =~= lv.push(i as int).to_set()) by {
                    assert forall|v: int| nv.to_set().contains(v) <==> lv.push(i as int).to_set().contains(v) by {
                        if nv.to_set().contains(v) {
                            let q = choose|q: int| 0 <= q < nv.len() && nv[q] == v;
                            if q < j {
                                assert(lv.push(i as int)[q] == v);
                            } else if q == j {
                                assert(lv.push(i as int)[lv.len() as int] == v);
                            } else {
                                assert(lv.push(i as int)[q - 1] == v);
                            }
                        }
                        if lv.push(i as int).to_set().contains(v) {
                            let q = choose|q: int| 0 <= q < lv.len() + 1 && lv.push(i as int)[q] == v;
                            if q == lv.len() {
                                assert(nv[j as int] == v);
                            } else if q < j {
                                assert(nv[q] == v);
                            } else {
                                assert(nv[q + 1] == v);
                            }
                        }
                    }
                }
            }
        }
        proof {
            assert(ints(list@).to_set() =~= Set::new(|q: int| 0 <= q < i + 1 && home(cv[q], pages@) == Some(p as int)));
        }
        i = i + 1;
    }
    proof {
        lemma_sneak_order(cv);
        crate::order::lemma_is_sorted_seq_of(
            ints(list@),
            Set::new(|q: int| 0 <= q < cs.len() && home(cv[q], pages@) == Some(p as int)),
            ord,
        );
    }
    list
}

} // verus!

verus! {

pub struct ProjectGroup {
    pub project: ProjectLabel,
    pub kinds: Vec<KindGroup>,
}

pub struct KindGroup {
    pub kind: Kind,
    /// Indices into the page list.
    pub pages: Vec<usize>,
}

/// The collapsible group of semantic changes under one page row.
pub struct ChangeGroup {
    pub page: usize,
    pub count: usize,
    /// The line that expands the group ("5 changes · 38% of parts changed").
    pub summary: String,
    pub parts: Vec<PartGroup>,
}

/// One part's changes: a header row carrying the reference, its changes beneath.
pub struct PartGroup {
    pub reference: Reference,
    pub status: Status,
    pub rows: Vec<Row>,
}

pub struct Row {
    /// Index into the change list.
    pub change: usize,
    /// Badge class, or `None` when the header badge already says it.
    pub badge: Option<&'static str>,
}

/// What a row says.
pub struct RowView {
    pub change: int,
    pub badge: Option<Seq<char>>,
}

/// What a part group says.
pub struct PartGroupView {
    pub reference: Seq<char>,
    pub status: Status,
    pub rows: Seq<RowView>,
}

/// What a change group says.
pub struct ChangeGroupView {
    pub page: int,
    pub count: int,
    pub summary: Seq<char>,
    pub parts: Seq<PartGroupView>,
}

impl View for Row {
    type V = RowView;

    open spec fn view(&self) -> RowView {
        RowView {
            change: self.change as int,
            badge: match self.badge {
                Some(b) => Some(b@),
                None => None,
            },
        }
    }
}

impl View for PartGroup {
    type V = PartGroupView;

    open spec fn view(&self) -> PartGroupView {
        PartGroupView {
            reference: self.reference@,
            status: self.status,
            rows: self.rows@.map_values(|r: Row| r@),
        }
    }
}

impl View for ChangeGroup {
    type V = ChangeGroupView;

    open spec fn view(&self) -> ChangeGroupView {
        ChangeGroupView {
            page: self.page as int,
            count: self.count as int,
            summary: self.summary@,
            parts: self.parts@.map_values(|p: PartGroup| p@),
        }
    }
}

/// The badge a row gets under a part of `status`: none when the header
/// already says it (an added part's rows are all additions), else the
/// change's color class.
pub open spec fn badge_of(kind: ChangeKind, status: Status) -> Option<Seq<char>> {
    if change_kind_name(kind) == status_name(status) {
        None
    } else {
        Some(
            match kind {
                ChangeKind::Added => "added"@,
                ChangeKind::Removed => "removed"@,
                ChangeKind::NetChanged => "net"@,
                _ => "modified"@,
            },
        )
    }
}

/// A part's status after one more of its changes: an addition or removal
/// says so, anything else leaves it.
pub open spec fn status_after(s: Status, kind: ChangeKind) -> Status {
    match kind {
        ChangeKind::Added => Status::Added,
        ChangeKind::Removed => Status::Removed,
        _ => s,
    }
}

/// The first part (by reference) among grouped parts.
pub open spec fn find_part(g: Seq<(Seq<char>, Status, Seq<int>)>, r: Seq<char>) -> Option<int>
    decreases g.len(),
{
    if g.len() == 0 {
        None
    } else {
        match find_part(g.drop_last(), r) {
            Some(i) => Some(i),
            None => if g.last().0 == r {
                Some(g.len() - 1)
            } else {
                None
            },
        }
    }
}

/// The changes `idxs` grouped by part in encounter order: each part's
/// reference, status (modified unless an addition or removal says
/// otherwise, the last one winning) and change indices.
pub open spec fn part_rows(cs: Seq<ChangeView>, idxs: Seq<int>) -> Seq<(Seq<char>, Status, Seq<int>)>
    decreases idxs.len(),
{
    if idxs.len() == 0 {
        seq![]
    } else {
        let g = part_rows(cs, idxs.drop_last());
        let i = idxs.last();
        let c = cs[i];
        match find_part(g, c.reference) {
            Some(at) => g.update(at, (g[at].0, status_after(g[at].1, c.kind), g[at].2.push(i))),
            None => g.push((c.reference, status_after(Status::Modified, c.kind), seq![i])),
        }
    }
}

/// The part groups of the changes `idxs`, each row badged against its part's status.
pub open spec fn part_groups(cs: Seq<ChangeView>, idxs: Seq<int>) -> Seq<PartGroupView> {
    part_rows(cs, idxs).map_values(
        |g: (Seq<char>, Status, Seq<int>)|
            PartGroupView {
                reference: g.0,
                status: g.1,
                rows: g.2.map_values(|i: int| RowView { change: i, badge: badge_of(cs[i].kind, g.1) }),
            },
    )
}

/// The references with part changes (net changes aside) among `idxs`.
pub open spec fn changed_refs(cs: Seq<ChangeView>, idxs: Seq<int>) -> Set<Seq<char>> {
    Set::new(
        |r: Seq<char>|
            exists|k: int|
                #![trigger idxs[k]]
                0 <= k < idxs.len() && cs[idxs[k]].kind != ChangeKind::NetChanged && cs[idxs[k]].reference == r,
    )
}

/// Every change but a net change counts its part towards a page's share of
/// parts changed, whatever its kind (a property edit as much as a move), a
/// part once however many of its changes there are: no changes count no
/// part, and one more change adds its reference to those counted unless it
/// is a net change, which adds nothing.
pub proof fn law_part_changes_count_their_part(cs: Seq<ChangeView>, idxs: Seq<int>, i: int)
    ensures
        changed_refs(cs, Seq::<int>::empty()) == Set::<Seq<char>>::empty(),
        changed_refs(cs, idxs.push(i)) == (if cs[i].kind == ChangeKind::NetChanged {
            changed_refs(cs, idxs)
        } else {
            changed_refs(cs, idxs).insert(cs[i].reference)
        }),
{
    assert(changed_refs(cs, Seq::<int>::empty()) =~= Set::<Seq<char>>::empty());
    let n = idxs.push(i);
    let expect = if cs[i].kind == ChangeKind::NetChanged {
        changed_refs(cs, idxs)
    } else {
        changed_refs(cs, idxs).insert(cs[i].reference)
    };
    assert forall|r: Seq<char>| changed_refs(cs, n).contains(r) <==> expect.contains(r) by {
        if changed_refs(cs, n).contains(r) {
            let k = choose|k: int|
                #![trigger n[k]]
                0 <= k < n.len() && cs[n[k]].kind != ChangeKind::NetChanged && cs[n[k]].reference == r;
            if k < idxs.len() {
                assert(n[k] == idxs[k]);
            }
        }
        if changed_refs(cs, idxs).contains(r) {
            let k = choose|k: int|
                #![trigger idxs[k]]
                0 <= k < idxs.len() && cs[idxs[k]].kind != ChangeKind::NetChanged && cs[idxs[k]].reference == r;
            assert(n[k] == idxs[k]);
        }
        if cs[i].kind != ChangeKind::NetChanged && r == cs[i].reference {
            assert(n[idxs.len() as int] == i);
        }
    }
    assert(changed_refs(cs, n) =~= expect);
}

/// `k` of `total` as a whole percentage, rounded half up, at most 100.
pub open spec fn percent(k: nat, total: nat) -> nat {
    let p = (200 * k + total) / (2 * total);
    if p > 100 {
        100
    } else {
        p
    }
}

/// "1 change", or "N changes".
pub open spec fn count_text(n: nat) -> Seq<char> {
    if n == 1 {
        "1 change"@
    } else {
        decimal(n) + " changes"@
    }
}

/// The line that expands a group: the change count, and the share of the
/// page's parts changed when the page has a part total and some part
/// (not only nets) changed.
pub open spec fn summary_of(cs: Seq<ChangeView>, idxs: Seq<int>, parts: Option<usize>) -> Seq<char> {
    let k = changed_refs(cs, idxs).len();
    count_text(idxs.len()) + match parts {
        Some(t) => if t > 0 && k > 0 {
            " \u{b7} "@ + decimal(percent(k, t as nat)) + "% of parts changed"@
        } else {
            seq![]
        },
        None => seq![],
    }
}

/// The change group under page `page` for its changes `idxs`.
pub open spec fn change_group_of(page: int, entry: Page, idxs: Seq<int>, cs: Seq<ChangeView>) -> ChangeGroupView {
    ChangeGroupView {
        page,
        count: idxs.len() as int,
        summary: summary_of(cs, idxs, entry.parts),
        parts: part_groups(cs, idxs),
    }
}

/// The badge a row gets under a part of `status`.
fn badge_for(kind: ChangeKind, status: Status) -> (r: Option<&'static str>)
    ensures
        match r {
            Some(b) => badge_of(kind, status) == Some(b@),
            None => badge_of(kind, status) is None,
        },
{
    if str_eq(kind.as_str(), status.as_str()) {
        return None;
    }
    Some(
        match kind {
            ChangeKind::Added => "added",
            ChangeKind::Removed => "removed",
            ChangeKind::NetChanged => "net",
            _ => "modified",
        },
    )
}

} // verus!

verus! {

/// A part being grouped: its reference, status so far and change indices.
struct PartAcc {
    reference: Reference,
    status: Status,
    rows: Vec<usize>,
}

/// What a part being grouped says.
spec fn acc_view(a: Seq<PartAcc>) -> Seq<(Seq<char>, Status, Seq<int>)> {
    a.map_values(|p: PartAcc| (p.reference@, p.status, ints(p.rows@)))
}

/// `find_part` is settled by the first parts once they hold the reference.
proof fn lemma_find_part_prefix(g: Seq<(Seq<char>, Status, Seq<int>)>, n: int, r: Seq<char>)
    requires
        0 <= n <= g.len(),
        find_part(g.take(n), r) is Some,
    ensures
        find_part(g, r) == find_part(g.take(n), r),
    decreases g.len(),
{
    if n < g.len() {
        assert(g.drop_last().take(n) == g.take(n));
        lemma_find_part_prefix(g.drop_last(), n, r);
    } else {
        assert(g.take(n) == g);
    }
}

/// The part carrying reference `r`.
fn find_part_exec(acc: &Vec<PartAcc>, r: &Reference) -> (at: Option<usize>)
    ensures
        match at {
            Some(k) => find_part(acc_view(acc@), r@) == Some(k as int) && k < acc.len(),
            None => find_part(acc_view(acc@), r@) is None,
        },
{
    let ghost g = acc_view(acc@);
    let mut k: usize = 0;
    while k < acc.len()
        invariant
            k <= acc.len(),
            g == acc_view(acc@),
            find_part(g.take(k as int), r@) is None,
        decreases acc.len() - k,
    {
        proof {
            assert(g.take(k + 1).drop_last() == g.take(k as int));
            assert(g.take(k + 1).last() == g[k as int]);
        }
        if str_eq(acc[k].reference.as_str(), r.as_str()) {
            proof {
                lemma_find_part_prefix(g, k + 1, r@);
            }
            return Some(k);
        }
        k = k + 1;
    }
    assert(g.take(acc.len() as int) == g);
    None
}

/// Groups the changes `idxs` by part in encounter order.
fn group_parts(idxs: &Vec<usize>, changes: &Vec<Change>) -> (acc: Vec<PartAcc>)
    requires
        forall|k: int| 0 <= k < idxs.len() ==> idxs@[k] < changes.len(),
    ensures
        acc_view(acc@) == part_rows(changes_view(changes@), ints(idxs@)),
        forall|p: int, q: int| 0 <= p < acc.len() && 0 <= q < acc@[p].rows.len() ==> #[trigger] acc@[p].rows@[q] < changes.len(),
{
    let ghost cv = changes_view(changes@);
    let ghost iv = ints(idxs@);
    let mut acc: Vec<PartAcc> = Vec::new();
    let mut n: usize = 0;
    while n < idxs.len()
        invariant
            n <= idxs.len(),
            cv == changes_view(changes@),
            iv == ints(idxs@),
            forall|k: int| 0 <= k < idxs.len() ==> idxs@[k] < changes.len(),
            acc_view(acc@) == part_rows(cv, iv.take(n as int)),
            forall|p: int, q: int| 0 <= p < acc.len() && 0 <= q < acc@[p].rows.len() ==> #[trigger] acc@[p].rows@[q] < changes.len(),
        decreases idxs.len() - n,
    {
        let i = idxs[n];
        let change = &changes[i];
        proof {
            assert(iv.take(n + 1).drop_last() == iv.take(n as int));
            assert(iv.take(n + 1).last() == i as int);
            assert(cv[i as int] == change@);
        }
        let ghost g = acc_view(acc@);
        match find_part_exec(&acc, &change.reference) {
            Some(at) => {
                let status = match change.kind {
                    ChangeKind::Added => Status::Added,
                    ChangeKind::Removed => Status::Removed,
                    _ => acc[at].status,
                };
                let ghost old_acc = acc@;
                let mut part = acc.remove(at);
                assert(part == old_acc[at as int]);
                part.status = status;
                part.rows.push(i);
                let ghost np = part;
                acc.insert(at, part);
                proof {
                    assert(acc@ =~= old_acc.update(at as int, np));
                    assert(ints(np.rows@) =~= g[at as int].2.push(i as int));
                    assert(acc_view(acc@) =~= g.update(at as int, (g[at as int].0, status_after(g[at as int].1, change.kind), g[at as int].2.push(i as int))));
                }
            },
            None => {
                let mut rows: Vec<usize> = Vec::new();
                rows.push(i);
                let status = match change.kind {
                    ChangeKind::Added => Status::Added,
                    ChangeKind::Removed => Status::Removed,
                    _ => Status::Modified,
                };
                acc.push(PartAcc { reference: change.reference.clone(), status, rows });
                proof {
                    assert(ints(rows@) =~= seq![i as int]);
                    assert(acc_view(acc@) =~= g.push((change.reference@, status_after(Status::Modified, change.kind), seq![i as int])));
                }
            },
        }
        n = n + 1;
    }
    assert(iv.take(idxs.len() as int) == iv);
    acc
}

/// How many references have part changes among `idxs`.
fn changed_count(idxs: &Vec<usize>, changes: &Vec<Change>) -> (n: usize)
    requires
        forall|k: int| 0 <= k < idxs.len() ==> idxs@[k] < changes.len(),
    ensures
        n == changed_refs(changes_view(changes@), ints(idxs@)).len(),
{
    let ghost cv = changes_view(changes@);
    let ghost iv = ints(idxs@);
    let mut refs: Vec<String> = Vec::new();
    let mut k: usize = 0;
    while k < idxs.len()
        invariant
            k <= idxs.len(),
            cv == changes_view(changes@),
            iv == ints(idxs@),
            forall|q: int| 0 <= q < idxs.len() ==> idxs@[q] < changes.len(),
            strictly_sorted(crate::semantic::part::strings_view(refs@), crate::semantic::part::text_order()),
            crate::semantic::part::strings_view(refs@).to_set() == Set::new(
                |r: Seq<char>|
                    exists|q: int|
                        #![trigger iv[q]]
                        0 <= q < k && cv[iv[q]].kind != ChangeKind::NetChanged && cv[iv[q]].reference == r,
            ),
        decreases idxs.len() - k,
    {
        let c = &changes[idxs[k]];
        proof {
            assert(cv[iv[k as int]] == c@);
        }
        if c.kind != ChangeKind::NetChanged {
            let s = c.reference.as_str().to_owned();
            crate::semantic::part::insert_text(&mut refs, &s);
        }
        proof {
            assert(crate::semantic::part::strings_view(refs@).to_set() =~= Set::new(
                |r: Seq<char>|
                    exists|q: int|
                        #![trigger iv[q]]
                        0 <= q < k + 1 && cv[iv[q]].kind != ChangeKind::NetChanged && cv[iv[q]].reference == r,
            ));
        }
        k = k + 1;
    }
    proof {
        let sv = crate::semantic::part::strings_view(refs@);
        assert(sv.to_set() =~= changed_refs(cv, iv));
        crate::semantic::part::lemma_text_order();
        assert(sv.no_duplicates()) by {
            assert forall|i: int, j: int| 0 <= i < sv.len() && 0 <= j < sv.len() && i != j implies sv[i] != sv[j] by {
                if i < j {
                    assert(crate::semantic::part::text_order()(sv[i], sv[j]));
                } else {
                    assert(crate::semantic::part::text_order()(sv[j], sv[i]));
                }
            }
        }
        sv.unique_seq_to_set();
    }
    refs.len()
}

} // verus!

verus! {

/// The line that expands a group.
fn summary_text(idxs: &Vec<usize>, changes: &Vec<Change>, parts: Option<usize>) -> (s: String)
    requires
        forall|k: int| 0 <= k < idxs.len() ==> idxs@[k] < changes.len(),
    ensures
        s@ == summary_of(changes_view(changes@), ints(idxs@), parts),
{
    let k = changed_count(idxs, changes);
    let mut text: Vec<char> = if idxs.len() == 1 {
        chars_of("1 change")
    } else {
        let mut t = decimal_chars(idxs.len() as u64);
        push_str(&mut t, " changes");
        t
    };
    let ghost head = text@;
    match parts {
        Some(total) => if total > 0 && k > 0 {
            let p: u128 = (200 * (k as u128) + total as u128) / (2 * (total as u128));
            let pct: u64 = if p > 100 {
                100
            } else {
                p as u64
            };
            push_str(&mut text, " \u{b7} ");
            push_chars(&mut text, &decimal_chars(pct));
            push_str(&mut text, "% of parts changed");
        } else {
            assert(text@ =~= head + seq![]);
        },
        None => {
            assert(text@ =~= head + seq![]);
        },
    }
    string_of(text.as_slice())
}

/// The change group under page `page` for its changes `idxs` (sneakiest
/// first): the count, the summary line, and the changes grouped by part in
/// encounter order, so each part ranks by its sneakiest change and keeps
/// that order within; each row badged against its part's status.
fn change_group(page: usize, entry: &Page, idxs: &Vec<usize>, changes: &Vec<Change>) -> (g: ChangeGroup)
    requires
        forall|k: int| 0 <= k < idxs.len() ==> idxs@[k] < changes.len(),
    ensures
        g@ == change_group_of(page as int, *entry, ints(idxs@), changes_view(changes@)),
{
    let ghost cv = changes_view(changes@);
    let summary = summary_text(idxs, changes, entry.parts);
    let acc = group_parts(idxs, changes);
    let ghost av = acc_view(acc@);
    let mut parts: Vec<PartGroup> = Vec::new();
    let mut p: usize = 0;
    while p < acc.len()
        invariant
            p <= acc.len(),
            cv == changes_view(changes@),
            av == acc_view(acc@),
            forall|x: int, q: int| 0 <= x < acc.len() && 0 <= q < acc@[x].rows.len() ==> #[trigger] acc@[x].rows@[q] < changes.len(),
            parts@.map_values(|g: PartGroup| g@) == av.take(p as int).map_values(
                |g: (Seq<char>, Status, Seq<int>)|
                    PartGroupView {
                        reference: g.0,
                        status: g.1,
                        rows: g.2.map_values(|i: int| RowView { change: i, badge: badge_of(cv[i].kind, g.1) }),
                    },
            ),
        decreases acc.len() - p,
    {
        let part = &acc[p];
        let mut rows: Vec<Row> = Vec::new();
        let mut q: usize = 0;
        while q < part.rows.len()
            invariant
                q <= part.rows.len(),
                part == acc@[p as int],
                p < acc.len(),
                cv == changes_view(changes@),
                forall|x: int, y: int| 0 <= x < acc.len() && 0 <= y < acc@[x].rows.len() ==> #[trigger] acc@[x].rows@[y] < changes.len(),
                rows@.map_values(|r: Row| r@) == ints(part.rows@).take(q as int).map_values(
                    |i: int| RowView { change: i, badge: badge_of(cv[i].kind, part.status) },
                ),
            decreases part.rows.len() - q,
        {
            let i = part.rows[q];
            assert(acc@[p as int].rows@[q as int] < changes.len());
            let badge = badge_for(changes[i].kind, part.status);
            let ghost before = rows@.map_values(|r: Row| r@);
            rows.push(Row { change: i, badge });
            proof {
                assert(cv[i as int] == changes@[i as int]@);
                assert(ints(part.rows@).take(q + 1) =~= ints(part.rows@).take(q as int).push(i as int));
                assert(rows@.map_values(|r: Row| r@) =~= before.push(RowView { change: i as int, badge: badge_of(cv[i as int].kind, part.status) }));
                assert(ints(part.rows@).take(q + 1).map_values(
                    |i: int| RowView { change: i, badge: badge_of(cv[i].kind, part.status) },
                ) =~= ints(part.rows@).take(q as int).map_values(
                    |i: int| RowView { change: i, badge: badge_of(cv[i].kind, part.status) },
                ).push(RowView { change: i as int, badge: badge_of(cv[i as int].kind, part.status) }));
            }
            q = q + 1;
        }
        let ghost before = parts@.map_values(|g: PartGroup| g@);
        let pg = PartGroup { reference: part.reference.clone(), status: part.status, rows };
        parts.push(pg);
        proof {
            assert(ints(part.rows@).take(part.rows.len() as int) == ints(part.rows@));
            assert(av[p as int] == (part.reference@, part.status, ints(part.rows@)));
            assert(parts@.map_values(|g: PartGroup| g@) =~= before.push(pg@));
            assert(av.take(p + 1) =~= av.take(p as int).push(av[p as int]));
        }
        p = p + 1;
    }
    assert(av.take(acc.len() as int) == av);
    ChangeGroup { page, count: idxs.len(), summary, parts }
}

} // verus!

verus! {

/// What a kind group says.
pub struct KindGroupView {
    pub kind: Kind,
    pub pages: Seq<int>,
}

/// What a project group says.
pub struct ProjectGroupView {
    pub project: Seq<char>,
    pub kinds: Seq<KindGroupView>,
}

/// What the sidebar says.
pub struct SidebarView {
    pub projects: Seq<ProjectGroupView>,
    pub groups: Seq<ChangeGroupView>,
    pub order: Seq<int>,
}

impl View for KindGroup {
    type V = KindGroupView;

    open spec fn view(&self) -> KindGroupView {
        KindGroupView { kind: self.kind, pages: ints(self.pages@) }
    }
}

impl View for ProjectGroup {
    type V = ProjectGroupView;

    open spec fn view(&self) -> ProjectGroupView {
        ProjectGroupView { project: self.project@, kinds: self.kinds@.map_values(|k: KindGroup| k@) }
    }
}

/// The first group of a kind.
pub open spec fn find_kind(ks: Seq<KindGroupView>, kind: Kind) -> Option<int>
    decreases ks.len(),
{
    if ks.len() == 0 {
        None
    } else {
        match find_kind(ks.drop_last(), kind) {
            Some(i) => Some(i),
            None => if ks.last().kind == kind {
                Some(ks.len() - 1)
            } else {
                None
            },
        }
    }
}

/// The first group of a project.
pub open spec fn find_project(g: Seq<ProjectGroupView>, project: Seq<char>) -> Option<int>
    decreases g.len(),
{
    if g.len() == 0 {
        None
    } else {
        match find_project(g.drop_last(), project) {
            Some(i) => Some(i),
            None => if g.last().project == project {
                Some(g.len() - 1)
            } else {
                None
            },
        }
    }
}

/// Page `i` joins the group of its kind, opened if it is the first.
pub open spec fn add_to_kinds(ks: Seq<KindGroupView>, kind: Kind, i: int) -> Seq<KindGroupView> {
    match find_kind(ks, kind) {
        Some(at) => ks.update(at, KindGroupView { kind, pages: ks[at].pages.push(i) }),
        None => ks.push(KindGroupView { kind, pages: seq![i] }),
    }
}

/// The pages grouped by project, then by kind, each group opened where its
/// first page arrives and later pages rejoining it.
pub open spec fn project_groups(pages: Seq<Page>) -> Seq<ProjectGroupView>
    decreases pages.len(),
{
    if pages.len() == 0 {
        seq![]
    } else {
        let g = project_groups(pages.drop_last());
        let i = pages.len() - 1;
        let p = pages.last();
        match find_project(g, p.project@) {
            Some(at) => g.update(at, ProjectGroupView { project: g[at].project, kinds: add_to_kinds(g[at].kinds, p.kind, i) }),
            None => g.push(
                ProjectGroupView { project: p.project@, kinds: seq![KindGroupView { kind: p.kind, pages: seq![i] }] },
            ),
        }
    }
}

/// The pages of kind groups, in group order.
pub open spec fn kind_walk(ks: Seq<KindGroupView>) -> Seq<int>
    decreases ks.len(),
{
    if ks.len() == 0 {
        seq![]
    } else {
        kind_walk(ks.drop_last()) + ks.last().pages
    }
}

/// The pages of project groups, in sidebar order.
pub open spec fn page_walk(g: Seq<ProjectGroupView>) -> Seq<int>
    decreases g.len(),
{
    if g.len() == 0 {
        seq![]
    } else {
        page_walk(g.drop_last()) + kind_walk(g.last().kinds)
    }
}

/// The change groups of the pages walked, for each page with changes.
pub open spec fn groups_of(pages: Seq<Page>, cs: Seq<ChangeView>, walk: Seq<int>) -> Seq<ChangeGroupView>
    decreases walk.len(),
{
    if walk.len() == 0 {
        seq![]
    } else {
        let rest = groups_of(pages, cs, walk.drop_last());
        let p = walk.last();
        let idxs = page_changes(pages, cs, p);
        if idxs.len() > 0 {
            rest.push(change_group_of(p, pages[p], idxs, cs))
        } else {
            rest
        }
    }
}

/// The change indices of part groups' rows, top to bottom.
pub open spec fn part_order(parts: Seq<PartGroupView>) -> Seq<int>
    decreases parts.len(),
{
    if parts.len() == 0 {
        seq![]
    } else {
        part_order(parts.drop_last()) + parts.last().rows.map_values(|r: RowView| r.change)
    }
}

/// The change indices of change groups, top to bottom: what `n`/`p` step through.
pub open spec fn order_of(groups: Seq<ChangeGroupView>) -> Seq<int>
    decreases groups.len(),
{
    if groups.len() == 0 {
        seq![]
    } else {
        order_of(groups.drop_last()) + part_order(groups.last().parts)
    }
}

/// The sidebar of a report's pages and changes.
pub open spec fn sidebar_of(pages: Seq<Page>, cs: Seq<ChangeView>) -> SidebarView {
    let projects = project_groups(pages);
    let groups = groups_of(pages, cs, page_walk(projects));
    SidebarView { projects, groups, order: order_of(groups) }
}

} // verus!

verus! {

/// Content for the sidebar in the order to be rendered.
pub struct Sidebar {
    /// List of projects.
    pub projects: Vec<ProjectGroup>,
    /// Change groups for the pages that have changes, in page order.
    pub groups: Vec<ChangeGroup>,
    /// Change indices in sidebar order: what `n`/`p` step through.
    pub order: Vec<usize>,
}

impl View for Sidebar {
    type V = SidebarView;

    open spec fn view(&self) -> SidebarView {
        SidebarView {
            projects: self.projects@.map_values(|p: ProjectGroup| p@),
            groups: self.groups@.map_values(|g: ChangeGroup| g@),
            order: ints(self.order@),
        }
    }
}

/// `find_kind` is settled by the first groups once they hold the kind.
proof fn lemma_find_kind_prefix(ks: Seq<KindGroupView>, n: int, kind: Kind)
    requires
        0 <= n <= ks.len(),
        find_kind(ks.take(n), kind) is Some,
    ensures
        find_kind(ks, kind) == find_kind(ks.take(n), kind),
    decreases ks.len(),
{
    if n < ks.len() {
        assert(ks.drop_last().take(n) == ks.take(n));
        lemma_find_kind_prefix(ks.drop_last(), n, kind);
    } else {
        assert(ks.take(n) == ks);
    }
}

/// `find_project` is settled by the first groups once they hold the project.
proof fn lemma_find_project_prefix(g: Seq<ProjectGroupView>, n: int, project: Seq<char>)
    requires
        0 <= n <= g.len(),
        find_project(g.take(n), project) is Some,
    ensures
        find_project(g, project) == find_project(g.take(n), project),
    decreases g.len(),
{
    if n < g.len() {
        assert(g.drop_last().take(n) == g.take(n));
        lemma_find_project_prefix(g.drop_last(), n, project);
    } else {
        assert(g.take(n) == g);
    }
}

/// `find_kind` names a group of that kind.
proof fn lemma_find_kind_found(ks: Seq<KindGroupView>, kind: Kind)
    ensures
        match find_kind(ks, kind) {
            Some(i) => 0 <= i < ks.len() && ks[i].kind == kind,
            None => true,
        },
    decreases ks.len(),
{
    if ks.len() > 0 {
        lemma_find_kind_found(ks.drop_last(), kind);
    }
}

/// `find_project` names a group of that project.
proof fn lemma_find_project_found(g: Seq<ProjectGroupView>, project: Seq<char>)
    ensures
        match find_project(g, project) {
            Some(i) => 0 <= i < g.len() && g[i].project == project,
            None => true,
        },
    decreases g.len(),
{
    if g.len() > 0 {
        lemma_find_project_found(g.drop_last(), project);
    }
}

/// Page `i` joins the group of its kind, opened if it is the first.
fn add_to_kinds_exec(ks: &mut Vec<KindGroup>, kind: Kind, i: usize)
    ensures
        final(ks)@.map_values(|k: KindGroup| k@) == add_to_kinds(old(ks)@.map_values(|k: KindGroup| k@), kind, i as int),
        forall|b: int, c: int|
            0 <= b < final(ks).len() && 0 <= c < final(ks)@[b].pages.len() ==> (#[trigger] final(ks)@[b].pages@[c] == i
                || exists|b0: int, c0: int|
                0 <= b0 < old(ks).len() && 0 <= c0 < old(ks)@[b0].pages.len() && final(ks)@[b].pages@[c]
                    == #[trigger] old(ks)@[b0].pages@[c0]),
{
    let ghost kv = ks@.map_values(|k: KindGroup| k@);
    let ghost old_ks = ks@;
    let mut at: Option<usize> = None;
    let mut b: usize = 0;
    while b < ks.len()
        invariant
            b <= ks.len(),
            ks@ == old_ks,
            kv == ks@.map_values(|k: KindGroup| k@),
            at is None ==> find_kind(kv.take(b as int), kind) is None,
            at is Some ==> find_kind(kv, kind) == Some(at->0 as int) && at->0 < ks.len(),
        decreases ks.len() - b,
    {
        proof {
            assert(kv.take(b + 1).drop_last() == kv.take(b as int));
            assert(kv.take(b + 1).last() == kv[b as int]);
        }
        if at.is_none() && ks[b].kind == kind {
            proof {
                lemma_find_kind_prefix(kv, b + 1, kind);
            }
            at = Some(b);
        }
        b = b + 1;
    }
    assert(kv.take(ks.len() as int) == kv);
    match at {
        Some(at) => {
            let mut kg = ks.remove(at);
            assert(kg == old_ks[at as int]);
            kg.pages.push(i);
            let ghost nk = kg;
            ks.insert(at, kg);
            proof {
                assert(ks@ =~= old_ks.update(at as int, nk));
                assert(ints(nk.pages@) =~= kv[at as int].pages.push(i as int));
                lemma_find_kind_found(kv, kind);
                assert(nk@ == KindGroupView { kind, pages: kv[at as int].pages.push(i as int) });
                assert(ks@.map_values(|k: KindGroup| k@) =~= add_to_kinds(kv, kind, i as int));
                assert forall|b: int, c: int|
                    0 <= b < ks.len() && 0 <= c < ks@[b].pages.len() implies (#[trigger] ks@[b].pages@[c] == i
                        || exists|b0: int, c0: int|
                        0 <= b0 < old_ks.len() && 0 <= c0 < old_ks[b0].pages.len() && ks@[b].pages@[c]
                            == #[trigger] old_ks[b0].pages@[c0]) by {
                    if b == at {
                        if c < old_ks[b].pages.len() {
                            assert(ks@[b].pages@[c] == old_ks[b].pages@[c]);
                        }
                    } else {
                        assert(ks@[b].pages@[c] == old_ks[b].pages@[c]);
                    }
                }
            }
        },
        None => {
            let mut pages: Vec<usize> = Vec::new();
            pages.push(i);
            let kg = KindGroup { kind, pages };
            ks.push(kg);
            proof {
                assert(ints(kg.pages@) =~= seq![i as int]);
                assert(ks@.map_values(|k: KindGroup| k@) =~= add_to_kinds(kv, kind, i as int));
                assert forall|b: int, c: int|
                    0 <= b < ks.len() && 0 <= c < ks@[b].pages.len() implies (#[trigger] ks@[b].pages@[c] == i
                        || exists|b0: int, c0: int|
                        0 <= b0 < old_ks.len() && 0 <= c0 < old_ks[b0].pages.len() && ks@[b].pages@[c]
                            == #[trigger] old_ks[b0].pages@[c0]) by {
                    if b < old_ks.len() {
                        assert(ks@[b] == old_ks[b]);
                    }
                }
            }
        },
    }
}

} // verus!

verus! {

/// Every page index the project groups hold lies below `n`.
pub open spec fn pages_below(projects: Seq<ProjectGroup>, n: int) -> bool {
    forall|a: int, b: int, c: int|
        0 <= a < projects.len() && 0 <= b < projects[a].kinds.len() && 0 <= c < projects[a].kinds@[b].pages.len()
            ==> #[trigger] projects[a].kinds@[b].pages@[c] < n
}

/// The pages grouped by project, then by kind, in arrival order.
#[verifier::spinoff_prover]
#[verifier::rlimit(30)]
fn group_projects(pages: &Vec<Page>) -> (projects: Vec<ProjectGroup>)
    ensures
        projects@.map_values(|p: ProjectGroup| p@) == project_groups(pages@),
        pages_below(projects@, pages.len() as int),
{
    let mut projects: Vec<ProjectGroup> = Vec::new();
    let mut i: usize = 0;
    while i < pages.len()
        invariant
            i <= pages.len(),
            projects@.map_values(|p: ProjectGroup| p@) == project_groups(pages@.take(i as int)),
            pages_below(projects@, i as int),
        decreases pages.len() - i,
    {
        let ghost g = projects@.map_values(|p: ProjectGroup| p@);
        let ghost old_p = projects@;
        proof {
            assert(pages@.take(i + 1).drop_last() == pages@.take(i as int));
            assert(pages@.take(i + 1).last() == pages@[i as int]);
        }
        let page = &pages[i];
        let mut at: Option<usize> = None;
        let mut a: usize = 0;
        while a < projects.len()
            invariant
                a <= projects.len(),
                projects@ == old_p,
                g == projects@.map_values(|p: ProjectGroup| p@),
                at is None ==> find_project(g.take(a as int), page.project@) is None,
                at is Some ==> find_project(g, page.project@) == Some(at->0 as int) && at->0 < projects.len(),
            decreases projects.len() - a,
        {
            proof {
                assert(g.take(a + 1).drop_last() == g.take(a as int));
                assert(g.take(a + 1).last() == g[a as int]);
            }
            if at.is_none() && str_eq(projects[a].project.as_str(), page.project.as_str()) {
                proof {
                    lemma_find_project_prefix(g, a + 1, page.project@);
                }
                at = Some(a);
            }
            a = a + 1;
        }
        assert(g.take(projects.len() as int) == g);
        match at {
            Some(at) => {
                let mut pg = projects.remove(at);
                assert(pg == old_p[at as int]);
                let ghost before_kinds = pg.kinds@;
                add_to_kinds_exec(&mut pg.kinds, page.kind, i);
                let ghost np = pg;
                projects.insert(at, pg);
                proof {
                    assert(projects@ =~= old_p.update(at as int, np));
                    lemma_find_project_found(g, page.project@);
                    assert(np@ == ProjectGroupView {
                        project: g[at as int].project,
                        kinds: add_to_kinds(g[at as int].kinds, page.kind, i as int),
                    });
                    assert(projects@.map_values(|p: ProjectGroup| p@) =~= g.update(
                        at as int,
                        ProjectGroupView {
                            project: g[at as int].project,
                            kinds: add_to_kinds(g[at as int].kinds, page.kind, i as int),
                        },
                    ));
                    assert forall|x: int, b: int, c: int|
                        0 <= x < projects.len() && 0 <= b < projects@[x].kinds.len() && 0 <= c
                            < projects@[x].kinds@[b].pages.len() implies #[trigger] projects@[x].kinds@[b].pages@[c] < i
                        + 1 by {
                        if x == at {
                            let v = projects@[x].kinds@[b].pages@[c];
                            if v != i {
                                let (b0, c0) = choose|b0: int, c0: int|
                                    0 <= b0 < before_kinds.len() && 0 <= c0 < before_kinds[b0].pages.len() && v
                                        == #[trigger] before_kinds[b0].pages@[c0];
                                assert(old_p[x].kinds@[b0].pages@[c0] < i);
                            }
                        } else {
                            assert(projects@[x] == old_p[x]);
                        }
                    }
                }
            },
            None => {
                let mut kinds: Vec<KindGroup> = Vec::new();
                let mut ps: Vec<usize> = Vec::new();
                ps.push(i);
                kinds.push(KindGroup { kind: page.kind, pages: ps });
                let pg = ProjectGroup { project: page.project.clone(), kinds };
                projects.push(pg);
                proof {
                    assert(ints(ps@) =~= seq![i as int]);
                    assert(pg.kinds@.map_values(|k: KindGroup| k@) =~= seq![KindGroupView { kind: page.kind, pages: seq![i as int] }]);
                    assert(projects@.map_values(|p: ProjectGroup| p@) =~= g.push(
                        ProjectGroupView {
                            project: page.project@,
                            kinds: seq![KindGroupView { kind: page.kind, pages: seq![i as int] }],
                        },
                    ));
                    assert forall|x: int, b: int, c: int|
                        0 <= x < projects.len() && 0 <= b < projects@[x].kinds.len() && 0 <= c
                            < projects@[x].kinds@[b].pages.len() implies #[trigger] projects@[x].kinds@[b].pages@[c] < i
                        + 1 by {
                        if x < old_p.len() {
                            assert(projects@[x] == old_p[x]);
                        }
                    }
                }
            },
        }
        i = i + 1;
    }
    assert(pages@.take(pages.len() as int) == pages@);
    projects
}

/// Appends the change indices of a group's rows, top to bottom.
fn append_order(order: &mut Vec<usize>, g: &ChangeGroup)
    ensures
        ints(final(order)@) == ints(old(order)@) + part_order(g@.parts),
{
    let ghost start = ints(order@);
    let ghost pv = g@.parts;
    let mut p: usize = 0;
    while p < g.parts.len()
        invariant
            p <= g.parts.len(),
            pv == g@.parts,
            ints(order@) == start + part_order(pv.take(p as int)),
        decreases g.parts.len() - p,
    {
        proof {
            assert(pv.take(p + 1).drop_last() == pv.take(p as int));
            assert(pv.take(p + 1).last() == g.parts@[p as int]@);
        }
        let ghost mid = ints(order@);
        let rows = &g.parts[p].rows;
        let mut q: usize = 0;
        while q < rows.len()
            invariant
                q <= rows.len(),
                ints(order@) == mid + rows@.take(q as int).map_values(|r: Row| r@).map_values(|r: RowView| r.change),
            decreases rows.len() - q,
        {
            let ghost before = ints(order@);
            order.push(rows[q].change);
            proof {
                assert(rows@.take(q + 1).map_values(|r: Row| r@).map_values(|r: RowView| r.change) =~= rows@.take(
                    q as int,
                ).map_values(|r: Row| r@).map_values(|r: RowView| r.change).push(rows@[q as int].change as int));
                assert(ints(order@) =~= before.push(rows@[q as int].change as int));
            }
            q = q + 1;
        }
        proof {
            assert(rows@.take(rows.len() as int) == rows@);
            assert(g.parts@[p as int]@.rows == rows@.map_values(|r: Row| r@));
            assert(ints(order@) =~= start + part_order(pv.take(p + 1)));
        }
        p = p + 1;
    }
    assert(pv.take(g.parts.len() as int) == pv);
}

} // verus!

verus! {

impl Sidebar {
    /// The sidebar of a report: pages grouped by project, then by kind, in
    /// the order pages arrive; each change homed under its page (sneakiest
    /// first) and grouped by part; and the walk order through the changes.
    pub fn new(pages: &Vec<Page>, changes: &Vec<Change>) -> (s: Sidebar)
        ensures
            s@ == sidebar_of(pages@, changes_view(changes@)),
    {
        let ghost cv = changes_view(changes@);
        let mut homes: Vec<Option<usize>> = Vec::new();
        let mut i: usize = 0;
        while i < changes.len()
            invariant
                i <= changes.len(),
                homes.len() == i,
                forall|q: int|
                    0 <= q < i ==> match #[trigger] homes@[q] {
                        Some(h) => home(changes@[q]@, pages@) == Some(h as int),
                        None => home(changes@[q]@, pages@) is None,
                    },
            decreases changes.len() - i,
        {
            homes.push(home_of(&changes[i], pages));
            i = i + 1;
        }
        let projects = group_projects(pages);
        let ghost pv = projects@.map_values(|p: ProjectGroup| p@);
        let mut groups: Vec<ChangeGroup> = Vec::new();
        let mut order: Vec<usize> = Vec::new();
        let mut a: usize = 0;
        while a < projects.len()
            invariant
                a <= projects.len(),
                homes.len() == changes.len(),
                forall|q: int|
                    0 <= q < changes.len() ==> match #[trigger] homes@[q] {
                        Some(h) => home(changes@[q]@, pages@) == Some(h as int),
                        None => home(changes@[q]@, pages@) is None,
                    },
                cv == changes_view(changes@),
                pv == projects@.map_values(|p: ProjectGroup| p@),
                pages_below(projects@, pages.len() as int),
                groups@.map_values(|g: ChangeGroup| g@) == groups_of(pages@, cv, page_walk(pv.take(a as int))),
                ints(order@) == order_of(groups@.map_values(|g: ChangeGroup| g@)),
            decreases projects.len() - a,
        {
            let kinds = &projects[a].kinds;
            let ghost kv = pv[a as int].kinds;
            assert(kv == kinds@.map_values(|k: KindGroup| k@));
            let ghost base = page_walk(pv.take(a as int));
            let mut b: usize = 0;
            assert(kv.take(0) =~= seq![]);
            assert(base + kind_walk(kv.take(0)) =~= base);
            while b < kinds.len()
                invariant
                    b <= kinds.len(),
                    a < projects.len(),
                    kinds == projects@[a as int].kinds,
                    kv == kinds@.map_values(|k: KindGroup| k@),
                    homes.len() == changes.len(),
                    forall|q: int|
                        0 <= q < changes.len() ==> match #[trigger] homes@[q] {
                            Some(h) => home(changes@[q]@, pages@) == Some(h as int),
                            None => home(changes@[q]@, pages@) is None,
                        },
                    cv == changes_view(changes@),
                    pages_below(projects@, pages.len() as int),
                    groups@.map_values(|g: ChangeGroup| g@) == groups_of(pages@, cv, base + kind_walk(kv.take(b as int))),
                    ints(order@) == order_of(groups@.map_values(|g: ChangeGroup| g@)),
                decreases kinds.len() - b,
            {
                let ps = &kinds[b].pages;
                let ghost walked = base + kind_walk(kv.take(b as int));
                let mut c: usize = 0;
                assert(walked + ints(ps@).take(0) =~= walked);
                while c < ps.len()
                    invariant
                        c <= ps.len(),
                        a < projects.len(),
                        b < kinds.len(),
                        kinds == projects@[a as int].kinds,
                        ps == kinds@[b as int].pages,
                        homes.len() == changes.len(),
                        forall|q: int|
                            0 <= q < changes.len() ==> match #[trigger] homes@[q] {
                                Some(h) => home(changes@[q]@, pages@) == Some(h as int),
                                None => home(changes@[q]@, pages@) is None,
                            },
                        cv == changes_view(changes@),
                        pages_below(projects@, pages.len() as int),
                        groups@.map_values(|g: ChangeGroup| g@) == groups_of(pages@, cv, walked + ints(ps@).take(c as int)),
                        ints(order@) == order_of(groups@.map_values(|g: ChangeGroup| g@)),
                    decreases ps.len() - c,
                {
                    let page = ps[c];
                    assert(projects@[a as int].kinds@[b as int].pages@[c as int] < pages.len());
                    let idxs = page_list(changes, &homes, pages, page);
                    let ghost gv = groups@.map_values(|g: ChangeGroup| g@);
                    let ghost w = walked + ints(ps@).take(c as int);
                    proof {
                        assert(w.push(page as int) =~= walked + ints(ps@).take(c + 1));
                        assert(w.push(page as int).drop_last() == w);
                    }
                    if idxs.len() > 0 {
                        let g = change_group(page, &pages[page], &idxs, changes);
                        append_order(&mut order, &g);
                        groups.push(g);
                        proof {
                            assert(groups@.map_values(|g: ChangeGroup| g@) =~= gv.push(g@));
                            assert(groups@.map_values(|g: ChangeGroup| g@).drop_last() == gv);
                        }
                    }
                    c = c + 1;
                }
                proof {
                    assert(ints(ps@).take(ps.len() as int) == ints(ps@));
                    assert(kv.take(b + 1).drop_last() == kv.take(b as int));
                    assert(kv.take(b + 1).last() == kinds@[b as int]@);
                    assert(walked + ints(ps@) =~= base + kind_walk(kv.take(b + 1)));
                }
                b = b + 1;
            }
            proof {
                assert(kv.take(kinds.len() as int) == kv);
                assert(pv.take(a + 1).drop_last() == pv.take(a as int));
                assert(pv.take(a + 1).last() == pv[a as int]);
            }
            a = a + 1;
        }
        assert(pv.take(projects.len() as int) == pv);
        Sidebar { projects, groups, order }
    }
}

} // verus!

verus! {

/// The share of parts changed never exceeds 100%, even when board changes
/// falling back onto a page outnumber its own parts.
pub proof fn law_percent_is_capped(k: nat, total: nat)
    requires
        total > 0,
    ensures
        percent(k, total) <= 100,
        k <= total ==> percent(k, total) == (200 * k + total) / (2 * total),
{
    if k <= total {
        assert((200 * k + total) / (2 * total) <= 100) by (nonlinear_arith)
            requires
                k <= total,
                total > 0,
        ;
    }
}

} // verus!

verus! {

/// The set of changes homed on a page is finite.
proof fn lemma_page_set_finite(pages: Seq<Page>, cs: Seq<ChangeView>, p: int)
    ensures
        Set::new(|i: int| 0 <= i < cs.len() && home(cs[i], pages) == Some(p)).finite(),
{
    let set = Set::new(|i: int| 0 <= i < cs.len() && home(cs[i], pages) == Some(p));
    let all = Seq::new(cs.len(), |i: int| i);
    assert forall|i: int| set.contains(i) implies all.to_set().contains(i) by {
        assert(all[i] == i);
    }
    vstd::seq_lib::seq_to_set_is_finite(all);
    vstd::set_lib::lemma_len_subset(set, all.to_set());
}

/// The changes under a page are exactly those homed there, sneakiest first.
proof fn lemma_page_changes(pages: Seq<Page>, cs: Seq<ChangeView>, p: int)
    ensures
        strictly_sorted(page_changes(pages, cs, p), sneak_order(cs)),
        forall|k: int|
            0 <= k < page_changes(pages, cs, p).len() ==> 0 <= #[trigger] page_changes(pages, cs, p)[k] < cs.len()
                && home(cs[page_changes(pages, cs, p)[k]], pages) == Some(p),
{
    let set = Set::new(|i: int| 0 <= i < cs.len() && home(cs[i], pages) == Some(p));
    lemma_page_set_finite(pages, cs, p);
    lemma_sneak_order(cs);
    assert(crate::order::total(sneak_order(cs)));
    crate::order::lemma_sorted_seq_of(set, sneak_order(cs));
    let s = page_changes(pages, cs, p);
    assert forall|k: int| 0 <= k < s.len() implies 0 <= #[trigger] s[k] < cs.len() && home(cs[s[k]], pages) == Some(p) by {
        assert(s.to_set().contains(s[k]));
    }
}

/// Grouping by part keeps each change index among those grouped, and keeps
/// the order they arrive in: within a part, and across parts by their first change.
proof fn lemma_part_rows_order(cs: Seq<ChangeView>, idxs: Seq<int>)
    requires
        strictly_sorted(idxs, sneak_order(cs)),
    ensures
        forall|q: int, x: int|
            0 <= q < part_rows(cs, idxs).len() && 0 <= x < part_rows(cs, idxs)[q].2.len() ==> idxs.contains(
                #[trigger] part_rows(cs, idxs)[q].2[x],
            ),
        forall|q: int| 0 <= q < part_rows(cs, idxs).len() ==> (#[trigger] part_rows(cs, idxs)[q]).2.len() > 0,
        forall|q: int|
            0 <= q < part_rows(cs, idxs).len() ==> strictly_sorted(#[trigger] part_rows(cs, idxs)[q].2, sneak_order(cs)),
        forall|q1: int, q2: int|
            0 <= q1 < q2 < part_rows(cs, idxs).len() ==> sneak_order(cs)(
                (#[trigger] part_rows(cs, idxs)[q1]).2[0],
                (#[trigger] part_rows(cs, idxs)[q2]).2[0],
            ),
    decreases idxs.len(),
{
    if idxs.len() > 0 {
        let prev = idxs.drop_last();
        assert(strictly_sorted(prev, sneak_order(cs))) by {
            assert forall|a: int, b: int| 0 <= a < b < prev.len() implies sneak_order(cs)(prev[a], prev[b]) by {
                assert(prev[a] == idxs[a] && prev[b] == idxs[b]);
            }
        }
        lemma_part_rows_order(cs, prev);
        let g = part_rows(cs, prev);
        let i = idxs.last();
        let c = cs[i];
        let ng = part_rows(cs, idxs);
        // Every index already grouped comes before the new one.
        assert forall|e: int| prev.contains(e) implies sneak_order(cs)(e, i) by {
            let a = choose|a: int| 0 <= a < prev.len() && prev[a] == e;
            assert(idxs[a] == e);
        }
        assert forall|q: int, x: int| 0 <= q < ng.len() && 0 <= x < ng[q].2.len() implies idxs.contains(
            #[trigger] ng[q].2[x],
        ) by {
            let v = ng[q].2[x];
            if v != i {
                assert(q < g.len() && x < g[q].2.len() && ng[q].2[x] == g[q].2[x]) by {
                    match find_part(g, c.reference) {
                        Some(at) => {
                            lemma_find_part_bound(g, c.reference);
                        },
                        None => {},
                    }
                }
                let a = choose|a: int| 0 <= a < prev.len() && prev[a] == v;
                assert(idxs[a] == v);
            } else {
                assert(idxs[idxs.len() - 1] == i);
            }
        }
        match find_part(g, c.reference) {
            Some(at) => {
                lemma_find_part_bound(g, c.reference);
                assert forall|q: int| 0 <= q < ng.len() implies strictly_sorted(#[trigger] ng[q].2, sneak_order(cs)) by {
                    if q == at {
                        let old = g[at].2;
                        let nw = old.push(i);
                        assert(ng[q].2 == nw);
                        assert forall|a: int, b: int| 0 <= a < b < nw.len() implies sneak_order(cs)(nw[a], nw[b]) by {
                            if b == old.len() {
                                assert(prev.contains(old[a]));
                            } else {
                                assert(nw[a] == old[a] && nw[b] == old[b]);
                            }
                        }
                    }
                }
                assert forall|q1: int, q2: int| 0 <= q1 < q2 < ng.len() implies sneak_order(cs)(
                    (#[trigger] ng[q1]).2[0],
                    (#[trigger] ng[q2]).2[0],
                ) by {
                    assert(ng[q1].2[0] == g[q1].2[0] && ng[q2].2[0] == g[q2].2[0]);
                }
            },
            None => {
                assert forall|q: int| 0 <= q < ng.len() implies strictly_sorted(#[trigger] ng[q].2, sneak_order(cs)) by {
                    if q < g.len() {
                        assert(ng[q] == g[q]);
                    }
                }
                assert forall|q1: int, q2: int| 0 <= q1 < q2 < ng.len() implies sneak_order(cs)(
                    (#[trigger] ng[q1]).2[0],
                    (#[trigger] ng[q2]).2[0],
                ) by {
                    if q2 == g.len() {
                        assert(ng[q1] == g[q1]);
                        assert(prev.contains(g[q1].2[0]));
                        assert(ng[q2].2[0] == i);
                    } else {
                        assert(ng[q1] == g[q1] && ng[q2] == g[q2]);
                    }
                }
            },
        }
    }
}

/// `find_part` names a group within the list.
proof fn lemma_find_part_bound(g: Seq<(Seq<char>, Status, Seq<int>)>, r: Seq<char>)
    ensures
        match find_part(g, r) {
            Some(i) => 0 <= i < g.len(),
            None => true,
        },
    decreases g.len(),
{
    if g.len() > 0 {
        lemma_find_part_bound(g.drop_last(), r);
    }
}

/// Every change in the sidebar is filed under its own page, and each
/// page's changes run sneakiest first (properties, then nets, then the
/// visible rest): within each part, and across parts by their sneakiest
/// change.
pub proof fn law_changes_file_under_their_page_sneakiest_first(pages: Seq<Page>, cs: Seq<ChangeView>, p: int)
    ensures
        ({
            let parts = part_rows(cs, page_changes(pages, cs, p));
            &&& forall|q: int, x: int|
                0 <= q < parts.len() && 0 <= x < parts[q].2.len() ==> home(cs[#[trigger] parts[q].2[x]], pages) == Some(p)
            &&& forall|q: int, x: int, y: int|
                0 <= q < parts.len() && 0 <= x < y < parts[q].2.len() ==> rank_of(cs[#[trigger] parts[q].2[x]].kind)
                    <= rank_of(cs[#[trigger] parts[q].2[y]].kind)
            &&& forall|q1: int, q2: int|
                0 <= q1 < q2 < parts.len() ==> rank_of(cs[(#[trigger] parts[q1]).2[0]].kind) <= rank_of(
                    cs[(#[trigger] parts[q2]).2[0]].kind,
                )
        }),
{
    let idxs = page_changes(pages, cs, p);
    lemma_page_changes(pages, cs, p);
    lemma_part_rows_order(cs, idxs);
    let parts = part_rows(cs, idxs);
    assert forall|q: int, x: int| 0 <= q < parts.len() && 0 <= x < parts[q].2.len() implies home(
        cs[#[trigger] parts[q].2[x]],
        pages,
    ) == Some(p) by {
        assert(idxs.contains(parts[q].2[x]));
        let k = choose|k: int| 0 <= k < idxs.len() && idxs[k] == parts[q].2[x];
        assert(home(cs[idxs[k]], pages) == Some(p));
    }
    assert forall|q: int, x: int, y: int| 0 <= q < parts.len() && 0 <= x < y < parts[q].2.len() implies rank_of(
        cs[#[trigger] parts[q].2[x]].kind,
    ) <= rank_of(cs[#[trigger] parts[q].2[y]].kind) by {
        assert(strictly_sorted(parts[q].2, sneak_order(cs)));
        assert(sneak_order(cs)(parts[q].2[x], parts[q].2[y]));
    }
    assert forall|q1: int, q2: int| 0 <= q1 < q2 < parts.len() implies rank_of(cs[(#[trigger] parts[q1]).2[0]].kind)
        <= rank_of(cs[(#[trigger] parts[q2]).2[0]].kind) by {
        assert(sneak_order(cs)(parts[q1].2[0], parts[q2].2[0]));
    }
}

} // verus!
