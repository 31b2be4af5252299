//! The walk over a schematic's sheet hierarchy: which sheet file is read
//! next, under which page name and instance path, and which files a sheet
//! leads to. Reading the files is left to the caller.

use vstd::prelude::*;

use crate::ids::PageName;
use crate::semantic::extract::{child_entries, child_sheets, root_instance, root_path, SchSheet};
use crate::semantic::part::strings_view;
use crate::text::{chars_eq, chars_of, last_index, push_str, string_of};
use crate::tree::{components, components_of, texts};

verus! {

/// One sheet instance waiting to be read: its file, its page name, its
/// instance path and the files of the sheets above it.
pub struct SheetVisit {
    pub file: String,
    pub page: PageName,
    pub inst: String,
    pub ancestry: Vec<String>,
}

/// A visit, as text.
pub struct VisitView {
    pub file: Seq<char>,
    pub page: Seq<char>,
    pub inst: Seq<char>,
    pub ancestry: Seq<Seq<char>>,
}

impl View for SheetVisit {
    type V = VisitView;

    open spec fn view(&self) -> VisitView {
        VisitView { file: self.file@, page: self.page@, inst: self.inst@, ancestry: strings_view(self.ancestry@) }
    }
}

/// The views of a list of visits.
pub open spec fn visits_view(v: Seq<SheetVisit>) -> Seq<VisitView> {
    v.map_values(|x: SheetVisit| x@)
}

/// Whether a visit would read a file that one of the sheets above it
/// already is (the same path, component by component): a sheet including
/// itself, which the walk does not follow.
pub open spec fn loops_back(v: VisitView) -> bool {
    exists|k: int| 0 <= k < v.ancestry.len() && components(#[trigger] v.ancestry[k]) == components(v.file)
}

/// The next visit taken from the end of a queue, passing over those that
/// loop back, and the queue left behind.
pub open spec fn next_of(q: Seq<VisitView>) -> (Seq<VisitView>, Option<VisitView>)
    decreases q.len(),
{
    if q.len() == 0 {
        (q, None)
    } else if loops_back(q.last()) {
        next_of(q.drop_last())
    } else {
        (q.drop_last(), Some(q.last()))
    }
}

/// The directory a file sits in: everything before its last `/`, the
/// root itself for a file directly under it, nothing for a bare name.
pub open spec fn sheet_dir(path: Seq<char>) -> Seq<char> {
    match last_index(path, '/') {
        Some(i) => if i == 0 {
            "/"@
        } else {
            path.take(i)
        },
        None => seq![],
    }
}

/// A file name taken relative to a directory: an absolute name stands as
/// it is, a name in no directory too; otherwise the two are joined by one
/// `/`.
pub open spec fn joined(dir: Seq<char>, file: Seq<char>) -> Seq<char> {
    if file.len() > 0 && file[0] == '/' {
        file
    } else if dir.len() == 0 {
        file
    } else if dir.last() == '/' {
        dir + file
    } else {
        dir + "/"@ + file
    }
}

/// The visit a sub-sheet entry (file, page name, instance path) of the
/// sheet read at `v` makes: its file next to that sheet's, and that sheet
/// added to its ancestry.
pub open spec fn child_visit(v: VisitView, c: (Seq<char>, Seq<char>, Seq<char>)) -> VisitView {
    VisitView { file: joined(sheet_dir(v.file), c.0), page: c.1, inst: c.2, ancestry: v.ancestry.push(v.file) }
}

/// The visits the sub-sheet entries `cs` of the sheet read at `v` make, in order.
pub open spec fn child_visits(v: VisitView, cs: Seq<(Seq<char>, Seq<char>, Seq<char>)>) -> Seq<VisitView> {
    Seq::new(cs.len(), |i: int| child_visit(v, cs[i]))
}

/// The instance path and page name of each sub-sheet entry, in order.
pub open spec fn child_names(cs: Seq<(Seq<char>, Seq<char>, Seq<char>)>) -> Seq<(Seq<char>, Seq<char>)> {
    Seq::new(cs.len(), |i: int| (cs[i].2, cs[i].1))
}

/// The view of instance paths with page names.
pub open spec fn names_view(v: Seq<(String, PageName)>) -> Seq<(Seq<char>, Seq<char>)> {
    v.map_values(|n: (String, PageName)| (n.0@, n.1@))
}

/// The sheet instances still to read, the last one first.
pub struct SheetWalk {
    pub queue: Vec<SheetVisit>,
}

impl View for SheetWalk {
    type V = Seq<VisitView>;

    open spec fn view(&self) -> Seq<VisitView> {
        visits_view(self.queue@)
    }
}

/// Whether two paths have the same components.
fn same_components(a: &str, b: &str) -> (r: bool)
    ensures
        r == (components(a@) == components(b@)),
{
    let x = components_of(a);
    let y = components_of(b);
    if x.len() != y.len() {
        assert(texts(x@).len() != texts(y@).len());
        return false;
    }
    assert(texts(x@).len() == x@.len() && texts(y@).len() == y@.len());
    let mut i: usize = 0;
    while i < x.len()
        invariant
            i <= x.len() == y.len(),
            texts(x@) == components(a@),
            texts(y@) == components(b@),
            forall|k: int| 0 <= k < i ==> texts(x@)[k] == texts(y@)[k],
        decreases x.len() - i,
    {
        assert(texts(x@)[i as int] == x@[i as int]@ && texts(y@)[i as int] == y@[i as int]@);
        if !chars_eq(&x[i], &y[i]) {
            assert(texts(x@)[i as int] != texts(y@)[i as int]);
            assert(texts(x@) != texts(y@)) by {
                if texts(x@) == texts(y@) {
                    assert(texts(x@)[i as int] == texts(y@)[i as int]);
                }
            }
            return false;
        }
        i = i + 1;
    }
    assert(texts(x@) =~= texts(y@));
    true
}

/// Whether a visit loops back to a sheet above it.
fn loops_back_exec(v: &SheetVisit) -> (r: bool)
    ensures
        r == loops_back(v@),
{
    let mut k: usize = 0;
    while k < v.ancestry.len()
        invariant
            k <= v.ancestry.len(),
            forall|j: int| 0 <= j < k ==> components(#[trigger] strings_view(v.ancestry@)[j]) != components(v.file@),
        decreases v.ancestry.len() - k,
    {
        assert(strings_view(v.ancestry@)[k as int] == v.ancestry@[k as int]@);
        if same_components(v.ancestry[k].as_str(), v.file.as_str()) {
            assert(components(strings_view(v.ancestry@)[k as int]) == components(v.file@));
            assert(v@.ancestry[k as int] == strings_view(v.ancestry@)[k as int]);
            return true;
        }
        k = k + 1;
    }
    false
}

/// The directory a file sits in.
fn sheet_dir_of(path: &str) -> (r: Vec<char>)
    ensures
        r@ == sheet_dir(path@),
{
    let v = chars_of(path);
    let i = crate::text::rfind_char(&v, '/');
    proof {
        crate::text::lemma_last_index(v@, '/');
        reveal_strlit("/");
    }
    match i {
        Some(i) => if i == 0 {
            let r = chars_of("/");
            r
        } else {
            crate::text::slice_chars(&v, 0, i)
        },
        None => Vec::new(),
    }
}

/// A file name taken relative to a directory.
fn joined_of(dir: &Vec<char>, file: &str) -> (r: String)
    ensures
        r@ == joined(dir@, file@),
{
    let f = chars_of(file);
    if (f.len() > 0 && f[0] == '/') || dir.len() == 0 {
        return string_of(f.as_slice());
    }
    let mut out = crate::text::copy_chars(dir);
    if dir[dir.len() - 1] != '/' {
        push_str(&mut out, "/");
    }
    crate::text::push_chars(&mut out, &f);
    proof {
        reveal_strlit("/");
    }
    string_of(out.as_slice())
}

impl SheetWalk {
    /// The walk of the hierarchy whose root sheet is the file `root`, of
    /// UUID `uuid`: the root sheet's instance alone, as the "Root sheet"
    /// page.
    pub fn start(root: &str, uuid: &Option<String>) -> (w: SheetWalk)
        ensures
            w@ == seq![VisitView { file: root@, page: "Root sheet"@, inst: root_path(*uuid), ancestry: seq![] }],
    {
        let visit = SheetVisit {
            file: string_of(chars_of(root).as_slice()),
            page: PageName::new("Root sheet"),
            inst: root_instance(uuid),
            ancestry: Vec::new(),
        };
        let mut queue = Vec::new();
        queue.push(visit);
        let w = SheetWalk { queue };
        assert(strings_view(Seq::<String>::empty()) =~= Seq::<Seq<char>>::empty());
        assert(w@ =~= seq![VisitView { file: root@, page: "Root sheet"@, inst: root_path(*uuid), ancestry: seq![] }]);
        w
    }

    /// Takes the next sheet instance to read from the end of the queue,
    /// passing over those that loop back to a sheet above them; none once
    /// the queue runs out.
    pub fn next_visit(&mut self) -> (r: Option<SheetVisit>)
        ensures
            final(self)@ == next_of(old(self)@).0,
            match r {
                Some(v) => next_of(old(self)@).1 == Some(v@),
                None => next_of(old(self)@).1 is None,
            },
    {
        loop
            invariant
                next_of(self@) == next_of(old(self)@),
            decreases self.queue.len(),
        {
            let ghost before = self@;
            match self.queue.pop() {
                None => {
                    return None;
                },
                Some(v) => {
                    proof {
                        assert(self@ =~= before.drop_last());
                        assert(before.last() == v@);
                    }
                    if !loops_back_exec(&v) {
                        return Some(v);
                    }
                },
            }
        }
    }

    /// Records that the sheet instance `visit` was read and holds the sheet
    /// blocks `sheets`: queues a visit for each sub-sheet in order, and
    /// gives the instance path and page name of each.
    pub fn enter(&mut self, visit: &SheetVisit, sheets: &Vec<SchSheet>) -> (names: Vec<(String, PageName)>)
        ensures
            final(self)@ == old(self)@ + child_visits(visit@, child_entries(sheets@, visit.inst@)),
            names_view(names@) == child_names(child_entries(sheets@, visit.inst@)),
    {
        let children = child_sheets(sheets, visit.inst.as_str());
        let ghost cs = child_entries(sheets@, visit.inst@);
        let dir = sheet_dir_of(visit.file.as_str());
        let mut names: Vec<(String, PageName)> = Vec::new();
        let ghost start = self@;
        let mut i: usize = 0;
        while i < children.len()
            invariant
                i <= children.len(),
                crate::semantic::extract::children_view(children@) == cs,
                dir@ == sheet_dir(visit.file@),
                self@ == start + child_visits(visit@, cs.take(i as int)),
                names_view(names@) == child_names(cs.take(i as int)),
            decreases children.len() - i,
        {
            let c = &children[i];
            assert(cs[i as int] == (c.0@, c.1@, c.2@));
            let mut ancestry: Vec<String> = Vec::new();
            let mut k: usize = 0;
            while k < visit.ancestry.len()
                invariant
                    k <= visit.ancestry.len(),
                    strings_view(ancestry@) == strings_view(visit.ancestry@).take(k as int),
                decreases visit.ancestry.len() - k,
            {
                let ghost a0 = ancestry@;
                ancestry.push(visit.ancestry[k].clone());
                assert(ancestry@ == a0.push(visit.ancestry@[k as int]));
                assert(strings_view(ancestry@) =~= strings_view(a0).push(visit.ancestry@[k as int]@));
                assert(strings_view(visit.ancestry@).take(k as int + 1) =~= strings_view(visit.ancestry@).take(
                    k as int,
                ).push(visit.ancestry@[k as int]@));
                k = k + 1;
            }
            assert(strings_view(visit.ancestry@).take(k as int) =~= strings_view(visit.ancestry@));
            let ghost a1 = ancestry@;
            ancestry.push(visit.file.clone());
            assert(ancestry@ == a1.push(visit.file));
            assert(strings_view(ancestry@) =~= strings_view(a1).push(visit.file@));
            let next = SheetVisit {
                file: joined_of(&dir, c.0.as_str()),
                page: PageName::new(c.1.as_str()),
                inst: c.2.clone(),
                ancestry,
            };
            assert(next@ == child_visit(visit@, cs[i as int]));
            let ghost q0 = self@;
            self.queue.push(next);
            assert(self@ =~= q0.push(next@));
            assert(child_visits(visit@, cs.take(i as int + 1)) =~= child_visits(visit@, cs.take(i as int)).push(
                child_visit(visit@, cs[i as int]),
            ));
            let ghost n0 = names_view(names@);
            names.push((c.2.clone(), PageName::new(c.1.as_str())));
            assert(names_view(names@) =~= n0.push((c.2@, c.1@)));
            assert(child_names(cs.take(i as int + 1)) =~= child_names(cs.take(i as int)).push((cs[i as int].2, cs[i as int].1)));
            i = i + 1;
        }
        assert(cs.take(children.len() as int) =~= cs);
        names
    }
}

} // verus!
