//! The pages a project's exported images make, in report order, before
//! the images themselves are compared.

use vstd::prelude::*;

use crate::ids::{PageName, ProjectLabel};
use crate::kicad::{
    layer_key, layer_label, layer_label_of, layer_sort_key, sheet_name, sheet_name_of, symbol_name, symbol_name_of,
    without_suffix, Kind, Page, Status,
};
use crate::semantic::part::{insert_text, lemma_text_order, text_order};
use crate::order::{lemma_insert_at, strict_order, strictly_sorted, total};
use crate::semantic::part::strings_view;
use crate::text::{
    chars_of, lemma_seq_lt_irreflexive, lemma_seq_lt_total, lemma_seq_lt_transitive, push_str, seq_lt, str_eq,
    str_lt, string_of,
};

verus! {

/// One page of a project, with the image file both sides export for it.
pub struct PlannedPage {
    /// The image's file name.
    pub file: String,
    /// The page's name (a layer label or a sheet name).
    pub name: PageName,
    /// The image's path below a side's `svg/` root.
    pub rel: String,
    /// Whether the base and the head revision export the image.
    pub in_base: bool,
    pub in_head: bool,
    /// For a board layer: each side's board outline image, to overlay.
    pub edge_base: Option<String>,
    pub edge_head: Option<String>,
}

/// The image files of a list of planned pages.
pub open spec fn plan_files(v: Seq<PlannedPage>) -> Seq<Seq<char>> {
    v.map_values(|p: PlannedPage| p.file@)
}

/// Lexicographic order on stackup keys.
pub open spec fn key_lt(a: (int, int, Seq<char>), b: (int, int, Seq<char>)) -> bool {
    a.0 < b.0 || (a.0 == b.0 && (a.1 < b.1 || (a.1 == b.1 && seq_lt(a.2, b.2))))
}

/// The stackup key of a board image file.
pub open spec fn file_key(file: Seq<char>, project_name: Seq<char>) -> (int, int, Seq<char>) {
    layer_key(layer_label_of(file, project_name))
}

/// The order of board image files: physical stackup order of their
/// layers, then by file name.
pub open spec fn layer_file_order(project_name: Seq<char>) -> spec_fn(Seq<char>, Seq<char>) -> bool {
    |f: Seq<char>, g: Seq<char>|
        key_lt(file_key(f, project_name), file_key(g, project_name)) || (file_key(f, project_name) == file_key(
            g,
            project_name,
        ) && seq_lt(f, g))
}

/// The board image order is a strict order relating any two files.
pub proof fn lemma_layer_file_order(project_name: Seq<char>)
    ensures
        strict_order(layer_file_order(project_name)),
        total(layer_file_order(project_name)),
{
    let lt = layer_file_order(project_name);
    assert forall|a: Seq<char>| !#[trigger] lt(a, a) by {
        lemma_seq_lt_irreflexive(file_key(a, project_name).2);
        lemma_seq_lt_irreflexive(a);
    }
    assert forall|a: Seq<char>, b: Seq<char>, c: Seq<char>| #[trigger] lt(a, b) && #[trigger] lt(b, c) implies lt(
        a,
        c,
    ) by {
        let (ka, kb, kc) = (file_key(a, project_name), file_key(b, project_name), file_key(c, project_name));
        if seq_lt(ka.2, kb.2) && seq_lt(kb.2, kc.2) {
            lemma_seq_lt_transitive(ka.2, kb.2, kc.2);
        }
        if seq_lt(a, b) && seq_lt(b, c) {
            lemma_seq_lt_transitive(a, b, c);
        }
        lemma_seq_lt_irreflexive(ka.2);
        lemma_seq_lt_irreflexive(kb.2);
        if ka.0 == kb.0 && kb.0 == kc.0 && ka.1 == kb.1 && kb.1 == kc.1 && ka.2 != kc.2 {
            lemma_seq_lt_total(ka.2, kc.2);
            if seq_lt(kc.2, ka.2) {
                if seq_lt(ka.2, kb.2) {
                    lemma_seq_lt_transitive(kc.2, ka.2, kb.2);
                    if seq_lt(kb.2, kc.2) {
                        lemma_seq_lt_transitive(kc.2, kb.2, kc.2);
                        lemma_seq_lt_irreflexive(kc.2);
                    }
                }
            }
        }
    }
    assert forall|a: Seq<char>, b: Seq<char>| a != b implies #[trigger] lt(a, b) || lt(b, a) by {
        lemma_seq_lt_total(file_key(a, project_name).2, file_key(b, project_name).2);
        lemma_seq_lt_total(a, b);
    }
}

/// Whether board image file `f` comes before `g`.
fn layer_file_before(f: &String, g: &String, project_name: &str) -> (r: bool)
    ensures
        r == layer_file_order(project_name@)(f@, g@),
{
    let kf = layer_sort_key(layer_label(f.as_str(), project_name).as_str());
    let kg = layer_sort_key(layer_label(g.as_str(), project_name).as_str());
    if kf.0 != kg.0 {
        return kf.0 < kg.0;
    }
    if kf.1 != kg.1 {
        return kf.1 < kg.1;
    }
    if !str_eq(kf.2.as_str(), kg.2.as_str()) {
        proof {
            lemma_seq_lt_total(kf.2@, kg.2@);
        }
        return str_lt(kf.2.as_str(), kg.2.as_str());
    }
    proof {
        lemma_seq_lt_irreflexive(kf.2@);
        assert(file_key(f@, project_name@) == file_key(g@, project_name@));
    }
    str_lt(f.as_str(), g.as_str())
}

/// Adds a board image file to a list in board image order.
fn insert_layer_file(v: &mut Vec<String>, f: &String, project_name: &str)
    requires
        strictly_sorted(strings_view(old(v)@), layer_file_order(project_name@)),
    ensures
        strictly_sorted(strings_view(final(v)@), layer_file_order(project_name@)),
        strings_view(final(v)@).to_set() == strings_view(old(v)@).to_set().insert(f@),
{
    let ghost ov = strings_view(v@);
    let ghost ord = layer_file_order(project_name@);
    proof {
        lemma_layer_file_order(project_name@);
    }
    let mut i: usize = 0;
    while i < v.len() && layer_file_before(&v[i], f, project_name)
        invariant
            i <= v.len(),
            v@ == old(v)@,
            ov == strings_view(v@),
            ord == layer_file_order(project_name@),
            forall|j: int| 0 <= j < i ==> ord(ov[j], f@),
        decreases v.len() - i,
    {
        assert(ov[i as int] == v@[i as int]@);
        i = i + 1;
    }
    if i < v.len() && str_eq(v[i].as_str(), f.as_str()) {
        assert(ov[i as int] == f@);
        assert(ov.to_set().insert(f@) =~= ov.to_set());
        return;
    }
    proof {
        if i < v.len() {
            assert(ov[i as int] == v@[i as int]@);
            assert(ord(f@, ov[i as int]));
        }
        lemma_insert_at(ov, f@, i as int, ord);
    }
    v.insert(i, f.clone());
    assert(strings_view(v@) =~= ov.insert(i as int, f@));
}

/// Whether a list of texts holds `s`.
pub fn holds_text(v: &Vec<String>, s: &str) -> (r: bool)
    ensures
        r == strings_view(v@).contains(s@),
{
    let mut i: usize = 0;
    while i < v.len()
        invariant
            i <= v.len(),
            forall|j: int| 0 <= j < i ==> v@[j]@ != s@,
        decreases v.len() - i,
    {
        if str_eq(v[i].as_str(), s) {
            assert(strings_view(v@)[i as int] == s@);
            return true;
        }
        i = i + 1;
    }
    assert forall|j: int| 0 <= j < v.len() implies strings_view(v@)[j] != s@ by {
        assert(strings_view(v@)[j] == v@[j]@);
    }
    false
}

/// The board outline image of a project: `name-Edge_Cuts.svg`.
pub open spec fn edge_file(project_name: Seq<char>) -> Seq<char> {
    project_name + "-Edge_Cuts.svg"@
}

/// A side's link to an image: `side/svg/folder/sub/file`.
pub open spec fn side_link(side: Seq<char>, folder: Seq<char>, sub: Seq<char>, file: Seq<char>) -> Seq<char> {
    side + "/svg/"@ + folder + "/"@ + sub + "/"@ + file
}

/// An image's path below a side's `svg/` root: `folder/sub/file`.
pub open spec fn page_rel(folder: Seq<char>, sub: Seq<char>, file: Seq<char>) -> Seq<char> {
    folder + "/"@ + sub + "/"@ + file
}

/// `p` is the board page for image `file` of a project whose sides export
/// `base` and `head`: named after its layer, linked under `folder`, with
/// each side's outline image as context (none on the outline's own page).
pub open spec fn board_page(
    p: PlannedPage,
    file: Seq<char>,
    project_name: Seq<char>,
    folder: Seq<char>,
    base: Set<Seq<char>>,
    head: Set<Seq<char>>,
) -> bool {
    let edge = edge_file(project_name);
    &&& p.file@ == file
    &&& p.name@ == layer_label_of(file, project_name)
    &&& p.rel@ == page_rel(folder, "pcb"@, file)
    &&& p.in_base == base.contains(file)
    &&& p.in_head == head.contains(file)
    &&& crate::semantic::geometry::opt_chars(p.edge_base) == (if file != edge && base.contains(edge) {
        Some(side_link("a"@, folder, "pcb"@, edge))
    } else {
        None
    })
    &&& crate::semantic::geometry::opt_chars(p.edge_head) == (if file != edge && head.contains(edge) {
        Some(side_link("b"@, folder, "pcb"@, edge))
    } else {
        None
    })
}

/// Each revision's layers show that revision's own outline: on a board
/// page, a base outline link lies under the base side's root `a/svg/`, a
/// head outline link under the head side's root `b/svg/` (so the two never
/// coincide), each ends in the outline image's file name, and
/// each is there exactly when that side exported an outline and the page is
/// not the outline's own.
pub proof fn law_outlines_come_from_their_own_side(
    p: PlannedPage,
    file: Seq<char>,
    project_name: Seq<char>,
    folder: Seq<char>,
    base: Set<Seq<char>>,
    head: Set<Seq<char>>,
)
    requires
        board_page(p, file, project_name, folder, base, head),
    ensures
        p.edge_base is Some <==> (file != edge_file(project_name) && base.contains(edge_file(project_name))),
        p.edge_head is Some <==> (file != edge_file(project_name) && head.contains(edge_file(project_name))),
        p.edge_base is Some ==> p.edge_base->0@.take(6) == "a/svg/"@ && p.edge_base->0@.len() >= 6,
        p.edge_head is Some ==> p.edge_head->0@.take(6) == "b/svg/"@ && p.edge_head->0@.len() >= 6,
        p.edge_base is Some ==> p.edge_base->0@.len() >= edge_file(project_name).len() && p.edge_base->0@.skip(
            p.edge_base->0@.len() - edge_file(project_name).len(),
        ) == edge_file(project_name),
        p.edge_head is Some ==> p.edge_head->0@.len() >= edge_file(project_name).len() && p.edge_head->0@.skip(
            p.edge_head->0@.len() - edge_file(project_name).len(),
        ) == edge_file(project_name),
        p.edge_base is Some && p.edge_head is Some ==> p.edge_base->0@ != p.edge_head->0@,
{
    reveal_strlit("a/svg/");
    reveal_strlit("b/svg/");
    reveal_strlit("a");
    reveal_strlit("b");
    reveal_strlit("/svg/");
    reveal_strlit("/");
    let edge = edge_file(project_name);
    if p.edge_base is Some {
        let l = p.edge_base->0@;
        assert(l == side_link("a"@, folder, "pcb"@, edge));
        assert(l.take(6) =~= "a/svg/"@);
        assert(l.skip(l.len() - edge.len()) =~= edge);
    }
    if p.edge_head is Some {
        let l = p.edge_head->0@;
        assert(l == side_link("b"@, folder, "pcb"@, edge));
        assert(l.take(6) =~= "b/svg/"@);
        assert(l.skip(l.len() - edge.len()) =~= edge);
    }
    if p.edge_base is Some && p.edge_head is Some {
        assert(p.edge_base->0@[0] != p.edge_head->0@[0]);
    }
}

/// The text `side/svg/folder/sub/file`.
fn side_link_of(side: &str, folder: &str, sub: &str, file: &str) -> (r: String)
    ensures
        r@ == side_link(side@, folder@, sub@, file@),
{
    let mut v: Vec<char> = Vec::new();
    push_str(&mut v, side);
    push_str(&mut v, "/svg/");
    push_str(&mut v, folder);
    push_str(&mut v, "/");
    push_str(&mut v, sub);
    push_str(&mut v, "/");
    push_str(&mut v, file);
    assert(v@ =~= side_link(side@, folder@, sub@, file@));
    string_of(v.as_slice())
}

/// The text `folder/sub/file`.
fn page_rel_of(folder: &str, sub: &str, file: &str) -> (r: String)
    ensures
        r@ == page_rel(folder@, sub@, file@),
{
    let mut v: Vec<char> = Vec::new();
    push_str(&mut v, folder);
    push_str(&mut v, "/");
    push_str(&mut v, sub);
    push_str(&mut v, "/");
    push_str(&mut v, file);
    assert(v@ =~= page_rel(folder@, sub@, file@));
    string_of(v.as_slice())
}

/// The board pages of a project named `project_name`, linked under
/// `folder`, whose sides exported the images `base` and `head`: one per
/// image of either side, in physical stackup order of their layers (then
/// by file name), with each side's outline image as context.
pub fn board_plan(project_name: &str, folder: &str, base: &Vec<String>, head: &Vec<String>) -> (r: Vec<PlannedPage>)
    ensures
        strictly_sorted(plan_files(r@), layer_file_order(project_name@)),
        plan_files(r@).to_set() == strings_view(base@).to_set() + strings_view(
            head@,
        ).to_set(),
        forall|i: int|
            0 <= i < r.len() ==> board_page(
                #[trigger] r@[i],
                r@[i].file@,
                project_name@,
                folder@,
                strings_view(base@).to_set(),
                strings_view(head@).to_set(),
            ),
{
    let mut files: Vec<String> = Vec::new();
    let mut i: usize = 0;
    while i < base.len()
        invariant
            i <= base.len(),
            strictly_sorted(strings_view(files@), layer_file_order(project_name@)),
            strings_view(files@).to_set() == strings_view(base@.take(i as int)).to_set(),
        decreases base.len() - i,
    {
        insert_layer_file(&mut files, &base[i], project_name);
        assert(strings_view(base@.take(i as int + 1)) =~= strings_view(base@.take(i as int)).push(base@[i as int]@));
        proof {
            crate::order::lemma_push_to_set(strings_view(base@.take(i as int)), base@[i as int]@);
        }
        i = i + 1;
    }
    assert(base@.take(base.len() as int) =~= base@);
    let mut j: usize = 0;
    while j < head.len()
        invariant
            j <= head.len(),
            strictly_sorted(strings_view(files@), layer_file_order(project_name@)),
            strings_view(files@).to_set() == strings_view(base@).to_set() + strings_view(head@.take(j as int)).to_set(),
        decreases head.len() - j,
    {
        insert_layer_file(&mut files, &head[j], project_name);
        assert(strings_view(head@.take(j as int + 1)) =~= strings_view(head@.take(j as int)).push(head@[j as int]@));
        proof {
            crate::order::lemma_push_to_set(strings_view(head@.take(j as int)), head@[j as int]@);
        }
        assert(strings_view(files@).to_set() =~= strings_view(base@).to_set() + strings_view(head@.take(j as int + 1)).to_set());
        j = j + 1;
    }
    assert(head@.take(head.len() as int) =~= head@);
    let mut edge_chars = chars_of(project_name);
    push_str(&mut edge_chars, "-Edge_Cuts.svg");
    let edge = string_of(edge_chars.as_slice());
    assert(edge@ =~= edge_file(project_name@));
    let edge_in_base = holds_text(base, edge.as_str());
    let edge_in_head = holds_text(head, edge.as_str());
    let mut out: Vec<PlannedPage> = Vec::new();
    let mut k: usize = 0;
    while k < files.len()
        invariant
            k <= files.len(),
            edge@ == edge_file(project_name@),
            edge_in_base == strings_view(base@).contains(edge@),
            edge_in_head == strings_view(head@).contains(edge@),
            plan_files(out@) == strings_view(files@).take(k as int),
            forall|q: int|
                0 <= q < out.len() ==> board_page(
                    #[trigger] out@[q],
                    out@[q].file@,
                    project_name@,
                    folder@,
                    strings_view(base@).to_set(),
                    strings_view(head@).to_set(),
                ),
        decreases files.len() - k,
    {
        let f = &files[k];
        let not_edge = !str_eq(f.as_str(), edge.as_str());
        let edge_base = if not_edge && edge_in_base {
            Some(side_link_of("a", folder, "pcb", edge.as_str()))
        } else {
            None
        };
        let edge_head = if not_edge && edge_in_head {
            Some(side_link_of("b", folder, "pcb", edge.as_str()))
        } else {
            None
        };
        let in_base = holds_text(base, f.as_str());
        let in_head = holds_text(head, f.as_str());
        let page = PlannedPage {
            file: f.clone(),
            name: PageName::from_string(layer_label(f.as_str(), project_name)),
            rel: page_rel_of(folder, "pcb", f.as_str()),
            in_base,
            in_head,
            edge_base,
            edge_head,
        };
        proof {
            assert(strings_view(base@).to_set().contains(f@) == strings_view(base@).contains(f@));
            assert(strings_view(head@).to_set().contains(f@) == strings_view(head@).contains(f@));
            assert(strings_view(base@).to_set().contains(edge@) == strings_view(base@).contains(edge@));
            assert(strings_view(head@).to_set().contains(edge@) == strings_view(head@).contains(edge@));
            reveal_strlit("pcb");
            reveal_strlit("a");
            reveal_strlit("b");
        }
        let ghost before = plan_files(out@);
        out.push(page);
        assert(plan_files(out@) =~= before.push(files@[k as int]@));
        assert(strings_view(files@).take(k as int + 1) =~= strings_view(files@).take(k as int).push(files@[k as int]@));
        k = k + 1;
    }
    assert(strings_view(files@).take(files.len() as int) =~= strings_view(files@));
    out
}


/// What `str::to_lowercase` makes of a text (Unicode's lowercase mapping,
/// character by character, with its context rules).
pub uninterp spec fn lowercase(s: Seq<char>) -> Seq<char>;

/// The lowercase form of a text, by `str::to_lowercase`; the contract
/// claims only that the result is a function of the text.
#[verifier::external_body]
fn to_lower(s: &str) -> (r: String)
    ensures
        r@ == lowercase(s@),
{
    s.to_lowercase()
}

/// The order key of a sheet page: the root sheet first, then the rest by
/// their lowercase names.
pub open spec fn sheet_key(name: Seq<char>) -> (int, Seq<char>) {
    if name == "Root sheet"@ {
        (0, seq![])
    } else {
        (1, lowercase(name))
    }
}

/// The order of sheet image files: by their sheets' order keys, then by
/// file name.
pub open spec fn sheet_file_order(project_name: Seq<char>) -> spec_fn(Seq<char>, Seq<char>) -> bool {
    |f: Seq<char>, g: Seq<char>|
        {
            let kf = sheet_key(sheet_name_of(f, project_name));
            let kg = sheet_key(sheet_name_of(g, project_name));
            kf.0 < kg.0 || (kf.0 == kg.0 && seq_lt(kf.1, kg.1)) || (kf == kg && seq_lt(f, g))
        }
}

/// The sheet image order is a strict order relating any two files.
pub proof fn lemma_sheet_file_order(project_name: Seq<char>)
    ensures
        strict_order(sheet_file_order(project_name)),
        total(sheet_file_order(project_name)),
{
    let lt = sheet_file_order(project_name);
    assert forall|a: Seq<char>| !#[trigger] lt(a, a) by {
        lemma_seq_lt_irreflexive(sheet_key(sheet_name_of(a, project_name)).1);
        lemma_seq_lt_irreflexive(a);
    }
    assert forall|a: Seq<char>, b: Seq<char>, c: Seq<char>| #[trigger] lt(a, b) && #[trigger] lt(b, c) implies lt(
        a,
        c,
    ) by {
        let ka = sheet_key(sheet_name_of(a, project_name));
        let kb = sheet_key(sheet_name_of(b, project_name));
        let kc = sheet_key(sheet_name_of(c, project_name));
        lemma_seq_lt_irreflexive(ka.1);
        lemma_seq_lt_irreflexive(kb.1);
        if seq_lt(ka.1, kb.1) && seq_lt(kb.1, kc.1) {
            lemma_seq_lt_transitive(ka.1, kb.1, kc.1);
        }
        if seq_lt(a, b) && seq_lt(b, c) {
            lemma_seq_lt_transitive(a, b, c);
        }
        if ka.0 == kb.0 && kb.0 == kc.0 && ka.1 != kc.1 {
            lemma_seq_lt_total(ka.1, kc.1);
            if seq_lt(kc.1, ka.1) && seq_lt(ka.1, kb.1) {
                lemma_seq_lt_transitive(kc.1, ka.1, kb.1);
                if seq_lt(kb.1, kc.1) {
                    lemma_seq_lt_transitive(kc.1, kb.1, kc.1);
                    lemma_seq_lt_irreflexive(kc.1);
                }
            }
        }
    }
    assert forall|a: Seq<char>, b: Seq<char>| a != b implies #[trigger] lt(a, b) || lt(b, a) by {
        lemma_seq_lt_total(
            sheet_key(sheet_name_of(a, project_name)).1,
            sheet_key(sheet_name_of(b, project_name)).1,
        );
        lemma_seq_lt_total(a, b);
    }
}

/// The order key of a sheet page.
fn sheet_key_of(name: &str) -> (r: (u8, String))
    ensures
        (r.0 as int, r.1@) == sheet_key(name@),
{
    if str_eq(name, "Root sheet") {
        let e = String::new();
        assert(e@ =~= Seq::<char>::empty());
        (0, e)
    } else {
        (1, to_lower(name))
    }
}

/// Whether sheet image file `f` comes before `g`.
fn sheet_file_before(f: &String, g: &String, project_name: &str) -> (r: bool)
    ensures
        r == sheet_file_order(project_name@)(f@, g@),
{
    let kf = sheet_key_of(sheet_name(f.as_str(), project_name).as_str());
    let kg = sheet_key_of(sheet_name(g.as_str(), project_name).as_str());
    if kf.0 != kg.0 {
        return kf.0 < kg.0;
    }
    if !str_eq(kf.1.as_str(), kg.1.as_str()) {
        proof {
            lemma_seq_lt_total(kf.1@, kg.1@);
        }
        return str_lt(kf.1.as_str(), kg.1.as_str());
    }
    proof {
        lemma_seq_lt_irreflexive(kf.1@);
    }
    str_lt(f.as_str(), g.as_str())
}

/// Adds a sheet image file to a list in sheet order.
fn insert_sheet_file(v: &mut Vec<String>, f: &String, project_name: &str)
    requires
        strictly_sorted(strings_view(old(v)@), sheet_file_order(project_name@)),
    ensures
        strictly_sorted(strings_view(final(v)@), sheet_file_order(project_name@)),
        strings_view(final(v)@).to_set() == strings_view(old(v)@).to_set().insert(f@),
{
    let ghost ov = strings_view(v@);
    let ghost ord = sheet_file_order(project_name@);
    proof {
        lemma_sheet_file_order(project_name@);
    }
    let mut i: usize = 0;
    while i < v.len() && sheet_file_before(&v[i], f, project_name)
        invariant
            i <= v.len(),
            v@ == old(v)@,
            ov == strings_view(v@),
            ord == sheet_file_order(project_name@),
            forall|j: int| 0 <= j < i ==> ord(ov[j], f@),
        decreases v.len() - i,
    {
        assert(ov[i as int] == v@[i as int]@);
        i = i + 1;
    }
    if i < v.len() && str_eq(v[i].as_str(), f.as_str()) {
        assert(ov[i as int] == f@);
        assert(ov.to_set().insert(f@) =~= ov.to_set());
        return;
    }
    proof {
        if i < v.len() {
            assert(ov[i as int] == v@[i as int]@);
            assert(ord(f@, ov[i as int]));
        }
        lemma_insert_at(ov, f@, i as int, ord);
    }
    v.insert(i, f.clone());
    assert(strings_view(v@) =~= ov.insert(i as int, f@));
}

/// The new name a renamed sheet has (the first pair for it).
pub open spec fn renamed_as(renames: Seq<(PageName, PageName)>, name: Seq<char>) -> Option<Seq<char>>
    decreases renames.len(),
{
    if renames.len() == 0 {
        None
    } else if renames[0].0@ == name {
        Some(renames[0].1@)
    } else {
        renamed_as(renames.drop_first(), name)
    }
}

/// The head image of sheet `name`: the last, in text order, of the head
/// files of that sheet.
pub open spec fn head_file_of(head: Set<Seq<char>>, name: Seq<char>, project_name: Seq<char>) -> Option<Seq<char>> {
    if exists|f: Seq<char>| head.contains(f) && sheet_name_of(f, project_name) == name {
        Some(choose|f: Seq<char>| last_of_sheet(head, name, project_name, f))
    } else {
        None
    }
}

/// `f` is the last head image of sheet `name`, in text order.
pub open spec fn last_of_sheet(head: Set<Seq<char>>, name: Seq<char>, project_name: Seq<char>, f: Seq<char>) -> bool {
    &&& head.contains(f)
    &&& sheet_name_of(f, project_name) == name
    &&& forall|g: Seq<char>|
        head.contains(g) && sheet_name_of(g, project_name) == name && g != f ==> #[trigger] seq_lt(g, f)
}

/// Where a base image of a renamed sheet moves: the head image of the
/// sheet's new name, when both exist.
pub open spec fn move_target(
    file: Seq<char>,
    head: Set<Seq<char>>,
    renames: Seq<(PageName, PageName)>,
    project_name: Seq<char>,
) -> Option<Seq<char>> {
    match renamed_as(renames, sheet_name_of(file, project_name)) {
        Some(n) => head_file_of(head, n, project_name),
        None => None,
    }
}

/// The new name of a renamed sheet.
fn renamed_as_exec(renames: &Vec<(PageName, PageName)>, name: &str) -> (r: Option<String>)
    ensures
        crate::semantic::geometry::opt_chars(r) == renamed_as(renames@, name@),
{
    let mut i: usize = 0;
    assert(renames@.skip(0) =~= renames@);
    while i < renames.len()
        invariant
            i <= renames.len(),
            renamed_as(renames@, name@) == renamed_as(renames@.skip(i as int), name@),
        decreases renames.len() - i,
    {
        assert(renames@.skip(i as int)[0] == renames@[i as int]);
        if str_eq(renames[i].0.as_str(), name) {
            return Some(renames[i].1.as_str().to_owned());
        }
        assert(renames@.skip(i as int).drop_first() =~= renames@.skip(i as int + 1));
        i = i + 1;
    }
    None
}

/// The head image of sheet `name`.
fn head_file_exec(head: &Vec<String>, name: &str, project_name: &str) -> (r: Option<String>)
    ensures
        crate::semantic::geometry::opt_chars(r) == head_file_of(strings_view(head@).to_set(), name@, project_name@),
{
    let ghost hs = strings_view(head@).to_set();
    let mut best: Option<String> = None;
    let mut i: usize = 0;
    while i < head.len()
        invariant
            i <= head.len(),
            hs == strings_view(head@).to_set(),
            match best {
                Some(b) => hs.contains(b@) && sheet_name_of(b@, project_name@) == name@ && (exists|k: int|
                    0 <= k < i && head@[k]@ == b@) && forall|k: int|
                    0 <= k < i && sheet_name_of(#[trigger] head@[k]@, project_name@) == name@ && head@[k]@
                        != b@ ==> seq_lt(head@[k]@, b@),
                None => forall|k: int| 0 <= k < i ==> sheet_name_of(#[trigger] head@[k]@, project_name@) != name@,
            },
        decreases head.len() - i,
    {
        assert(strings_view(head@)[i as int] == head@[i as int]@);
        let n = sheet_name(head[i].as_str(), project_name);
        if str_eq(n.as_str(), name) {
            let better = match &best {
                Some(b) => str_lt(b.as_str(), head[i].as_str()),
                None => true,
            };
            if better {
                proof {
                    if best is Some {
                        let b = best->0;
                        assert forall|k: int|
                            0 <= k < i + 1 && sheet_name_of(#[trigger] head@[k]@, project_name@) == name@ && head@[k]@
                                != head@[i as int]@ implies seq_lt(head@[k]@, head@[i as int]@) by {
                            if k < i && head@[k]@ != b@ {
                                lemma_seq_lt_transitive(head@[k]@, b@, head@[i as int]@);
                            }
                        }
                    }
                }
                best = Some(head[i].clone());
            } else {
                proof {
                    if best is Some {
                        let b = best->0;
                        if head@[i as int]@ != b@ {
                            lemma_seq_lt_total(head@[i as int]@, b@);
                        }
                    }
                }
            }
        }
        i = i + 1;
    }
    proof {
        if best is Some {
            let b = best->0;
            assert forall|g: Seq<char>|
                hs.contains(g) && sheet_name_of(g, project_name@) == name@ && g != b@ implies #[trigger] seq_lt(g, b@) by {
                let k = choose|k: int| 0 <= k < strings_view(head@).len() && strings_view(head@)[k] == g;
                assert(head@[k]@ == g);
            }
            assert(last_of_sheet(hs, name@, project_name@, b@));
            let w = choose|f: Seq<char>| last_of_sheet(hs, name@, project_name@, f);
            assert(last_of_sheet(hs, name@, project_name@, w));
            if w != b@ {
                assert(seq_lt(w, b@));
                assert(seq_lt(b@, w));
                crate::text::lemma_seq_lt_asymmetric(w, b@);
            }
        } else {
            assert forall|f: Seq<char>| hs.contains(f) implies sheet_name_of(f, project_name@) != name@ by {
                let k = choose|k: int| 0 <= k < strings_view(head@).len() && strings_view(head@)[k] == f;
                assert(head@[k]@ == f);
            }
        }
    }
    best
}

/// The images of renamed sheets that move on the base side: each base
/// image of a sheet renamed in `renames`, with the head image of the new
/// name it takes, in the order of `base`.
pub fn sheet_moves(
    base: &Vec<String>,
    head: &Vec<String>,
    renames: &Vec<(PageName, PageName)>,
    project_name: &str,
) -> (r: Vec<(String, String)>)
    ensures
        r@.map_values(|m: (String, String)| (m.0@, m.1@)) == moves_of(
            strings_view(base@),
            strings_view(head@).to_set(),
            renames@,
            project_name@,
        ),
{
    let mut out: Vec<(String, String)> = Vec::new();
    let mut i: usize = 0;
    while i < base.len()
        invariant
            i <= base.len(),
            out@.map_values(|m: (String, String)| (m.0@, m.1@)) == moves_of(
                strings_view(base@).take(i as int),
                strings_view(head@).to_set(),
                renames@,
                project_name@,
            ),
        decreases base.len() - i,
    {
        let ghost pre = strings_view(base@).take(i as int);
        let ghost next = strings_view(base@).take(i as int + 1);
        assert(next.drop_last() =~= pre);
        assert(next.last() == base@[i as int]@);
        let n = sheet_name(base[i].as_str(), project_name);
        let target = match renamed_as_exec(renames, n.as_str()) {
            Some(new_name) => head_file_exec(head, new_name.as_str(), project_name),
            None => None,
        };
        match target {
            Some(t) => {
                let ghost before = out@.map_values(|m: (String, String)| (m.0@, m.1@));
                out.push((base[i].clone(), t));
                assert(out@.map_values(|m: (String, String)| (m.0@, m.1@)) =~= before.push((base@[i as int]@, t@)));
            },
            None => {},
        }
        i = i + 1;
    }
    assert(strings_view(base@).take(base.len() as int) =~= strings_view(base@));
    out
}

/// The moves of the base images `base`.
pub open spec fn moves_of(
    base: Seq<Seq<char>>,
    head: Set<Seq<char>>,
    renames: Seq<(PageName, PageName)>,
    project_name: Seq<char>,
) -> Seq<(Seq<char>, Seq<char>)>
    decreases base.len(),
{
    if base.len() == 0 {
        seq![]
    } else {
        let rest = moves_of(base.drop_last(), head, renames, project_name);
        match move_target(base.last(), head, renames, project_name) {
            Some(t) => rest.push((base.last(), t)),
            None => rest,
        }
    }
}


/// The base images once renamed sheets have moved: those not moved away,
/// and every move's target.
pub open spec fn moved_base(base: Set<Seq<char>>, moves: Seq<(Seq<char>, Seq<char>)>) -> Set<Seq<char>> {
    Set::new(
        |f: Seq<char>|
            (base.contains(f) && !(exists|k: int| 0 <= k < moves.len() && #[trigger] moves[k].0 == f)) || (exists|k: int|
                0 <= k < moves.len() && #[trigger] moves[k].1 == f),
    )
}

/// `p` is the sheet page for image `file`: named after its sheet, linked
/// under `folder`, present on each side that has the image.
pub open spec fn sheet_page(
    p: PlannedPage,
    file: Seq<char>,
    project_name: Seq<char>,
    folder: Seq<char>,
    base: Set<Seq<char>>,
    head: Set<Seq<char>>,
) -> bool {
    &&& p.file@ == file
    &&& p.name@ == sheet_name_of(file, project_name)
    &&& p.rel@ == page_rel(folder, "sch"@, file)
    &&& p.in_base == base.contains(file)
    &&& p.in_head == head.contains(file)
    &&& p.edge_base is None
    &&& p.edge_head is None
}

/// The view of moves.
pub open spec fn moves_view(m: Seq<(String, String)>) -> Seq<(Seq<char>, Seq<char>)> {
    m.map_values(|x: (String, String)| (x.0@, x.1@))
}

/// Whether a base image moves away.
fn moves_away(moves: &Vec<(String, String)>, f: &str) -> (r: bool)
    ensures
        r == (exists|k: int| 0 <= k < moves.len() && #[trigger] moves_view(moves@)[k].0 == f@),
{
    let mut i: usize = 0;
    while i < moves.len()
        invariant
            i <= moves.len(),
            forall|k: int| 0 <= k < i ==> #[trigger] moves_view(moves@)[k].0 != f@,
        decreases moves.len() - i,
    {
        assert(moves_view(moves@)[i as int].0 == moves@[i as int].0@);
        if str_eq(moves[i].0.as_str(), f) {
            return true;
        }
        i = i + 1;
    }
    false
}

/// The sheet pages of a project named `project_name`, linked under
/// `folder`: one per image of the base side (once renamed sheets have
/// moved by `moves`) or the head side, the root sheet first, then by
/// lowercase sheet name, then by file name.
pub fn sheet_plan(
    project_name: &str,
    folder: &str,
    base: &Vec<String>,
    head: &Vec<String>,
    moves: &Vec<(String, String)>,
) -> (r: Vec<PlannedPage>)
    ensures
        strictly_sorted(plan_files(r@), sheet_file_order(project_name@)),
        plan_files(r@).to_set() == moved_base(
            strings_view(base@).to_set(),
            moves_view(moves@),
        ) + strings_view(head@).to_set(),
        forall|i: int|
            0 <= i < r.len() ==> sheet_page(
                #[trigger] r@[i],
                r@[i].file@,
                project_name@,
                folder@,
                moved_base(strings_view(base@).to_set(), moves_view(moves@)),
                strings_view(head@).to_set(),
            ),
{
    let ghost mv = moves_view(moves@);
    let ghost bs = strings_view(base@).to_set();
    let ghost after = moved_base(bs, mv);
    let mut kept: Vec<String> = Vec::new();
    let mut i: usize = 0;
    while i < base.len()
        invariant
            i <= base.len(),
            mv == moves_view(moves@),
            strictly_sorted(strings_view(kept@), sheet_file_order(project_name@)),
            strings_view(kept@).to_set() == Set::new(
                |f: Seq<char>|
                    (exists|j: int| 0 <= j < i && base@[j]@ == f) && !(exists|k: int|
                        0 <= k < moves.len() && #[trigger] mv[k].0 == f),
            ),
        decreases base.len() - i,
    {
        let ghost old_set = strings_view(kept@).to_set();
        if !moves_away(moves, base[i].as_str()) {
            insert_sheet_file(&mut kept, &base[i], project_name);
        }
        assert(strings_view(kept@).to_set() =~= Set::new(
            |f: Seq<char>|
                (exists|j: int| 0 <= j < i + 1 && base@[j]@ == f) && !(exists|k: int|
                    0 <= k < moves.len() && #[trigger] mv[k].0 == f),
        )) by {
            assert forall|f: Seq<char>|
                strings_view(kept@).to_set().contains(f) == ((exists|j: int| 0 <= j < i + 1 && base@[j]@ == f) && !(exists|k: int|
                    0 <= k < moves.len() && #[trigger] mv[k].0 == f)) by {
                if exists|j: int| 0 <= j < i + 1 && base@[j]@ == f {
                    let j = choose|j: int| 0 <= j < i + 1 && base@[j]@ == f;
                    if j < i {
                        assert(exists|j: int| 0 <= j < i && base@[j]@ == f);
                    }
                }
                if exists|j: int| 0 <= j < i && base@[j]@ == f {
                    let j = choose|j: int| 0 <= j < i && base@[j]@ == f;
                    assert(0 <= j < i + 1 && base@[j]@ == f);
                }
            }
        }
        i = i + 1;
    }
    let mut files = kept;
    let mut m: usize = 0;
    while m < moves.len()
        invariant
            m <= moves.len(),
            mv == moves_view(moves@),
            strictly_sorted(strings_view(files@), sheet_file_order(project_name@)),
            strings_view(files@).to_set() == Set::new(
                |f: Seq<char>|
                    (exists|j: int| 0 <= j < base.len() && base@[j]@ == f) && !(exists|k: int|
                        0 <= k < moves.len() && #[trigger] mv[k].0 == f),
            ) + Set::new(|f: Seq<char>| exists|k: int| 0 <= k < m && #[trigger] mv[k].1 == f),
        decreases moves.len() - m,
    {
        assert(mv[m as int].1 == moves@[m as int].1@);
        insert_sheet_file(&mut files, &moves[m].1, project_name);
        assert(Set::new(|f: Seq<char>| exists|k: int| 0 <= k < m + 1 && #[trigger] mv[k].1 == f) =~= Set::new(
            |f: Seq<char>| exists|k: int| 0 <= k < m && #[trigger] mv[k].1 == f,
        ).insert(mv[m as int].1));
        m = m + 1;
    }
    proof {
        assert forall|f: Seq<char>| strings_view(files@).to_set().contains(f) == after.contains(f) by {
            if exists|j: int| 0 <= j < base.len() && base@[j]@ == f {
                let j = choose|j: int| 0 <= j < base.len() && base@[j]@ == f;
                assert(strings_view(base@)[j] == f);
            }
            if bs.contains(f) {
                let j = choose|j: int| 0 <= j < strings_view(base@).len() && strings_view(base@)[j] == f;
                assert(base@[j]@ == f);
            }
        }
        assert(strings_view(files@).to_set() =~= after);
    }
    let mut h: usize = 0;
    while h < head.len()
        invariant
            h <= head.len(),
            strictly_sorted(strings_view(files@), sheet_file_order(project_name@)),
            strings_view(files@).to_set() == after + strings_view(head@.take(h as int)).to_set(),
        decreases head.len() - h,
    {
        insert_sheet_file(&mut files, &head[h], project_name);
        assert(strings_view(head@.take(h as int + 1)) =~= strings_view(head@.take(h as int)).push(head@[h as int]@));
        proof {
            crate::order::lemma_push_to_set(strings_view(head@.take(h as int)), head@[h as int]@);
        }
        assert(strings_view(files@).to_set() =~= after + strings_view(head@.take(h as int + 1)).to_set());
        h = h + 1;
    }
    assert(head@.take(head.len() as int) =~= head@);
    let mut out: Vec<PlannedPage> = Vec::new();
    let mut k: usize = 0;
    while k < files.len()
        invariant
            k <= files.len(),
            mv == moves_view(moves@),
            bs == strings_view(base@).to_set(),
            after == moved_base(bs, mv),
            strings_view(files@).to_set() == after + strings_view(head@).to_set(),
            plan_files(out@) == strings_view(files@).take(k as int),
            forall|q: int|
                0 <= q < out.len() ==> sheet_page(
                    #[trigger] out@[q],
                    out@[q].file@,
                    project_name@,
                    folder@,
                    after,
                    strings_view(head@).to_set(),
                ),
        decreases files.len() - k,
    {
        let f = &files[k];
        let in_head = holds_text(head, f.as_str());
        let away = moves_away(moves, f.as_str());
        let is_target = holds_target(moves, f.as_str());
        let in_base = (holds_text(base, f.as_str()) && !away) || is_target;
        proof {
            assert(strings_view(files@)[k as int] == f@);
            assert(strings_view(files@).to_set().contains(f@));
            assert(strings_view(head@).to_set().contains(f@) == strings_view(head@).contains(f@));
            assert(bs.contains(f@) == strings_view(base@).contains(f@));
            reveal_strlit("sch");
        }
        let page = PlannedPage {
            file: f.clone(),
            name: PageName::from_string(sheet_name(f.as_str(), project_name)),
            rel: page_rel_of(folder, "sch", f.as_str()),
            in_base,
            in_head,
            edge_base: None,
            edge_head: None,
        };
        let ghost before = plan_files(out@);
        out.push(page);
        assert(plan_files(out@) =~= before.push(files@[k as int]@));
        assert(strings_view(files@).take(k as int + 1) =~= strings_view(files@).take(k as int).push(files@[k as int]@));
        k = k + 1;
    }
    assert(strings_view(files@).take(files.len() as int) =~= strings_view(files@));
    out
}

/// Whether some move lands on `f`.
fn holds_target(moves: &Vec<(String, String)>, f: &str) -> (r: bool)
    ensures
        r == (exists|k: int| 0 <= k < moves.len() && #[trigger] moves_view(moves@)[k].1 == f@),
{
    let mut i: usize = 0;
    while i < moves.len()
        invariant
            i <= moves.len(),
            forall|k: int| 0 <= k < i ==> #[trigger] moves_view(moves@)[k].1 != f@,
        decreases moves.len() - i,
    {
        assert(moves_view(moves@)[i as int].1 == moves@[i as int].1@);
        if str_eq(moves[i].1.as_str(), f) {
            return true;
        }
        i = i + 1;
    }
    false
}


/// The folder below a side's `svg/` root that a library kind's images go
/// to.
pub open spec fn kind_folder(kind: Kind) -> Seq<char> {
    match kind {
        Kind::Sch => "sch"@,
        Kind::Pcb => "pcb"@,
        Kind::Fp => "fp"@,
        Kind::Sym => "sym"@,
    }
}

/// The page name of a library image: a footprint's file stem, or a
/// symbol unit's friendly name given every image of the library.
pub open spec fn library_page_name(kind: Kind, file: Seq<char>, all: Seq<Seq<char>>) -> Seq<char> {
    if kind == Kind::Sym {
        symbol_name_of(file, all)
    } else {
        without_suffix(file, ".svg"@)
    }
}

/// `p` is the page for library image `file`, named among `all`.
pub open spec fn library_page(
    p: PlannedPage,
    kind: Kind,
    file: Seq<char>,
    folder: Seq<char>,
    all: Seq<Seq<char>>,
    a: Set<Seq<char>>,
    b: Set<Seq<char>>,
) -> bool {
    &&& p.file@ == file
    &&& p.name@ == library_page_name(kind, file, all)
    &&& p.rel@ == page_rel(folder, kind_folder(kind), file)
    &&& p.in_base == a.contains(file)
    &&& p.in_head == b.contains(file)
    &&& p.edge_base is None
    &&& p.edge_head is None
}

/// The subfolder of a page kind.
fn kind_folder_of(kind: Kind) -> (r: &'static str)
    ensures
        r@ == kind_folder(kind),
{
    proof {
        reveal_strlit("sch");
        reveal_strlit("pcb");
        reveal_strlit("fp");
        reveal_strlit("sym");
    }
    match kind {
        Kind::Sch => "sch",
        Kind::Pcb => "pcb",
        Kind::Fp => "fp",
        Kind::Sym => "sym",
    }
}

/// The texts of two lists, each once, in text order.
fn sorted_union(a: &Vec<String>, b: &Vec<String>) -> (r: Vec<String>)
    ensures
        strictly_sorted(strings_view(r@), text_order()),
        strings_view(r@).to_set() == strings_view(a@).to_set() + strings_view(b@).to_set(),
{
    let mut files: Vec<String> = Vec::new();
    let mut i: usize = 0;
    while i < a.len()
        invariant
            i <= a.len(),
            strictly_sorted(strings_view(files@), text_order()),
            strings_view(files@).to_set() == strings_view(a@.take(i as int)).to_set(),
        decreases a.len() - i,
    {
        insert_text(&mut files, &a[i]);
        assert(strings_view(a@.take(i as int + 1)) =~= strings_view(a@.take(i as int)).push(a@[i as int]@));
        proof {
            crate::order::lemma_push_to_set(strings_view(a@.take(i as int)), a@[i as int]@);
        }
        i = i + 1;
    }
    assert(a@.take(a.len() as int) =~= a@);
    let mut j: usize = 0;
    while j < b.len()
        invariant
            j <= b.len(),
            strictly_sorted(strings_view(files@), text_order()),
            strings_view(files@).to_set() == strings_view(a@).to_set() + strings_view(b@.take(j as int)).to_set(),
        decreases b.len() - j,
    {
        insert_text(&mut files, &b[j]);
        assert(strings_view(b@.take(j as int + 1)) =~= strings_view(b@.take(j as int)).push(b@[j as int]@));
        proof {
            crate::order::lemma_push_to_set(strings_view(b@.take(j as int)), b@[j as int]@);
        }
        assert(strings_view(files@).to_set() =~= strings_view(a@).to_set() + strings_view(b@.take(j as int + 1)).to_set());
        j = j + 1;
    }
    assert(b@.take(b.len() as int) =~= b@);
    files
}

/// The page of library image `f` among the library's images `files`.
fn library_page_of(
    kind: Kind,
    folder: &str,
    f: &String,
    files: &Vec<String>,
    a: &Vec<String>,
    b: &Vec<String>,
) -> (r: PlannedPage)
    requires
        kind == Kind::Fp || kind == Kind::Sym,
    ensures
        library_page(r, kind, f@, folder@, strings_view(files@), strings_view(a@).to_set(), strings_view(b@).to_set()),
{
    let name = match kind {
        Kind::Sym => symbol_name(f.as_str(), files),
        _ => {
            let v = chars_of(f.as_str());
            let stem = if crate::text::ends_with_exec(&v, ".svg") {
                proof {
                    reveal_strlit(".svg");
                }
                crate::text::slice_chars(&v, 0, v.len() - 4)
            } else {
                crate::text::copy_chars(&v)
            };
            assert(stem@ == without_suffix(f@, ".svg"@));
            string_of(stem.as_slice())
        },
    };
    assert(strings_view(files@) =~= files@.map_values(|f: String| f@));
    let in_base = holds_text(a, f.as_str());
    let in_head = holds_text(b, f.as_str());
    proof {
        assert(strings_view(a@).to_set().contains(f@) == strings_view(a@).contains(f@));
        assert(strings_view(b@).to_set().contains(f@) == strings_view(b@).contains(f@));
    }
    PlannedPage {
        file: f.clone(),
        name: PageName::from_string(name),
        rel: page_rel_of(folder, kind_folder_of(kind), f.as_str()),
        in_base,
        in_head,
        edge_base: None,
        edge_head: None,
    }
}

/// The pages of one footprint or symbol library whose sides exported the
/// images `a` and `b`: one per image of either side, by file name.
#[verifier::spinoff_prover]
#[verifier::rlimit(40)]
pub fn library_plan(kind: Kind, folder: &str, a: &Vec<String>, b: &Vec<String>) -> (r: Vec<PlannedPage>)
    requires
        kind == Kind::Fp || kind == Kind::Sym,
    ensures
        strictly_sorted(plan_files(r@), text_order()),
        plan_files(r@).to_set() == strings_view(a@).to_set() + strings_view(b@).to_set(),
        forall|i: int|
            0 <= i < r.len() ==> library_page(
                #[trigger] r@[i],
                kind,
                r@[i].file@,
                folder@,
                plan_files(r@),
                strings_view(a@).to_set(),
                strings_view(b@).to_set(),
            ),
{
    let files = sorted_union(a, b);
    let mut out: Vec<PlannedPage> = Vec::new();
    let mut k: usize = 0;
    while k < files.len()
        invariant
            k <= files.len(),
            kind == Kind::Fp || kind == Kind::Sym,
            plan_files(out@) == strings_view(files@).take(k as int),
            forall|q: int|
                0 <= q < out.len() ==> library_page(
                    #[trigger] out@[q],
                    kind,
                    out@[q].file@,
                    folder@,
                    strings_view(files@),
                    strings_view(a@).to_set(),
                    strings_view(b@).to_set(),
                ),
        decreases files.len() - k,
    {
        let page = library_page_of(kind, folder, &files[k], &files, a, b);
        let ghost before = plan_files(out@);
        out.push(page);
        assert(plan_files(out@) =~= before.push(files@[k as int]@));
        assert(strings_view(files@).take(k as int + 1) =~= strings_view(files@).take(k as int).push(files@[k as int]@));
        k = k + 1;
    }
    assert(strings_view(files@).take(files.len() as int) =~= strings_view(files@));
    out
}

/// `pages` holds, in order, the pages the planned pages make once their
/// images are compared: a page per plan entry whose comparison found a
/// difference (or, with `keep_unchanged`, per every entry, an identical
/// one as unchanged), for project `project` and kind `kind`.
pub open spec fn compared_pages(
    pages: Seq<Page>,
    plan: Seq<PlannedPage>,
    statuses: Seq<Option<Status>>,
    project: Seq<char>,
    kind: Kind,
    keep_unchanged: bool,
) -> bool
    decreases plan.len(),
{
    if plan.len() == 0 {
        pages.len() == 0
    } else {
        let n = (plan.len() - 1) as int;
        let st = statuses[n];
        if st is None && !keep_unchanged {
            compared_pages(pages, plan.drop_last(), statuses.take(n), project, kind, keep_unchanged)
        } else {
            let p = plan.last();
            &&& pages.len() > 0
            &&& pages.last().project@ == project
            &&& pages.last().kind == kind
            &&& pages.last().name@ == p.name@
            &&& pages.last().rel@ == p.rel@
            &&& pages.last().status == (match st {
                Some(s) => s,
                None => Status::Unchanged,
            })
            &&& crate::semantic::geometry::opt_chars(pages.last().edge_base) == crate::semantic::geometry::opt_chars(
                p.edge_base,
            )
            &&& crate::semantic::geometry::opt_chars(pages.last().edge_head) == crate::semantic::geometry::opt_chars(
                p.edge_head,
            )
            &&& pages.last().parts is None
            &&& compared_pages(pages.drop_last(), plan.drop_last(), statuses.take(n), project, kind, keep_unchanged)
        }
    }
}

/// A copy of an optional text.
fn copy_opt(o: &Option<String>) -> (r: Option<String>)
    ensures
        crate::semantic::geometry::opt_chars(r) == crate::semantic::geometry::opt_chars(*o),
{
    match o {
        Some(s) => Some(s.clone()),
        None => None,
    }
}

/// The report pages of planned pages whose images compared as `statuses`
/// (one per plan entry): those that differ, or every one (identical ones
/// as unchanged) with `keep_unchanged`.
pub fn compare_pages(
    project: &ProjectLabel,
    kind: Kind,
    plan: &Vec<PlannedPage>,
    statuses: &Vec<Option<Status>>,
    keep_unchanged: bool,
) -> (r: Vec<Page>)
    requires
        statuses.len() == plan.len(),
    ensures
        compared_pages(r@, plan@, statuses@, project@, kind, keep_unchanged),
{
    let mut out: Vec<Page> = Vec::new();
    let mut i: usize = 0;
    while i < plan.len()
        invariant
            i <= plan.len() == statuses.len(),
            compared_pages(out@, plan@.take(i as int), statuses@.take(i as int), project@, kind, keep_unchanged),
        decreases plan.len() - i,
    {
        let ghost pre = plan@.take(i as int);
        let ghost next = plan@.take(i as int + 1);
        assert(next.drop_last() =~= pre);
        assert(next.last() == plan@[i as int]);
        assert(statuses@.take(i as int + 1).take(i as int) =~= statuses@.take(i as int));
        assert(statuses@.take(i as int + 1)[i as int] == statuses@[i as int]);
        let st = statuses[i];
        if st.is_some() || keep_unchanged {
            let p = &plan[i];
            let page = Page {
                project: project.clone(),
                kind,
                name: p.name.clone(),
                rel: p.rel.clone(),
                status: match st {
                    Some(s) => s,
                    None => Status::Unchanged,
                },
                edge_base: copy_opt(&p.edge_base),
                edge_head: copy_opt(&p.edge_head),
                parts: None,
            };
            let ghost before = out@;
            out.push(page);
            assert(out@.drop_last() =~= before);
        }
        i = i + 1;
    }
    assert(plan@.take(plan.len() as int) =~= plan@);
    assert(statuses@.take(plan.len() as int) =~= statuses@);
    out
}


/// The image file a schematic sheet exports to: `name.svg` for the root
/// sheet, `name-Sheet.svg` for a sub-sheet.
pub open spec fn sheet_image(project_name: Seq<char>, sheet: Seq<char>) -> Seq<char> {
    if sheet == "Root sheet"@ {
        project_name + ".svg"@
    } else {
        project_name + "-"@ + sheet + ".svg"@
    }
}

/// The image file of a schematic sheet.
pub fn sheet_image_of(project_name: &str, sheet: &PageName) -> (r: String)
    ensures
        r@ == sheet_image(project_name@, sheet@),
{
    let mut v = chars_of(project_name);
    if !str_eq(sheet.as_str(), "Root sheet") {
        push_str(&mut v, "-");
        push_str(&mut v, sheet.as_str());
    }
    push_str(&mut v, ".svg");
    string_of(v.as_slice())
}

/// A location as fractions of an image's extent (width and height, in the
/// location's unit); none without a location, an extent, or with an empty
/// one.
pub open spec fn located(at: Option<crate::semantic::Point>, size: Option<(i32, i32)>) -> Option<crate::semantic::Frac> {
    match (at, size) {
        (Some(p), Some((w, h))) => if w > 0 && h > 0 {
            Some(
                crate::semantic::Frac {
                    x: crate::semantic::Ratio { num: p.x as i64, den: w as i64 },
                    y: crate::semantic::Ratio { num: p.y as i64, den: h as i64 },
                },
            )
        } else {
            None
        },
        _ => None,
    }
}

/// A location as fractions of an image's extent.
pub fn locate(at: Option<crate::semantic::Point>, size: Option<(i32, i32)>) -> (r: Option<crate::semantic::Frac>)
    ensures
        r == located(at, size),
{
    match (at, size) {
        (Some(p), Some((w, h))) => if w > 0 && h > 0 {
            Some(
                crate::semantic::Frac {
                    x: crate::semantic::Ratio { num: p.x as i64, den: w as i64 },
                    y: crate::semantic::Ratio { num: p.y as i64, den: h as i64 },
                },
            )
        } else {
            None
        },
        _ => None,
    }
}

/// The extent to place a side's markers on: that side's sheet image, else
/// the other side's (a page may exist on one side only).
pub open spec fn either(first: Option<(i32, i32)>, second: Option<(i32, i32)>) -> Option<(i32, i32)> {
    match first {
        Some(s) => Some(s),
        None => second,
    }
}

/// Places a schematic change on its sheet's images, given the extent of
/// the sheet's image on each side (in nanometres): each side's location as
/// fractions of that side's image (or the other side's, when it has none).
pub fn localize(c: &mut crate::semantic::Change, size_a: Option<(i32, i32)>, size_b: Option<(i32, i32)>)
    ensures
        final(c).frac_base == located(old(c).at_base, either(size_a, size_b)),
        final(c).frac_head == located(old(c).at_head, either(size_b, size_a)),
        final(c).project == old(c).project,
        final(c).scope == old(c).scope,
        final(c).sheet == old(c).sheet,
        final(c).kind == old(c).kind,
        final(c).reference == old(c).reference,
        final(c).detail == old(c).detail,
        final(c).layer == old(c).layer,
        final(c).at_base == old(c).at_base,
        final(c).at_head == old(c).at_head,
{
    let a = match size_a {
        Some(s) => Some(s),
        None => size_b,
    };
    let b = match size_b {
        Some(s) => Some(s),
        None => size_a,
    };
    c.frac_base = locate(c.at_base, a);
    c.frac_head = locate(c.at_head, b);
}

} // verus!
