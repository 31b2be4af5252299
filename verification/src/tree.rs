//! Paths of a revision's files (as a git tree gives them, `/`-separated)
//! and the projects found among them.

use vstd::prelude::*;

use crate::kicad::Project;
use crate::semantic::table::{lemma_empty_table, lemma_tables_alike, last_value, opt_text_view, same_table, table_of, text_table, upsert};
use crate::text::{last_index, lemma_seq_lt_irreflexive, lemma_seq_lt_total, lemma_seq_lt_transitive, seq_lt};

verus! {

/// The characters of each of a list of character vectors.
pub open spec fn texts(v: Seq<Vec<char>>) -> Seq<Seq<char>> {
    v.map_values(|p: Vec<char>| p@)
}

/// The `/`-separated pieces of a text, empty ones included.
pub open spec fn pieces(s: Seq<char>) -> Seq<Seq<char>>
    decreases s.len(),
{
    if s.len() == 0 {
        seq![seq![]]
    } else {
        let p = pieces(s.drop_last());
        if s.last() == '/' {
            p.push(seq![])
        } else {
            p.update(p.len() - 1, p.last().push(s.last()))
        }
    }
}

/// There is always at least one piece.
pub proof fn lemma_pieces_len(s: Seq<char>)
    ensures
        pieces(s).len() >= 1,
    decreases s.len(),
{
    if s.len() > 0 {
        lemma_pieces_len(s.drop_last());
    }
}

/// The pieces that name something: neither empty nor `.`.
pub open spec fn normal(ps: Seq<Seq<char>>) -> Seq<Seq<char>>
    decreases ps.len(),
{
    if ps.len() == 0 {
        seq![]
    } else {
        let rest = normal(ps.drop_last());
        if ps.last().len() > 0 && ps.last() != "."@ {
            rest.push(ps.last())
        } else {
            rest
        }
    }
}

/// The components of a path: its named pieces, after a `/` marking an
/// absolute path or a `.` marking a path relative to the current
/// directory (neither of which a repository path ever starts with).
pub open spec fn components(s: Seq<char>) -> Seq<Seq<char>> {
    if s.len() > 0 && s[0] == '/' {
        seq!["/"@] + normal(pieces(s))
    } else if pieces(s)[0] == "."@ {
        seq!["."@] + normal(pieces(s))
    } else {
        normal(pieces(s))
    }
}

/// Whether the components of `prefix` begin those of `path`.
pub open spec fn under(path: Seq<char>, prefix: Seq<char>) -> bool {
    let p = components(path);
    let q = components(prefix);
    q.len() <= p.len() && p.take(q.len() as int) == q
}

/// The last piece of a path: its file name.
pub open spec fn file_name(path: Seq<char>) -> Seq<char> {
    match last_index(path, '/') {
        Some(i) => path.skip(i + 1),
        None => path,
    }
}

/// Everything before the last `/` of a path: its directory.
pub open spec fn parent_dir(path: Seq<char>) -> Seq<char> {
    match last_index(path, '/') {
        Some(i) => path.take(i),
        None => seq![],
    }
}

/// A file name's extension: what follows its last `.`, unless that dot
/// starts the name.
pub open spec fn extension(name: Seq<char>) -> Option<Seq<char>> {
    match last_index(name, '.') {
        Some(i) => if i > 0 {
            Some(name.skip(i + 1))
        } else {
            None
        },
        None => None,
    }
}

/// A file name without its extension.
pub open spec fn stem(name: Seq<char>) -> Seq<char> {
    match last_index(name, '.') {
        Some(i) => if i > 0 {
            name.take(i)
        } else {
            name
        },
        None => name,
    }
}

/// Whether a path names a file with extension `ext`.
pub open spec fn has_extension(path: Seq<char>, ext: Seq<char>) -> bool {
    extension(file_name(path)) == Some(ext)
}

/// The pieces of a text.
pub fn pieces_of(s: &str) -> (r: Vec<Vec<char>>)
    ensures
        texts(r@) == pieces(s@),
{
    let v = crate::text::chars_of(s);
    let mut out: Vec<Vec<char>> = Vec::new();
    out.push(Vec::new());
    let mut i: usize = 0;
    assert(texts(out@) =~= pieces(v@.take(0)));
    while i < v.len()
        invariant
            i <= v.len(),
            out.len() >= 1,
            texts(out@) == pieces(v@.take(i as int)),
        decreases v.len() - i,
    {
        let ghost pre = v@.take(i as int);
        let ghost next = v@.take(i as int + 1);
        assert(next.drop_last() =~= pre);
        assert(next.last() == v@[i as int]);
        let ghost before = texts(out@);
        if v[i] == '/' {
            out.push(Vec::new());
            assert(texts(out@) =~= before.push(seq![]));
        } else {
            let last = out.len() - 1;
            let mut piece = out.remove(last);
            piece.push(v[i]);
            out.push(piece);
            assert(texts(out@) =~= before.update(
                before.len() - 1,
                before.last().push(v@[i as int]),
            ));
        }
        i = i + 1;
    }
    assert(v@.take(v.len() as int) =~= v@);
    out
}

/// Whether a piece names something.
fn named_piece(p: &Vec<char>) -> (r: bool)
    ensures
        r == (p@.len() > 0 && p@ != "."@),
{
    proof {
        reveal_strlit(".");
    }
    if p.len() == 0 {
        return false;
    }
    if p.len() == 1 && p[0] == '.' {
        assert(p@ =~= "."@);
        return false;
    }
    assert(p@ != "."@) by {
        if p@ == "."@ {
            assert(p@.len() == 1 && p@[0] == '.');
        }
    }
    true
}

/// The named pieces among `ps`.
fn normal_of(ps: &Vec<Vec<char>>) -> (r: Vec<Vec<char>>)
    ensures
        texts(r@) == normal(texts(ps@)),
{
    let ghost pv = texts(ps@);
    let mut out: Vec<Vec<char>> = Vec::new();
    let mut i: usize = 0;
    while i < ps.len()
        invariant
            i <= ps.len(),
            pv == texts(ps@),
            texts(out@) == normal(pv.take(i as int)),
        decreases ps.len() - i,
    {
        let ghost pre = pv.take(i as int);
        let ghost next = pv.take(i as int + 1);
        assert(next.drop_last() =~= pre);
        assert(next.last() == ps@[i as int]@);
        if named_piece(&ps[i]) {
            let ghost before = texts(out@);
            out.push(crate::text::copy_chars(&ps[i]));
            assert(texts(out@) =~= before.push(ps@[i as int]@));
        }
        i = i + 1;
    }
    assert(pv.take(ps.len() as int) =~= pv);
    out
}

/// The components of a path.
pub fn components_of(s: &str) -> (r: Vec<Vec<char>>)
    ensures
        texts(r@) == components(s@),
{
    let ps = pieces_of(s);
    proof {
        lemma_pieces_len(s@);
    }
    let named = normal_of(&ps);
    let v = crate::text::chars_of(s);
    proof {
        reveal_strlit("/");
        reveal_strlit(".");
    }
    let lead: Option<char> = if v.len() > 0 && v[0] == '/' {
        Some('/')
    } else if ps[0].len() == 1 && ps[0][0] == '.' {
        assert(ps@[0]@ =~= "."@);
        Some('.')
    } else {
        assert(texts(ps@)[0] != "."@) by {
            if ps@[0]@ == "."@ {
                assert(ps@[0]@.len() == 1 && ps@[0]@[0] == '.');
            }
        }
        None
    };
    match lead {
        Some(c) => {
            let mut out: Vec<Vec<char>> = Vec::new();
            let mut mark: Vec<char> = Vec::new();
            mark.push(c);
            out.push(mark);
            let mut i: usize = 0;
            let ghost nv = texts(named@);
            while i < named.len()
                invariant
                    i <= named.len(),
                    nv == texts(named@),
                    texts(out@) == seq![seq![c]] + nv.take(i as int),
                decreases named.len() - i,
            {
                let ghost before = texts(out@);
                out.push(crate::text::copy_chars(&named[i]));
                assert(texts(out@) =~= before.push(nv[i as int]));
                assert(seq![seq![c]] + nv.take(i as int + 1) =~= (seq![seq![c]] + nv.take(i as int)).push(
                    nv[i as int],
                ));
                i = i + 1;
            }
            assert(nv.take(named.len() as int) =~= nv);
            assert(seq![c] =~= if c == '/' {
                "/"@
            } else {
                "."@
            });
            out
        },
        None => named,
    }
}


/// Lexicographic order on component lists, each component compared as
/// text (a list sorts before its extensions).
pub open spec fn seqs_lt(a: Seq<Seq<char>>, b: Seq<Seq<char>>) -> bool
    decreases a.len(),
{
    if a.len() == 0 {
        b.len() > 0
    } else if b.len() == 0 {
        false
    } else if a[0] != b[0] {
        seq_lt(a[0], b[0])
    } else {
        seqs_lt(a.drop_first(), b.drop_first())
    }
}

/// `seqs_lt` is irreflexive.
pub proof fn lemma_seqs_lt_irreflexive(a: Seq<Seq<char>>)
    ensures
        !seqs_lt(a, a),
    decreases a.len(),
{
    if a.len() > 0 {
        lemma_seqs_lt_irreflexive(a.drop_first());
    }
}

/// `seqs_lt` is transitive.
pub proof fn lemma_seqs_lt_transitive(a: Seq<Seq<char>>, b: Seq<Seq<char>>, c: Seq<Seq<char>>)
    requires
        seqs_lt(a, b),
        seqs_lt(b, c),
    ensures
        seqs_lt(a, c),
    decreases a.len(),
{
    if a.len() > 0 && b.len() > 0 && c.len() > 0 {
        if a[0] == b[0] && b[0] == c[0] {
            lemma_seqs_lt_transitive(a.drop_first(), b.drop_first(), c.drop_first());
        } else if a[0] == b[0] {
        } else if b[0] == c[0] {
        } else {
            lemma_seq_lt_transitive(a[0], b[0], c[0]);
            if a[0] == c[0] {
                lemma_seq_lt_irreflexive(a[0]);
                crate::text::lemma_seq_lt_asymmetric(a[0], b[0]);
            }
        }
    }
}

/// `seqs_lt` relates any two distinct lists.
pub proof fn lemma_seqs_lt_total(a: Seq<Seq<char>>, b: Seq<Seq<char>>)
    ensures
        a == b || seqs_lt(a, b) || seqs_lt(b, a),
    decreases a.len(),
{
    if a.len() > 0 && b.len() > 0 {
        if a[0] == b[0] {
            lemma_seqs_lt_total(a.drop_first(), b.drop_first());
            if a.drop_first() == b.drop_first() {
                assert(a =~= seq![a[0]] + a.drop_first());
                assert(b =~= seq![b[0]] + b.drop_first());
            }
        } else {
            lemma_seq_lt_total(a[0], b[0]);
        }
    } else if a.len() == 0 && b.len() == 0 {
        assert(a =~= b);
    }
}

/// The order of directories: by their named pieces, then (for two
/// spellings of the same pieces) by their text.
pub open spec fn dir_lt(a: Seq<char>, b: Seq<char>) -> bool {
    let ca = normal(pieces(a));
    let cb = normal(pieces(b));
    seqs_lt(ca, cb) || (ca == cb && seq_lt(a, b))
}

/// The order of projects: by directory, then by name.
pub open spec fn project_lt(a: (Seq<char>, Seq<char>), b: (Seq<char>, Seq<char>)) -> bool {
    dir_lt(a.0, b.0) || (a.0 == b.0 && seq_lt(a.1, b.1))
}

/// `project_lt` as a value.
pub open spec fn project_order() -> spec_fn((Seq<char>, Seq<char>), (Seq<char>, Seq<char>)) -> bool {
    |a: (Seq<char>, Seq<char>), b: (Seq<char>, Seq<char>)| project_lt(a, b)
}

/// `project_lt` is a strict order relating any two distinct projects.
pub proof fn lemma_project_order()
    ensures
        crate::order::strict_order(project_order()),
        crate::order::total(project_order()),
{
    let lt = project_order();
    assert forall|a: (Seq<char>, Seq<char>)| !#[trigger] lt(a, a) by {
        lemma_seqs_lt_irreflexive(normal(pieces(a.0)));
        lemma_seq_lt_irreflexive(a.0);
        lemma_seq_lt_irreflexive(a.1);
    }
    assert forall|a: (Seq<char>, Seq<char>), b: (Seq<char>, Seq<char>), c: (Seq<char>, Seq<char>)|
        #[trigger] lt(a, b) && #[trigger] lt(b, c) implies lt(a, c) by {
        let (ca, cb, cc) = (normal(pieces(a.0)), normal(pieces(b.0)), normal(pieces(c.0)));
        if seqs_lt(ca, cb) && seqs_lt(cb, cc) {
            lemma_seqs_lt_transitive(ca, cb, cc);
        } else if seqs_lt(ca, cb) || seqs_lt(cb, cc) {
        } else {
            if seq_lt(a.0, b.0) && seq_lt(b.0, c.0) {
                lemma_seq_lt_transitive(a.0, b.0, c.0);
            }
            if a.0 == b.0 && b.0 == c.0 {
                lemma_seqs_lt_irreflexive(ca);
                lemma_seq_lt_irreflexive(a.0);
                lemma_seq_lt_transitive(a.1, b.1, c.1);
            }
        }
    }
    assert forall|a: (Seq<char>, Seq<char>), b: (Seq<char>, Seq<char>)| a != b implies #[trigger] lt(a, b) || lt(b, a) by {
        lemma_seqs_lt_total(normal(pieces(a.0)), normal(pieces(b.0)));
        lemma_seq_lt_total(a.0, b.0);
        lemma_seq_lt_total(a.1, b.1);
    }
}

/// Whether a component list sorts before another.
fn comps_lt(a: &Vec<Vec<char>>, b: &Vec<Vec<char>>) -> (r: bool)
    ensures
        r == seqs_lt(texts(a@), texts(b@)),
{
    let ghost av = texts(a@);
    let ghost bv = texts(b@);
    let mut i: usize = 0;
    assert(av.skip(0) =~= av);
    assert(bv.skip(0) =~= bv);
    while i < a.len() && i < b.len()
        invariant
            i <= a.len(),
            i <= b.len(),
            av == texts(a@),
            bv == texts(b@),
            seqs_lt(av, bv) == seqs_lt(av.skip(i as int), bv.skip(i as int)),
        decreases a.len() - i,
    {
        assert(av.skip(i as int)[0] == a@[i as int]@);
        assert(bv.skip(i as int)[0] == b@[i as int]@);
        if !crate::text::chars_eq(&a[i], &b[i]) {
            return crate::text::chars_lt(&a[i], &b[i]);
        }
        assert(av.skip(i as int).drop_first() =~= av.skip(i + 1));
        assert(bv.skip(i as int).drop_first() =~= bv.skip(i + 1));
        i = i + 1;
    }
    i < b.len()
}

/// The view of a project: its directory and name.
pub open spec fn project_view(p: Project) -> (Seq<char>, Seq<char>) {
    (p.dir@, p.name@)
}

/// The views of a list of projects.
pub open spec fn projects_view(v: Seq<Project>) -> Seq<(Seq<char>, Seq<char>)> {
    v.map_values(|p: Project| project_view(p))
}

/// Whether project `a` sorts before project `b`.
fn project_before(a: &Project, b: &Project) -> (r: bool)
    ensures
        r == project_lt(project_view(*a), project_view(*b)),
{
    let ca = normal_of(&pieces_of(a.dir.as_str()));
    let cb = normal_of(&pieces_of(b.dir.as_str()));
    if comps_lt(&ca, &cb) {
        return true;
    }
    let same_dir_pieces = !comps_lt(&cb, &ca);
    proof {
        let va = texts(ca@);
        let vb = texts(cb@);
        lemma_seqs_lt_total(va, vb);
    }
    if same_dir_pieces && crate::text::str_lt(a.dir.as_str(), b.dir.as_str()) {
        return true;
    }
    crate::text::str_eq(a.dir.as_str(), b.dir.as_str()) && crate::text::str_lt(a.name.as_str(), b.name.as_str())
}

/// Adds a project to a sorted, duplicate-free list of projects.
fn insert_project(v: &mut Vec<Project>, p: Project)
    requires
        crate::order::strictly_sorted(projects_view(old(v)@), project_order()),
    ensures
        crate::order::strictly_sorted(projects_view(final(v)@), project_order()),
        projects_view(final(v)@).to_set() == projects_view(old(v)@).to_set().insert(project_view(p)),
{
    let ghost ov = projects_view(v@);
    let ghost ord = project_order();
    let ghost x = project_view(p);
    proof {
        lemma_project_order();
    }
    let mut i: usize = 0;
    while i < v.len() && project_before(&v[i], &p)
        invariant
            i <= v.len(),
            v@ == old(v)@,
            ov == projects_view(v@),
            ord == project_order(),
            x == project_view(p),
            forall|j: int| 0 <= j < i ==> ord(ov[j], x),
        decreases v.len() - i,
    {
        assert(ov[i as int] == project_view(v@[i as int]));
        i = i + 1;
    }
    if i < v.len() && crate::text::str_eq(v[i].dir.as_str(), p.dir.as_str()) && crate::text::str_eq(
        v[i].name.as_str(),
        p.name.as_str(),
    ) {
        assert(ov[i as int] == x);
        assert(ov.to_set().insert(x) =~= ov.to_set());
        return;
    }
    proof {
        if i < v.len() {
            assert(ov[i as int] == project_view(v@[i as int]));
            assert(ov[i as int] != x);
            assert(ord(x, ov[i as int]));
        }
    }
    v.insert(i, p);
    proof {
        let nu = projects_view(v@);
        assert(nu =~= ov.insert(i as int, x));
        assert forall|a: int, b: int| 0 <= a < b < nu.len() implies ord(nu[a], nu[b]) by {
            if b < i {
                assert(nu[a] == ov[a] && nu[b] == ov[b]);
            } else if a < i && b == i {
                assert(nu[a] == ov[a] && nu[b] == x);
            } else if a < i {
                assert(nu[a] == ov[a] && nu[b] == ov[b - 1]);
                assert(ord(ov[a], x));
                assert(ord(x, ov[i as int]));
                assert(ord(ov[a], ov[i as int]));
                if b - 1 > i {
                    assert(ord(ov[i as int], ov[b - 1]));
                }
            } else if a == i {
                assert(nu[a] == x && nu[b] == ov[b - 1]);
                if b - 1 > i {
                    assert(ord(ov[i as int], ov[b - 1]));
                }
            } else {
                assert(nu[a] == ov[a - 1] && nu[b] == ov[b - 1]);
            }
        }
        assert forall|y: (Seq<char>, Seq<char>)| nu.to_set().contains(y) == ov.to_set().insert(x).contains(y) by {
            if nu.to_set().contains(y) {
                let q = choose|q: int| 0 <= q < nu.len() && nu[q] == y;
                if q < i {
                    assert(ov[q] == y);
                } else if q > i {
                    assert(ov[q - 1] == y);
                }
            }
            if ov.to_set().contains(y) {
                let q = choose|q: int| 0 <= q < ov.len() && ov[q] == y;
                if q < i {
                    assert(nu[q] == y);
                } else {
                    assert(nu[q + 1] == y);
                }
            }
            if y == x {
                assert(nu[i as int] == y);
            }
        }
        assert(nu.to_set() =~= ov.to_set().insert(x));
    }
}


/// The project a path names, as its directory and name: a `.kicad_pro`
/// file, under `filter` when one is given.
pub open spec fn project_in(path: Seq<char>, filter: Option<Seq<char>>) -> Option<(Seq<char>, Seq<char>)> {
    if has_extension(path, "kicad_pro"@) && match filter {
        Some(f) => under(path, f),
        None => true,
    } {
        Some((parent_dir(path), stem(file_name(path))))
    } else {
        None
    }
}

/// The projects named among `paths`.
pub open spec fn projects_found(paths: Seq<String>, filter: Option<Seq<char>>) -> Set<(Seq<char>, Seq<char>)> {
    Set::new(
        |x: (Seq<char>, Seq<char>)|
            exists|i: int| 0 <= i < paths.len() && project_in(#[trigger] paths[i]@, filter) == Some(x),
    )
}

/// The text an optional text slice holds.
pub open spec fn opt_str(o: Option<&str>) -> Option<Seq<char>> {
    match o {
        Some(s) => Some(s@),
        None => None,
    }
}

/// Whether `path` lies under `prefix`, component by component.
pub fn is_under(path: &str, prefix: &str) -> (r: bool)
    ensures
        r == under(path@, prefix@),
{
    let p = components_of(path);
    let q = components_of(prefix);
    let ghost pv = texts(p@);
    let ghost qv = texts(q@);
    if q.len() > p.len() {
        return false;
    }
    let mut i: usize = 0;
    while i < q.len()
        invariant
            i <= q.len() <= p.len(),
            pv == texts(p@),
            qv == texts(q@),
            pv == components(path@),
            qv == components(prefix@),
            forall|k: int| 0 <= k < i ==> pv[k] == qv[k],
        decreases q.len() - i,
    {
        assert(pv[i as int] == p@[i as int]@ && qv[i as int] == q@[i as int]@);
        if !crate::text::chars_eq(&p[i], &q[i]) {
            assert(pv.take(qv.len() as int)[i as int] != qv[i as int]);
            assert(pv.take(qv.len() as int) != qv);
            return false;
        }
        i = i + 1;
    }
    assert(pv.take(qv.len() as int) =~= qv);
    true
}

/// The project a path names.
fn project_at(path: &str, filter: Option<&str>) -> (r: Option<Project>)
    ensures
        match r {
            Some(p) => project_in(path@, opt_str(filter)) == Some(project_view(p)),
            None => project_in(path@, opt_str(filter)) is None,
        },
{
    let v = crate::text::chars_of(path);
    proof {
        crate::text::lemma_last_index(v@, '/');
    }
    let (dir, name) = match crate::text::rfind_char(&v, '/') {
        Some(k) => (crate::text::slice_chars(&v, 0, k), crate::text::slice_chars(&v, k + 1, v.len())),
        None => (Vec::new(), crate::text::copy_chars(&v)),
    };
    assert(dir@ =~= parent_dir(path@));
    assert(name@ =~= file_name(path@));
    proof {
        crate::text::lemma_last_index(name@, '.');
    }
    let dot = match crate::text::rfind_char(&name, '.') {
        Some(d) => if d > 0 {
            d
        } else {
            assert(extension(file_name(path@)) is None);
            return None;
        },
        None => {
            assert(extension(file_name(path@)) is None);
            return None;
        },
    };
    let ext = crate::text::slice_chars(&name, dot + 1, name.len());
    assert(ext@ =~= name@.skip(dot + 1));
    assert(extension(file_name(path@)) == Some(ext@));
    if !crate::text::chars_eq_str(&ext, "kicad_pro") {
        assert(!has_extension(path@, "kicad_pro"@));
        return None;
    }
    let inside = match filter {
        Some(f) => is_under(path, f),
        None => true,
    };
    if !inside {
        assert(project_in(path@, opt_str(filter)) is None);
        return None;
    }
    let stem_chars = crate::text::slice_chars(&name, 0, dot);
    assert(stem_chars@ =~= stem(file_name(path@)));
    Some(Project { dir: crate::text::string_of(dir.as_slice()), name: crate::text::string_of(stem_chars.as_slice()) })
}

/// Adds the projects named among `paths`.
fn add_projects(out: &mut Vec<Project>, paths: &Vec<String>, filter: Option<&str>, Ghost(prior): Ghost<Seq<String>>)
    requires
        crate::order::strictly_sorted(projects_view(old(out)@), project_order()),
        projects_view(old(out)@).to_set() == projects_found(prior, opt_str(filter)),
    ensures
        crate::order::strictly_sorted(projects_view(final(out)@), project_order()),
        projects_view(final(out)@).to_set() == projects_found(prior + paths@, opt_str(filter)),
{
    let mut i: usize = 0;
    assert(prior + paths@.take(0) =~= prior);
    while i < paths.len()
        invariant
            i <= paths.len(),
            crate::order::strictly_sorted(projects_view(out@), project_order()),
            projects_view(out@).to_set() == projects_found(prior + paths@.take(i as int), opt_str(filter)),
        decreases paths.len() - i,
    {
        match project_at(paths[i].as_str(), filter) {
            Some(p) => {
                insert_project(out, p);
            },
            None => {},
        }
        proof {
            let pre = prior + paths@.take(i as int);
            let next = prior + paths@.take(i as int + 1);
            assert(next =~= pre.push(paths@[i as int]));
            assert forall|x: (Seq<char>, Seq<char>)|
                projects_found(next, opt_str(filter)).contains(x) == (projects_found(pre, opt_str(filter)).contains(x)
                    || project_in(paths@[i as int]@, opt_str(filter)) == Some(x)) by {
                if projects_found(next, opt_str(filter)).contains(x) {
                    let j = choose|j: int|
                        0 <= j < next.len() && project_in(#[trigger] next[j]@, opt_str(filter)) == Some(x);
                    if j < pre.len() {
                        assert(pre[j] == next[j]);
                    }
                }
                if projects_found(pre, opt_str(filter)).contains(x) {
                    let j = choose|j: int|
                        0 <= j < pre.len() && project_in(#[trigger] pre[j]@, opt_str(filter)) == Some(x);
                    assert(next[j] == pre[j]);
                }
                if project_in(paths@[i as int]@, opt_str(filter)) == Some(x) {
                    assert(next[pre.len() as int] == paths@[i as int]);
                }
            }
            assert(projects_view(out@).to_set() =~= projects_found(next, opt_str(filter)));
        }
        i = i + 1;
    }
    assert(paths@.take(paths.len() as int) =~= paths@);
}

/// Restricting discovery to a directory only narrows it: the projects
/// found under `f` are among those found without a restriction, namely
/// those whose project file lies under `f`.
pub proof fn law_project_dir_only_restricts(paths: Seq<String>, f: Seq<char>)
    ensures
        projects_found(paths, Some(f)).subset_of(projects_found(paths, None)),
        forall|x: (Seq<char>, Seq<char>)|
            #[trigger] projects_found(paths, Some(f)).contains(x) <==> exists|i: int|
                0 <= i < paths.len() && project_in(#[trigger] paths[i]@, None) == Some(x) && under(paths[i]@, f),
{
    assert forall|x: (Seq<char>, Seq<char>)| #[trigger] projects_found(paths, Some(f)).contains(x) implies projects_found(
        paths,
        None,
    ).contains(x) by {
        let i = choose|i: int| 0 <= i < paths.len() && project_in(#[trigger] paths[i]@, Some(f)) == Some(x);
        assert(project_in(paths[i]@, None) == Some(x));
    }
}

/// The projects present on either side, optionally restricted to those
/// under `filter` (a repository path prefix), sorted by directory then
/// name, each once.
pub fn discover_projects(base: &Vec<String>, head: &Vec<String>, filter: Option<&str>) -> (r: Vec<Project>)
    ensures
        crate::order::strictly_sorted(projects_view(r@), project_order()),
        projects_view(r@).to_set() == projects_found(base@ + head@, opt_str(filter)),
{
    let mut out: Vec<Project> = Vec::new();
    assert(projects_view(out@).to_set() =~= projects_found(Seq::<String>::empty(), opt_str(filter)));
    add_projects(&mut out, base, filter, Ghost(Seq::<String>::empty()));
    assert(Seq::<String>::empty() + base@ =~= base@);
    add_projects(&mut out, head, filter, Ghost(base@));
    out
}


/// The schematic files under `dir` among a revision's blobs (path and
/// blob id), in order.
pub open spec fn sch_items(blobs: Seq<(String, String)>, dir: Seq<char>) -> Seq<(Seq<char>, String)>
    decreases blobs.len(),
{
    if blobs.len() == 0 {
        seq![]
    } else {
        let rest = sch_items(blobs.drop_last(), dir);
        let (p, o) = blobs.last();
        if under(p@, dir) && has_extension(p@, "kicad_sch"@) {
            rest.push((p@, o))
        } else {
            rest
        }
    }
}

/// Whether the schematics under `dir` differ between two revisions: some
/// path holds another blob, or exists on one side only.
pub open spec fn schematics_differ(base: Seq<(String, String)>, head: Seq<(String, String)>, dir: Seq<char>) -> bool {
    exists|k: Seq<char>|
        #[trigger] opt_text_view(last_value(sch_items(base, dir), k)) != opt_text_view(
            last_value(sch_items(head, dir), k),
        )
}

/// Whether a path names a file with the given extension.
fn has_extension_exec(path: &str, ext: &str) -> (r: bool)
    ensures
        r == has_extension(path@, ext@),
{
    let v = crate::text::chars_of(path);
    proof {
        crate::text::lemma_last_index(v@, '/');
    }
    let name = match crate::text::rfind_char(&v, '/') {
        Some(k) => crate::text::slice_chars(&v, k + 1, v.len()),
        None => crate::text::copy_chars(&v),
    };
    assert(name@ =~= file_name(path@));
    proof {
        crate::text::lemma_last_index(name@, '.');
    }
    match crate::text::rfind_char(&name, '.') {
        Some(d) => if d > 0 {
            let e = crate::text::slice_chars(&name, d + 1, name.len());
            assert(e@ =~= name@.skip(d + 1));
            crate::text::chars_eq_str(&e, ext)
        } else {
            false
        },
        None => false,
    }
}

/// The table of schematic files under `dir`.
fn sch_table(blobs: &Vec<(String, String)>, dir: &str) -> (r: Vec<(String, String)>)
    ensures
        table_of(text_table(r@), sch_items(blobs@, dir@)),
{
    let mut t: Vec<(String, String)> = Vec::new();
    proof {
        lemma_empty_table(text_table(t@));
    }
    let mut i: usize = 0;
    while i < blobs.len()
        invariant
            i <= blobs.len(),
            table_of(text_table(t@), sch_items(blobs@.take(i as int), dir@)),
        decreases blobs.len() - i,
    {
        let ghost pre = blobs@.take(i as int);
        assert(blobs@.take(i as int + 1).drop_last() =~= pre);
        assert(blobs@.take(i as int + 1).last() == blobs@[i as int]);
        if is_under(blobs[i].0.as_str(), dir) && has_extension_exec(blobs[i].0.as_str(), "kicad_sch") {
            upsert(&mut t, blobs[i].0.clone(), blobs[i].1.clone(), Ghost(sch_items(pre, dir@)));
        }
        i = i + 1;
    }
    assert(blobs@.take(blobs.len() as int) =~= blobs@);
    t
}

/// Whether the schematics under `dir` changed between two revisions,
/// given each revision's blobs (path and blob id).
pub fn schematics_changed(base: &Vec<(String, String)>, head: &Vec<(String, String)>, dir: &str) -> (r: bool)
    ensures
        r == schematics_differ(base@, head@, dir@),
{
    let a = sch_table(base, dir);
    let b = sch_table(head, dir);
    proof {
        lemma_tables_alike(text_table(a@), sch_items(base@, dir@), text_table(b@), sch_items(head@, dir@));
    }
    !same_table(&a, &b)
}

/// The blob id the first blob at `path` has.
pub open spec fn blob_at(blobs: Seq<(String, String)>, path: Seq<char>) -> Option<Seq<char>>
    decreases blobs.len(),
{
    if blobs.len() == 0 {
        None
    } else if blobs[0].0@ == path {
        Some(blobs[0].1@)
    } else {
        blob_at(blobs.drop_first(), path)
    }
}

/// The blob id at `path`.
fn blob_at_exec(blobs: &Vec<(String, String)>, path: &str) -> (r: Option<String>)
    ensures
        opt_text_view(r) == blob_at(blobs@, path@),
{
    let mut i: usize = 0;
    assert(blobs@.skip(0) =~= blobs@);
    while i < blobs.len()
        invariant
            i <= blobs.len(),
            blob_at(blobs@, path@) == blob_at(blobs@.skip(i as int), path@),
        decreases blobs.len() - i,
    {
        assert(blobs@.skip(i as int)[0] == blobs@[i as int]);
        if crate::text::str_eq(blobs[i].0.as_str(), path) {
            return Some(blobs[i].1.clone());
        }
        assert(blobs@.skip(i as int).drop_first() =~= blobs@.skip(i as int + 1));
        i = i + 1;
    }
    None
}

/// Whether the file at `path` differs between two revisions (another
/// blob, or present on one side only).
pub fn file_changed(base: &Vec<(String, String)>, head: &Vec<(String, String)>, path: &str) -> (r: bool)
    ensures
        r == (blob_at(base@, path@) != blob_at(head@, path@)),
{
    let a = blob_at_exec(base, path);
    let b = blob_at_exec(head, path);
    match (a, b) {
        (Some(x), Some(y)) => !crate::text::str_eq(x.as_str(), y.as_str()),
        (None, None) => false,
        _ => true,
    }
}

/// A project's file with the given extension: `dir/name.ext` (`name.ext`
/// at the repository root).
pub open spec fn project_file(dir: Seq<char>, name: Seq<char>, ext: Seq<char>) -> Seq<char> {
    (if dir.len() == 0 {
        seq![]
    } else {
        dir + "/"@
    }) + name + "."@ + ext
}

/// The path of a project's file with extension `ext`.
pub fn project_file_path(p: &Project, ext: &str) -> (r: String)
    ensures
        r@ == project_file(p.dir@, p.name@, ext@),
{
    let mut v: Vec<char> = Vec::new();
    if crate::text::chars_of(p.dir.as_str()).len() > 0 {
        crate::text::push_str(&mut v, p.dir.as_str());
        v.push('/');
    }
    crate::text::push_str(&mut v, p.name.as_str());
    v.push('.');
    crate::text::push_str(&mut v, ext);
    assert(v@ =~= project_file(p.dir@, p.name@, ext@)) by {
        reveal_strlit("/");
        reveal_strlit(".");
    }
    crate::text::string_of(v.as_slice())
}


/// `dir_lt` as a value.
pub open spec fn dir_order() -> spec_fn(Seq<char>, Seq<char>) -> bool {
    |a: Seq<char>, b: Seq<char>| dir_lt(a, b)
}

/// `dir_lt` is a strict order relating any two distinct paths.
pub proof fn lemma_dir_order()
    ensures
        crate::order::strict_order(dir_order()),
        crate::order::total(dir_order()),
{
    let lt = dir_order();
    assert forall|a: Seq<char>| !#[trigger] lt(a, a) by {
        lemma_seqs_lt_irreflexive(normal(pieces(a)));
        lemma_seq_lt_irreflexive(a);
    }
    assert forall|a: Seq<char>, b: Seq<char>, c: Seq<char>| #[trigger] lt(a, b) && #[trigger] lt(b, c) implies lt(
        a,
        c,
    ) by {
        let (ca, cb, cc) = (normal(pieces(a)), normal(pieces(b)), normal(pieces(c)));
        if seqs_lt(ca, cb) && seqs_lt(cb, cc) {
            lemma_seqs_lt_transitive(ca, cb, cc);
        } else if seqs_lt(ca, cb) || seqs_lt(cb, cc) {
        } else {
            lemma_seq_lt_transitive(a, b, c);
        }
    }
    assert forall|a: Seq<char>, b: Seq<char>| a != b implies #[trigger] lt(a, b) || lt(b, a) by {
        lemma_seqs_lt_total(normal(pieces(a)), normal(pieces(b)));
        lemma_seq_lt_total(a, b);
    }
}

/// Whether directory `a` sorts before `b`.
fn dir_before(a: &str, b: &str) -> (r: bool)
    ensures
        r == dir_lt(a@, b@),
{
    let ca = normal_of(&pieces_of(a));
    let cb = normal_of(&pieces_of(b));
    if comps_lt(&ca, &cb) {
        return true;
    }
    let same = !comps_lt(&cb, &ca);
    proof {
        lemma_seqs_lt_total(texts(ca@), texts(cb@));
    }
    same && crate::text::str_lt(a, b)
}

/// Adds a path to a list in directory order, each once.
fn insert_dir(v: &mut Vec<String>, d: &String)
    requires
        crate::order::strictly_sorted(crate::semantic::part::strings_view(old(v)@), dir_order()),
    ensures
        crate::order::strictly_sorted(crate::semantic::part::strings_view(final(v)@), dir_order()),
        crate::semantic::part::strings_view(final(v)@).to_set() == crate::semantic::part::strings_view(
            old(v)@,
        ).to_set().insert(d@),
{
    let ghost ov = crate::semantic::part::strings_view(v@);
    let ghost ord = dir_order();
    proof {
        lemma_dir_order();
    }
    let mut i: usize = 0;
    while i < v.len() && dir_before(v[i].as_str(), d.as_str())
        invariant
            i <= v.len(),
            v@ == old(v)@,
            ov == crate::semantic::part::strings_view(v@),
            ord == dir_order(),
            forall|j: int| 0 <= j < i ==> ord(ov[j], d@),
        decreases v.len() - i,
    {
        assert(ov[i as int] == v@[i as int]@);
        i = i + 1;
    }
    if i < v.len() && crate::text::str_eq(v[i].as_str(), d.as_str()) {
        assert(ov[i as int] == d@);
        assert(ov.to_set().insert(d@) =~= ov.to_set());
        return;
    }
    proof {
        if i < v.len() {
            assert(ov[i as int] == v@[i as int]@);
            assert(ord(d@, ov[i as int]));
        }
        crate::order::lemma_insert_at(ov, d@, i as int, ord);
    }
    v.insert(i, d.clone());
    assert(crate::semantic::part::strings_view(v@) =~= ov.insert(i as int, d@));
}

/// The blob id a table gives a path.
fn table_get(t: &Vec<(String, String)>, key: &str, Ghost(items): Ghost<Seq<(Seq<char>, String)>>) -> (r: Option<String>)
    requires
        table_of(text_table(t@), items),
    ensures
        opt_text_view(r) == opt_text_view(last_value(items, key@)),
{
    let ghost tv = text_table(t@);
    let mut i: usize = 0;
    while i < t.len()
        invariant
            i <= t.len(),
            tv == text_table(t@),
            table_of(tv, items),
            forall|j: int| 0 <= j < i ==> tv[j].0 != key@,
        decreases t.len() - i,
    {
        assert(tv[i as int] == (t@[i as int].0@, t@[i as int].1));
        if crate::text::str_eq(t[i].0.as_str(), key) {
            assert(last_value(items, tv[i as int].0) == Some(tv[i as int].1));
            return Some(t[i].1.clone());
        }
        i = i + 1;
    }
    proof {
        if last_value(items, key@) is Some {
            let j = choose|j: int| 0 <= j < tv.len() && #[trigger] tv[j].0 == key@;
            assert(tv[j].0 != key@);
        }
    }
    None
}

/// The blobs of a revision with extension `ext`, under `filter` when one
/// is given, whose directory has extension `dir_ext` when one is given.
pub open spec fn library_items(
    blobs: Seq<(String, String)>,
    ext: Seq<char>,
    dir_ext: Option<Seq<char>>,
    filter: Option<Seq<char>>,
) -> Seq<(Seq<char>, String)>
    decreases blobs.len(),
{
    if blobs.len() == 0 {
        seq![]
    } else {
        let rest = library_items(blobs.drop_last(), ext, dir_ext, filter);
        let (p, o) = blobs.last();
        if has_extension(p@, ext) && match dir_ext {
            Some(d) => has_extension(parent_dir(p@), d),
            None => true,
        } && match filter {
            Some(f) => under(p@, f),
            None => true,
        } {
            rest.push((p@, o))
        } else {
            rest
        }
    }
}

/// The table of a revision's library files.
fn library_table(blobs: &Vec<(String, String)>, ext: &str, dir_ext: Option<&str>, filter: Option<&str>) -> (r: Vec<
    (String, String),
>)
    ensures
        table_of(text_table(r@), library_items(blobs@, ext@, opt_str(dir_ext), opt_str(filter))),
{
    let mut t: Vec<(String, String)> = Vec::new();
    proof {
        lemma_empty_table(text_table(t@));
    }
    let mut i: usize = 0;
    while i < blobs.len()
        invariant
            i <= blobs.len(),
            table_of(text_table(t@), library_items(blobs@.take(i as int), ext@, opt_str(dir_ext), opt_str(filter))),
        decreases blobs.len() - i,
    {
        let ghost pre = blobs@.take(i as int);
        assert(blobs@.take(i as int + 1).drop_last() =~= pre);
        assert(blobs@.take(i as int + 1).last() == blobs@[i as int]);
        let p = blobs[i].0.as_str();
        let dir_ok = match dir_ext {
            Some(d) => {
                let v = crate::text::chars_of(p);
                proof {
                    crate::text::lemma_last_index(v@, '/');
                }
                let dir = match crate::text::rfind_char(&v, '/') {
                    Some(k) => crate::text::slice_chars(&v, 0, k),
                    None => Vec::new(),
                };
                assert(dir@ =~= parent_dir(p@));
                has_extension_exec(crate::text::string_of(dir.as_slice()).as_str(), d)
            },
            None => true,
        };
        let in_scope = match filter {
            Some(f) => is_under(p, f),
            None => true,
        };
        if has_extension_exec(p, ext) && dir_ok && in_scope {
            upsert(
                &mut t,
                blobs[i].0.clone(),
                blobs[i].1.clone(),
                Ghost(library_items(pre, ext@, opt_str(dir_ext), opt_str(filter))),
            );
        }
        i = i + 1;
    }
    assert(blobs@.take(blobs.len() as int) =~= blobs@);
    t
}


/// A file of one side whose blob the other side does not have at its path.
pub open spec fn changed_on(mine: Seq<(Seq<char>, String)>, theirs: Seq<(Seq<char>, String)>, p: Seq<char>) -> bool {
    last_value(mine, p) is Some && opt_text_view(last_value(theirs, p)) != opt_text_view(last_value(mine, p))
}

/// The changed files of one side in directory `lib`, with their blob ids.
pub open spec fn lib_files(
    mine: Seq<(Seq<char>, String)>,
    theirs: Seq<(Seq<char>, String)>,
    lib: Seq<char>,
) -> Set<(Seq<char>, Seq<char>)> {
    Set::new(
        |e: (Seq<char>, Seq<char>)|
            changed_on(mine, theirs, e.0) && parent_dir(e.0) == lib && opt_text_view(last_value(mine, e.0)) == Some(e.1),
    )
}

/// The directories holding a changed file on either side.
pub open spec fn changed_dirs(a: Seq<(Seq<char>, String)>, b: Seq<(Seq<char>, String)>) -> Set<Seq<char>> {
    dirs_of_changes(a, b) + dirs_of_changes(b, a)
}

/// Path and blob id pairs by their characters.
pub open spec fn pairs_view(v: Seq<(String, String)>) -> Seq<(Seq<char>, Seq<char>)> {
    v.map_values(|e: (String, String)| (e.0@, e.1@))
}

/// The paths of path and blob id pairs.
pub open spec fn pair_paths(v: Seq<(Seq<char>, Seq<char>)>) -> Seq<Seq<char>> {
    v.map_values(|e: (Seq<char>, Seq<char>)| e.0)
}

/// The directory of a path.
fn parent_of(p: &str) -> (r: String)
    ensures
        r@ == parent_dir(p@),
{
    let v = crate::text::chars_of(p);
    proof {
        crate::text::lemma_last_index(v@, '/');
    }
    let dir = match crate::text::rfind_char(&v, '/') {
        Some(k) => crate::text::slice_chars(&v, 0, k),
        None => Vec::new(),
    };
    assert(dir@ =~= parent_dir(p@));
    crate::text::string_of(dir.as_slice())
}

/// The changed files of one side's table `mine` in directory `lib`, in
/// path order.
fn changed_files_in(
    mine: &Vec<(String, String)>,
    theirs: &Vec<(String, String)>,
    lib: &str,
    Ghost(im): Ghost<Seq<(Seq<char>, String)>>,
    Ghost(it): Ghost<Seq<(Seq<char>, String)>>,
) -> (r: Vec<(String, String)>)
    requires
        table_of(text_table(mine@), im),
        table_of(text_table(theirs@), it),
    ensures
        crate::order::strictly_sorted(pair_paths(pairs_view(r@)), crate::semantic::part::text_order()),
        pairs_view(r@).to_set() == lib_files(im, it, lib@),
{
    let ghost tv = text_table(mine@);
    let ghost ord = crate::semantic::part::text_order();
    let mut out: Vec<(String, String)> = Vec::new();
    let ghost mut idx: Seq<int> = seq![];
    let mut i: usize = 0;
    while i < mine.len()
        invariant
            i <= mine.len(),
            tv == text_table(mine@),
            ord == crate::semantic::part::text_order(),
            table_of(tv, im),
            table_of(text_table(theirs@), it),
            idx.len() == out.len(),
            forall|q: int| 0 <= q < idx.len() ==> 0 <= #[trigger] idx[q] < i,
            forall|q: int, w: int| 0 <= q < w < idx.len() ==> idx[q] < idx[w],
            forall|q: int| 0 <= q < out.len() ==> #[trigger] pairs_view(out@)[q] == (tv[idx[q]].0, tv[idx[q]].1@),
            pairs_view(out@).to_set() == Set::new(
                |e: (Seq<char>, Seq<char>)|
                    exists|j: int|
                        0 <= j < i && #[trigger] tv[j].0 == e.0 && tv[j].1@ == e.1 && changed_on(im, it, e.0)
                            && parent_dir(e.0) == lib@,
            ),
        decreases mine.len() - i,
    {
        assert(tv[i as int] == (mine@[i as int].0@, mine@[i as int].1));
        let other = table_get(theirs, mine[i].0.as_str(), Ghost(it));
        let differs = match &other {
            Some(o) => !crate::text::str_eq(o.as_str(), mine[i].1.as_str()),
            None => true,
        };
        let in_lib = crate::text::str_eq(parent_of(mine[i].0.as_str()).as_str(), lib);
        proof {
            assert(last_value(im, tv[i as int].0) == Some(tv[i as int].1));
        }
        let ghost before = pairs_view(out@).to_set();
        if differs && in_lib {
            let ghost o = out@;
            out.push((mine[i].0.clone(), mine[i].1.clone()));
            proof {
                idx = idx.push(i as int);
                assert(pairs_view(out@) =~= pairs_view(o).push((tv[i as int].0, tv[i as int].1@)));
                crate::order::lemma_push_to_set(pairs_view(o), (tv[i as int].0, tv[i as int].1@));
            }
        }
        proof {
            let next = Set::new(
                |e: (Seq<char>, Seq<char>)|
                    exists|j: int|
                        0 <= j < i + 1 && #[trigger] tv[j].0 == e.0 && tv[j].1@ == e.1 && changed_on(im, it, e.0)
                            && parent_dir(e.0) == lib@,
            );
            assert forall|e: (Seq<char>, Seq<char>)| pairs_view(out@).to_set().contains(e) == next.contains(e) by {
                if next.contains(e) {
                    let j = choose|j: int|
                        0 <= j < i + 1 && #[trigger] tv[j].0 == e.0 && tv[j].1@ == e.1 && changed_on(im, it, e.0)
                            && parent_dir(e.0) == lib@;
                    if j < i {
                        assert(before.contains(e));
                    }
                }
            }
            assert(pairs_view(out@).to_set() =~= next);
        }
        i = i + 1;
    }
    proof {
        assert forall|e: (Seq<char>, Seq<char>)| pairs_view(out@).to_set().contains(e) == lib_files(im, it, lib@).contains(e) by {
            if lib_files(im, it, lib@).contains(e) {
                let j = choose|j: int| 0 <= j < tv.len() && #[trigger] tv[j].0 == e.0;
                assert(last_value(im, tv[j].0) == Some(tv[j].1));
            }
        }
        assert(pairs_view(out@).to_set() =~= lib_files(im, it, lib@));
        let keys = crate::semantic::table::keys_of(tv);
        assert forall|a: int, b: int| 0 <= a < b < out.len() implies ord(
            pair_paths(pairs_view(out@))[a],
            pair_paths(pairs_view(out@))[b],
        ) by {
            assert(pairs_view(out@)[a] == (tv[idx[a]].0, tv[idx[a]].1@));
            assert(pairs_view(out@)[b] == (tv[idx[b]].0, tv[idx[b]].1@));
            assert(keys[idx[a]] == tv[idx[a]].0 && keys[idx[b]] == tv[idx[b]].0);
        }
    }
    out
}

/// What changed in one footprint library: its directory and the changed
/// footprint files (path and blob id) of each side.
pub struct LibraryChange {
    pub lib: String,
    pub base: Vec<(String, String)>,
    pub head: Vec<(String, String)>,
}

/// The footprint files of a revision: `.kicad_mod` files in a `.pretty`
/// directory, under `filter` when one is given.
pub open spec fn footprint_items(blobs: Seq<(String, String)>, filter: Option<Seq<char>>) -> Seq<(Seq<char>, String)> {
    library_items(blobs, "kicad_mod"@, Some("pretty"@), filter)
}

/// The footprint libraries touched between two revisions (given each
/// revision's blobs), in directory order, each with the footprints whose
/// blob differs from the other side's (or that the other side lacks).
pub fn footprint_changes(base: &Vec<(String, String)>, head: &Vec<(String, String)>, filter: Option<&str>) -> (r: Vec<
    LibraryChange,
>)
    ensures
        crate::order::strictly_sorted(
            r@.map_values(|c: LibraryChange| c.lib@),
            dir_order(),
        ),
        r@.map_values(|c: LibraryChange| c.lib@).to_set() == changed_dirs(
            footprint_items(base@, opt_str(filter)),
            footprint_items(head@, opt_str(filter)),
        ),
        forall|i: int|
            0 <= i < r.len() ==> {
                let ia = footprint_items(base@, opt_str(filter));
                let ib = footprint_items(head@, opt_str(filter));
                &&& crate::order::strictly_sorted(
                    pair_paths(pairs_view((#[trigger] r@[i]).base@)),
                    crate::semantic::part::text_order(),
                )
                &&& pairs_view(r@[i].base@).to_set() == lib_files(ia, ib, r@[i].lib@)
                &&& crate::order::strictly_sorted(pair_paths(pairs_view(r@[i].head@)), crate::semantic::part::text_order())
                &&& pairs_view(r@[i].head@).to_set() == lib_files(ib, ia, r@[i].lib@)
            },
{
    let ghost ia = footprint_items(base@, opt_str(filter));
    let ghost ib = footprint_items(head@, opt_str(filter));
    let ta = library_table(base, "kicad_mod", Some("pretty"), filter);
    let tb = library_table(head, "kicad_mod", Some("pretty"), filter);
    proof {
        reveal_strlit("pretty");
    }
    let libs = changed_dir_list(&ta, &tb, Ghost(ia), Ghost(ib));
    let mut out: Vec<LibraryChange> = Vec::new();
    let mut k: usize = 0;
    while k < libs.len()
        invariant
            k <= libs.len(),
            table_of(text_table(ta@), ia),
            table_of(text_table(tb@), ib),
            ia == footprint_items(base@, opt_str(filter)),
            ib == footprint_items(head@, opt_str(filter)),
            out@.map_values(|c: LibraryChange| c.lib@) == crate::semantic::part::strings_view(libs@).take(k as int),
            forall|i: int|
                0 <= i < out.len() ==> {
                    &&& crate::order::strictly_sorted(
                        pair_paths(pairs_view((#[trigger] out@[i]).base@)),
                        crate::semantic::part::text_order(),
                    )
                    &&& pairs_view(out@[i].base@).to_set() == lib_files(ia, ib, out@[i].lib@)
                    &&& crate::order::strictly_sorted(
                        pair_paths(pairs_view(out@[i].head@)),
                        crate::semantic::part::text_order(),
                    )
                    &&& pairs_view(out@[i].head@).to_set() == lib_files(ib, ia, out@[i].lib@)
                },
        decreases libs.len() - k,
    {
        let lib = &libs[k];
        let a = changed_files_in(&ta, &tb, lib.as_str(), Ghost(ia), Ghost(ib));
        let b = changed_files_in(&tb, &ta, lib.as_str(), Ghost(ib), Ghost(ia));
        let ghost before = out@.map_values(|c: LibraryChange| c.lib@);
        out.push(LibraryChange { lib: lib.clone(), base: a, head: b });
        assert(out@.map_values(|c: LibraryChange| c.lib@) =~= before.push(libs@[k as int]@));
        assert(crate::semantic::part::strings_view(libs@).take(k as int + 1) =~= crate::semantic::part::strings_view(
            libs@,
        ).take(k as int).push(libs@[k as int]@));
        k = k + 1;
    }
    assert(crate::semantic::part::strings_view(libs@).take(libs.len() as int) =~= crate::semantic::part::strings_view(
        libs@,
    ));
    out
}

/// The directories holding a changed file on either side, in directory
/// order.
fn changed_dir_list(
    ta: &Vec<(String, String)>,
    tb: &Vec<(String, String)>,
    Ghost(ia): Ghost<Seq<(Seq<char>, String)>>,
    Ghost(ib): Ghost<Seq<(Seq<char>, String)>>,
) -> (r: Vec<String>)
    requires
        table_of(text_table(ta@), ia),
        table_of(text_table(tb@), ib),
    ensures
        crate::order::strictly_sorted(crate::semantic::part::strings_view(r@), dir_order()),
        crate::semantic::part::strings_view(r@).to_set() == changed_dirs(ia, ib),
{
    let mut libs: Vec<String> = Vec::new();
    assert(crate::semantic::part::strings_view(libs@).to_set() =~= Set::<Seq<char>>::empty());
    add_changed_dirs(&mut libs, ta, tb, Ghost(ia), Ghost(ib), Ghost(Set::empty()));
    let ghost first = crate::semantic::part::strings_view(libs@).to_set();
    add_changed_dirs(&mut libs, tb, ta, Ghost(ib), Ghost(ia), Ghost(first));
    proof {
        assert(crate::semantic::part::strings_view(libs@).to_set() =~= changed_dirs(ia, ib));
    }
    libs
}

/// The directories holding a changed file of the side `mine`.
pub open spec fn dirs_of_changes(mine: Seq<(Seq<char>, String)>, theirs: Seq<(Seq<char>, String)>) -> Set<Seq<char>> {
    Set::new(|l: Seq<char>| exists|p: Seq<char>| #[trigger] changed_on(mine, theirs, p) && parent_dir(p) == l)
}

/// Adds the directories holding a changed file of the side `mine`.
fn add_changed_dirs(
    libs: &mut Vec<String>,
    mine: &Vec<(String, String)>,
    theirs: &Vec<(String, String)>,
    Ghost(im): Ghost<Seq<(Seq<char>, String)>>,
    Ghost(it): Ghost<Seq<(Seq<char>, String)>>,
    Ghost(prior): Ghost<Set<Seq<char>>>,
)
    requires
        table_of(text_table(mine@), im),
        table_of(text_table(theirs@), it),
        crate::order::strictly_sorted(crate::semantic::part::strings_view(old(libs)@), dir_order()),
        crate::semantic::part::strings_view(old(libs)@).to_set() == prior,
    ensures
        crate::order::strictly_sorted(crate::semantic::part::strings_view(final(libs)@), dir_order()),
        crate::semantic::part::strings_view(final(libs)@).to_set() == prior + dirs_of_changes(im, it),
{
    let ghost tv = text_table(mine@);
    let mut i: usize = 0;
    while i < mine.len()
        invariant
            i <= mine.len(),
            tv == text_table(mine@),
            table_of(tv, im),
            table_of(text_table(theirs@), it),
            crate::order::strictly_sorted(crate::semantic::part::strings_view(libs@), dir_order()),
            crate::semantic::part::strings_view(libs@).to_set() == prior + Set::new(
                |l: Seq<char>|
                    exists|j: int| 0 <= j < i && changed_on(im, it, #[trigger] tv[j].0) && parent_dir(tv[j].0) == l,
            ),
        decreases mine.len() - i,
    {
        assert(tv[i as int] == (mine@[i as int].0@, mine@[i as int].1));
        let other = table_get(theirs, mine[i].0.as_str(), Ghost(it));
        let differs = match &other {
            Some(o) => !crate::text::str_eq(o.as_str(), mine[i].1.as_str()),
            None => true,
        };
        proof {
            assert(last_value(im, tv[i as int].0) == Some(tv[i as int].1));
        }
        if differs {
            let d = parent_of(mine[i].0.as_str());
            insert_dir(libs, &d);
        }
        proof {
            let prev_s = Set::new(
                |l: Seq<char>|
                    exists|j: int| 0 <= j < i && changed_on(im, it, #[trigger] tv[j].0) && parent_dir(tv[j].0) == l,
            );
            let next_s = Set::new(
                |l: Seq<char>|
                    exists|j: int| 0 <= j < i + 1 && changed_on(im, it, #[trigger] tv[j].0) && parent_dir(tv[j].0) == l,
            );
            assert forall|l: Seq<char>|
                #[trigger] next_s.contains(l) == (prev_s.contains(l) || (changed_on(im, it, tv[i as int].0)
                    && parent_dir(tv[i as int].0) == l)) by {
                if next_s.contains(l) {
                    let j = choose|j: int| 0 <= j < i + 1 && changed_on(im, it, #[trigger] tv[j].0) && parent_dir(tv[j].0) == l;
                    if j < i {
                        assert(prev_s.contains(l));
                    }
                }
                if prev_s.contains(l) {
                    let j = choose|j: int| 0 <= j < i && changed_on(im, it, #[trigger] tv[j].0) && parent_dir(tv[j].0) == l;
                    assert(0 <= j < i + 1);
                }
                if changed_on(im, it, tv[i as int].0) && parent_dir(tv[i as int].0) == l {
                    assert(0 <= i < i + 1);
                }
            }
            assert(crate::semantic::part::strings_view(libs@).to_set() =~= prior + next_s);
        }
        i = i + 1;
    }
    proof {
        let all_s = Set::new(
            |l: Seq<char>|
                exists|j: int| 0 <= j < mine.len() && changed_on(im, it, #[trigger] tv[j].0) && parent_dir(tv[j].0) == l,
        );
        assert forall|l: Seq<char>| #[trigger] all_s.contains(l) == dirs_of_changes(im, it).contains(l) by {
            if dirs_of_changes(im, it).contains(l) {
                let p = choose|p: Seq<char>| #[trigger] changed_on(im, it, p) && parent_dir(p) == l;
                let j = choose|j: int| 0 <= j < tv.len() && #[trigger] tv[j].0 == p;
                assert(changed_on(im, it, tv[j].0));
            }
        }
        assert(all_s =~= dirs_of_changes(im, it));
        assert(crate::semantic::part::strings_view(libs@).to_set() =~= prior + dirs_of_changes(im, it));
    }
}


/// The changed files of the side `mine`.
pub open spec fn changed_paths(mine: Seq<(Seq<char>, String)>, theirs: Seq<(Seq<char>, String)>) -> Set<Seq<char>> {
    Set::new(|p: Seq<char>| changed_on(mine, theirs, p))
}

/// Adds the changed files of the side `mine`.
fn add_changed_paths(
    out: &mut Vec<String>,
    mine: &Vec<(String, String)>,
    theirs: &Vec<(String, String)>,
    Ghost(im): Ghost<Seq<(Seq<char>, String)>>,
    Ghost(it): Ghost<Seq<(Seq<char>, String)>>,
    Ghost(prior): Ghost<Set<Seq<char>>>,
)
    requires
        table_of(text_table(mine@), im),
        table_of(text_table(theirs@), it),
        crate::order::strictly_sorted(crate::semantic::part::strings_view(old(out)@), dir_order()),
        crate::semantic::part::strings_view(old(out)@).to_set() == prior,
    ensures
        crate::order::strictly_sorted(crate::semantic::part::strings_view(final(out)@), dir_order()),
        crate::semantic::part::strings_view(final(out)@).to_set() == prior + changed_paths(im, it),
{
    let ghost tv = text_table(mine@);
    let mut i: usize = 0;
    while i < mine.len()
        invariant
            i <= mine.len(),
            tv == text_table(mine@),
            table_of(tv, im),
            table_of(text_table(theirs@), it),
            crate::order::strictly_sorted(crate::semantic::part::strings_view(out@), dir_order()),
            crate::semantic::part::strings_view(out@).to_set() == prior + Set::new(
                |p: Seq<char>| exists|j: int| 0 <= j < i && #[trigger] tv[j].0 == p && changed_on(im, it, p),
            ),
        decreases mine.len() - i,
    {
        assert(tv[i as int] == (mine@[i as int].0@, mine@[i as int].1));
        let other = table_get(theirs, mine[i].0.as_str(), Ghost(it));
        let differs = match &other {
            Some(o) => !crate::text::str_eq(o.as_str(), mine[i].1.as_str()),
            None => true,
        };
        proof {
            assert(last_value(im, tv[i as int].0) == Some(tv[i as int].1));
        }
        if differs {
            insert_dir(out, &mine[i].0);
        }
        proof {
            let prev_s = Set::new(
                |p: Seq<char>| exists|j: int| 0 <= j < i && #[trigger] tv[j].0 == p && changed_on(im, it, p),
            );
            let next_s = Set::new(
                |p: Seq<char>| exists|j: int| 0 <= j < i + 1 && #[trigger] tv[j].0 == p && changed_on(im, it, p),
            );
            assert forall|p: Seq<char>|
                #[trigger] next_s.contains(p) == (prev_s.contains(p) || (tv[i as int].0 == p && changed_on(im, it, p))) by {
                if next_s.contains(p) {
                    let j = choose|j: int| 0 <= j < i + 1 && #[trigger] tv[j].0 == p && changed_on(im, it, p);
                    if j < i {
                        assert(prev_s.contains(p));
                    }
                }
            }
            assert(crate::semantic::part::strings_view(out@).to_set() =~= prior + next_s);
        }
        i = i + 1;
    }
    proof {
        let all_s = Set::new(
            |p: Seq<char>| exists|j: int| 0 <= j < mine.len() && #[trigger] tv[j].0 == p && changed_on(im, it, p),
        );
        assert forall|p: Seq<char>| #[trigger] all_s.contains(p) == changed_paths(im, it).contains(p) by {
            if changed_paths(im, it).contains(p) {
                let j = choose|j: int| 0 <= j < tv.len() && #[trigger] tv[j].0 == p;
            }
        }
        assert(all_s =~= changed_paths(im, it));
    }
}

/// What changed in one symbol library: its path and the blob id each
/// side has there.
pub struct SymbolLibChange {
    pub lib: String,
    pub base: Option<String>,
    pub head: Option<String>,
}

/// The symbol library files of a revision: `.kicad_sym` files, under
/// `filter` when one is given.
pub open spec fn symbol_items(blobs: Seq<(String, String)>, filter: Option<Seq<char>>) -> Seq<(Seq<char>, String)> {
    library_items(blobs, "kicad_sym"@, None, filter)
}

/// The symbol libraries touched between two revisions (given each
/// revision's blobs), in path order, with each side's blob id.
pub fn symbol_changes(base: &Vec<(String, String)>, head: &Vec<(String, String)>, filter: Option<&str>) -> (r: Vec<
    SymbolLibChange,
>)
    ensures
        crate::order::strictly_sorted(r@.map_values(|c: SymbolLibChange| c.lib@), dir_order()),
        r@.map_values(|c: SymbolLibChange| c.lib@).to_set() == changed_paths(
            symbol_items(base@, opt_str(filter)),
            symbol_items(head@, opt_str(filter)),
        ) + changed_paths(symbol_items(head@, opt_str(filter)), symbol_items(base@, opt_str(filter))),
        forall|i: int|
            0 <= i < r.len() ==> {
                &&& opt_text_view((#[trigger] r@[i]).base) == opt_text_view(
                    last_value(symbol_items(base@, opt_str(filter)), r@[i].lib@),
                )
                &&& opt_text_view(r@[i].head) == opt_text_view(last_value(symbol_items(head@, opt_str(filter)), r@[i].lib@))
            },
{
    let ghost ia = symbol_items(base@, opt_str(filter));
    let ghost ib = symbol_items(head@, opt_str(filter));
    let ta = library_table(base, "kicad_sym", None, filter);
    let tb = library_table(head, "kicad_sym", None, filter);
    let mut libs: Vec<String> = Vec::new();
    assert(crate::semantic::part::strings_view(libs@).to_set() =~= Set::<Seq<char>>::empty());
    add_changed_paths(&mut libs, &ta, &tb, Ghost(ia), Ghost(ib), Ghost(Set::empty()));
    let ghost first = crate::semantic::part::strings_view(libs@).to_set();
    add_changed_paths(&mut libs, &tb, &ta, Ghost(ib), Ghost(ia), Ghost(first));
    assert(crate::semantic::part::strings_view(libs@).to_set() =~= changed_paths(ia, ib) + changed_paths(ib, ia));
    let mut out: Vec<SymbolLibChange> = Vec::new();
    let mut k: usize = 0;
    while k < libs.len()
        invariant
            k <= libs.len(),
            table_of(text_table(ta@), ia),
            table_of(text_table(tb@), ib),
            ia == symbol_items(base@, opt_str(filter)),
            ib == symbol_items(head@, opt_str(filter)),
            out@.map_values(|c: SymbolLibChange| c.lib@) == crate::semantic::part::strings_view(libs@).take(k as int),
            forall|i: int|
                0 <= i < out.len() ==> {
                    &&& opt_text_view((#[trigger] out@[i]).base) == opt_text_view(last_value(ia, out@[i].lib@))
                    &&& opt_text_view(out@[i].head) == opt_text_view(last_value(ib, out@[i].lib@))
                },
        decreases libs.len() - k,
    {
        let lib = &libs[k];
        let a = table_get(&ta, lib.as_str(), Ghost(ia));
        let b = table_get(&tb, lib.as_str(), Ghost(ib));
        let ghost before = out@.map_values(|c: SymbolLibChange| c.lib@);
        out.push(SymbolLibChange { lib: lib.clone(), base: a, head: b });
        assert(out@.map_values(|c: SymbolLibChange| c.lib@) =~= before.push(libs@[k as int]@));
        assert(crate::semantic::part::strings_view(libs@).take(k as int + 1) =~= crate::semantic::part::strings_view(
            libs@,
        ).take(k as int).push(libs@[k as int]@));
        k = k + 1;
    }
    assert(crate::semantic::part::strings_view(libs@).take(libs.len() as int) =~= crate::semantic::part::strings_view(
        libs@,
    ));
    out
}

/// The project files a revision's work copy needs: the schematics,
/// boards and project files under `dir`.
pub open spec fn project_blobs(blobs: Seq<(String, String)>, dir: Seq<char>) -> Seq<(Seq<char>, Seq<char>)>
    decreases blobs.len(),
{
    if blobs.len() == 0 {
        seq![]
    } else {
        let rest = project_blobs(blobs.drop_last(), dir);
        let (p, o) = blobs.last();
        if under(p@, dir) && (has_extension(p@, "kicad_sch"@) || has_extension(p@, "kicad_pcb"@) || has_extension(
            p@,
            "kicad_pro"@,
        )) {
            rest.push((p@, o@))
        } else {
            rest
        }
    }
}

/// The blobs to write out for a project's work copy: its schematics,
/// boards and project file (without which the tools split hierarchical
/// nets into per-sheet fragments), in order.
pub fn project_files(blobs: &Vec<(String, String)>, dir: &str) -> (r: Vec<(String, String)>)
    ensures
        pairs_view(r@) == project_blobs(blobs@, dir@),
{
    let mut out: Vec<(String, String)> = Vec::new();
    let mut i: usize = 0;
    while i < blobs.len()
        invariant
            i <= blobs.len(),
            pairs_view(out@) == project_blobs(blobs@.take(i as int), dir@),
        decreases blobs.len() - i,
    {
        let ghost pre = blobs@.take(i as int);
        assert(blobs@.take(i as int + 1).drop_last() =~= pre);
        assert(blobs@.take(i as int + 1).last() == blobs@[i as int]);
        let p = blobs[i].0.as_str();
        if is_under(p, dir) && (has_extension_exec(p, "kicad_sch") || has_extension_exec(p, "kicad_pcb")
            || has_extension_exec(p, "kicad_pro")) {
            let ghost before = pairs_view(out@);
            out.push((blobs[i].0.clone(), blobs[i].1.clone()));
            assert(pairs_view(out@) =~= before.push((blobs@[i as int].0@, blobs@[i as int].1@)));
        }
        i = i + 1;
    }
    assert(blobs@.take(blobs.len() as int) =~= blobs@);
    out
}

} // verus!
