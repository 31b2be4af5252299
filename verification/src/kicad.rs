//! Report pages and the naming rules that turn exported files into pages.

use vstd::prelude::*;

use crate::ids::{PageName, ProjectLabel};
use crate::text::{
    chars_eq_str, chars_of, copy_chars, find_char_from, first_index, lemma_find_from, lemma_first_index, lines_exec,
    lines_of, str_eq, trim, trim_exec, trim_start, ends_with, ends_with_exec, push_str, slice_chars, starts_with, starts_with_exec,
    string_of,
};

verus! {

/// What a report page shows.
#[derive(Clone, Copy, PartialEq, Eq, Debug, Structural)]
pub enum Kind {
    Sch,
    Pcb,
    Fp,
    Sym,
}

/// The name a page kind goes by in the report data.
pub open spec fn kind_name(k: Kind) -> Seq<char> {
    match k {
        Kind::Sch => "sch"@,
        Kind::Pcb => "pcb"@,
        Kind::Fp => "fp"@,
        Kind::Sym => "sym"@,
    }
}

impl Kind {
    /// The kind's name in the report data ("sch", "pcb", "fp", "sym").
    pub fn as_str(self) -> (r: &'static str)
        ensures
            r@ == kind_name(self),
    {
        match self {
            Kind::Sch => "sch",
            Kind::Pcb => "pcb",
            Kind::Fp => "fp",
            Kind::Sym => "sym",
        }
    }
}

/// How a page differs between the two revisions.
#[derive(Clone, Copy, PartialEq, Eq, Debug, Structural)]
pub enum Status {
    Modified,
    Added,
    Removed,
    /// Visually identical, kept only because a semantic change points at it
    /// (a pin's net rewired from another sheet leaves no pixel behind).
    Unchanged,
}

/// The name a page status goes by in the report data.
pub open spec fn status_name(s: Status) -> Seq<char> {
    match s {
        Status::Modified => "modified"@,
        Status::Added => "added"@,
        Status::Removed => "removed"@,
        Status::Unchanged => "unchanged"@,
    }
}

impl Status {
    /// The status's name in the report data.
    pub fn as_str(self) -> (r: &'static str)
        ensures
            r@ == status_name(self),
    {
        match self {
            Status::Modified => "modified",
            Status::Added => "added",
            Status::Removed => "removed",
            Status::Unchanged => "unchanged",
        }
    }
}

/// A single diffable page in the report (one schematic sheet or one PCB layer).
pub struct Page {
    /// Sidebar group label (the project's repo-relative dir, or its name at the root).
    pub project: ProjectLabel,
    pub kind: Kind,
    /// Human-facing name ("Root sheet", "Power Switch", a layer name, ...).
    pub name: PageName,
    /// SVG path relative to a side's `svg/` root.
    pub rel: String,
    pub status: Status,
    /// For PCB layers: index-relative URLs to each side's Edge.Cuts SVG,
    /// overlaid as board-outline context.
    pub edge_base: Option<String>,
    pub edge_head: Option<String>,
    /// Parts on this page (unique references, union of both sides), for
    /// schematic sheets and copper layers; the denominator behind the
    /// viewer's "% of parts changed" summaries.
    pub parts: Option<usize>,
}

/// A KiCAD project, identified by its `.kicad_pro` file.
pub struct Project {
    /// Repo-relative directory containing the project ("" at the root).
    pub dir: String,
    /// Project name (the `.kicad_pro` stem); also the root schematic/PCB stem.
    pub name: String,
}

impl Project {
    /// Sidebar label: the dir, or the bare name when the project sits at the repo root.
    pub fn label(&self) -> (r: ProjectLabel)
        ensures
            r@ == (if self.dir@.len() == 0 { self.name@ } else { self.dir@ }),
    {
        if crate::text::chars_of(self.dir.as_str()).len() == 0 {
            ProjectLabel::new(self.name.as_str())
        } else {
            ProjectLabel::new(self.dir.as_str())
        }
    }
}

} // verus!

verus! {

/// A character kept in a path component: ASCII letters and digits, '.', '_' and '-'.
pub open spec fn path_safe(c: char) -> bool {
    ('a' <= c && c <= 'z') || ('A' <= c && c <= 'Z') || ('0' <= c && c <= '9') || c == '.' || c == '_' || c == '-'
}

/// The text without leading underscores.
pub open spec fn strip_lead_underscores(s: Seq<char>) -> Seq<char>
    decreases s.len(),
{
    if s.len() > 0 && s[0] == '_' {
        strip_lead_underscores(s.drop_first())
    } else {
        s
    }
}

/// The text without trailing underscores.
pub open spec fn strip_trail_underscores(s: Seq<char>) -> Seq<char>
    decreases s.len(),
{
    if s.len() > 0 && s.last() == '_' {
        strip_trail_underscores(s.drop_last())
    } else {
        s
    }
}

/// A text made safe as a path component: every other character becomes
/// '_', underscores are trimmed from both ends, and an empty result is "page".
pub open spec fn sanitized(s: Seq<char>) -> Seq<char> {
    let mapped = s.map_values(|c: char| if path_safe(c) { c } else { '_' });
    let t = strip_trail_underscores(strip_lead_underscores(mapped));
    if t.len() == 0 {
        "page"@
    } else {
        t
    }
}

/// Make a string safe as a path component.
pub fn sanitize(text: &str) -> (r: String)
    ensures
        r@ == sanitized(text@),
{
    let cs = chars_of(text);
    let mut out: Vec<char> = Vec::new();
    let mut i: usize = 0;
    while i < cs.len()
        invariant
            i <= cs.len(),
            cs@ == text@,
            out@ == cs@.take(i as int).map_values(|c: char| if path_safe(c) { c } else { '_' }),
        decreases cs.len() - i,
    {
        let c = cs[i];
        let safe = ('a' <= c && c <= 'z') || ('A' <= c && c <= 'Z') || ('0' <= c && c <= '9') || c == '.' || c
            == '_' || c == '-';
        out.push(if safe { c } else { '_' });
        assert(cs@.take(i + 1).map_values(|c: char| if path_safe(c) { c } else { '_' }) =~= cs@.take(
            i as int,
        ).map_values(|c: char| if path_safe(c) { c } else { '_' }).push(out@.last()));
        i = i + 1;
    }
    assert(cs@.take(cs.len() as int) == cs@);
    let ghost mapped = out@;
    let mut lo: usize = 0;
    assert(mapped.skip(0) == mapped);
    while lo < out.len() && out[lo] == '_'
        invariant
            lo <= out.len(),
            mapped == out@,
            strip_lead_underscores(mapped) == strip_lead_underscores(mapped.skip(lo as int)),
        decreases out.len() - lo,
    {
        assert(mapped.skip(lo as int).drop_first() == mapped.skip(lo + 1));
        lo = lo + 1;
    }
    let mut hi: usize = out.len();
    let ghost lead = mapped.skip(lo as int);
    assert(lead.take(lead.len() as int) == lead);
    while hi > lo && out[hi - 1] == '_'
        invariant
            lo <= hi <= out.len(),
            mapped == out@,
            lead == mapped.skip(lo as int),
            strip_trail_underscores(lead) == strip_trail_underscores(lead.take(hi - lo)),
        decreases hi,
    {
        assert(lead.take(hi - lo).drop_last() == lead.take(hi - lo - 1));
        hi = hi - 1;
    }
    let t = slice_chars(&out, lo, hi);
    assert(t@ == lead.take(hi - lo));
    if t.len() == 0 {
        "page".to_owned()
    } else {
        string_of(t.as_slice())
    }
}

/// The text without `suffix`, when it ends with it.
pub open spec fn without_suffix(s: Seq<char>, suffix: Seq<char>) -> Seq<char> {
    if ends_with(s, suffix) {
        s.take(s.len() - suffix.len())
    } else {
        s
    }
}

/// Friendly sheet name from an exported svg file name, given the project
/// stem: "Root sheet" for the project's own file, the part after
/// "<project>-" for a sub-sheet, the bare stem otherwise.
pub open spec fn sheet_name_of(file: Seq<char>, project_name: Seq<char>) -> Seq<char> {
    let stem = without_suffix(file, ".svg"@);
    if stem == project_name {
        "Root sheet"@
    } else if starts_with(stem, project_name + "-"@) {
        stem.skip(project_name.len() + 1int)
    } else {
        stem
    }
}

/// The characters without `suffix`, when they end with it.
fn strip_suffix_exec(v: &Vec<char>, suffix: &str) -> (r: Vec<char>)
    ensures
        r@ == without_suffix(v@, suffix@),
{
    if ends_with_exec(v, suffix) {
        let n = chars_of(suffix).len();
        slice_chars(v, 0, v.len() - n)
    } else {
        copy_chars(v)
    }
}

/// Friendly sheet name from an exported svg file name, given the project stem.
pub fn sheet_name(file: &str, project_name: &str) -> (r: String)
    ensures
        r@ == sheet_name_of(file@, project_name@),
{
    let stem = strip_suffix_exec(&chars_of(file), ".svg");
    if chars_eq_str(&stem, project_name) {
        return "Root sheet".to_owned();
    }
    let mut prefix = chars_of(project_name);
    push_str(&mut prefix, "-");
    proof {
        reveal_strlit("-");
    }
    let p = string_of(prefix.as_slice());
    if starts_with_exec(&stem, p.as_str()) {
        string_of(slice_chars(&stem, prefix.len(), stem.len()).as_slice())
    } else {
        string_of(stem.as_slice())
    }
}

} // verus!

verus! {

/// `p` occurs in `s` at position `i`.
pub open spec fn occurs_at(s: Seq<char>, p: Seq<char>, i: int) -> bool {
    0 <= i && i + p.len() <= s.len() && s.subrange(i, i + p.len()) == p
}

/// The last position at which `p` occurs in `s`.
pub open spec fn last_occurrence(s: Seq<char>, p: Seq<char>) -> Option<int> {
    if exists|i: int| occurs_at(s, p, i) {
        Some(choose|i: int| occurs_at(s, p, i) && forall|j: int| i < j ==> !occurs_at(s, p, j))
    } else {
        None
    }
}

/// The text split around the last "_unit" in it (as `rsplit_once` does).
pub open spec fn split_unit(stem: Seq<char>) -> Option<(Seq<char>, Seq<char>)> {
    match last_occurrence(stem, "_unit"@) {
        Some(i) => Some((stem.take(i), stem.skip(i + 5))),
        None => None,
    }
}

/// Every character is an ASCII digit (so does the empty text).
pub open spec fn all_digits(s: Seq<char>) -> bool {
    forall|k: int| 0 <= k < s.len() ==> '0' <= #[trigger] s[k] && s[k] <= '9'
}

/// An exported file is a unit of the symbol named `base`.
pub open spec fn unit_of(file: Seq<char>, base: Seq<char>) -> bool {
    ends_with(file, ".svg"@) && match split_unit(without_suffix(file, ".svg"@)) {
        Some((b, u)) => b == base && all_digits(u),
        None => false,
    }
}

/// How many of the files are units of the symbol named `base`.
pub open spec fn unit_count(all: Seq<Seq<char>>, base: Seq<char>) -> nat
    decreases all.len(),
{
    if all.len() == 0 {
        0
    } else {
        unit_count(all.drop_last(), base) + if unit_of(all.last(), base) {
            1nat
        } else {
            0nat
        }
    }
}

/// Friendly symbol page name: `Foo_unit2.svg` is "Foo unit 2", with the
/// unit suffix dropped for a single-unit symbol (the common case); a file
/// without a numeric unit suffix keeps its stem.
pub open spec fn symbol_name_of(file: Seq<char>, all: Seq<Seq<char>>) -> Seq<char> {
    let stem = without_suffix(file, ".svg"@);
    match split_unit(stem) {
        None => stem,
        Some((base, unit)) => if !all_digits(unit) {
            stem
        } else if unit == "1"@ && unit_count(all, base) == 1 {
            base
        } else {
            base + " unit "@ + unit
        },
    }
}

/// The occurrence `last_occurrence` names is the last one.
proof fn lemma_last_occurrence_is(s: Seq<char>, p: Seq<char>, i: int)
    requires
        occurs_at(s, p, i),
        forall|j: int| i < j ==> !occurs_at(s, p, j),
    ensures
        last_occurrence(s, p) == Some(i),
{
    let k = choose|k: int| occurs_at(s, p, k) && forall|j: int| k < j ==> !occurs_at(s, p, j);
    assert(occurs_at(s, p, k));
    if k < i {
        assert(!occurs_at(s, p, i));
    }
    if i < k {
        assert(!occurs_at(s, p, k));
    }
}

/// The text split around the last "_unit" in it.
fn split_unit_exec(stem: &Vec<char>) -> (r: Option<(Vec<char>, Vec<char>)>)
    ensures
        match r {
            Some((b, u)) => split_unit(stem@) == Some((b@, u@)),
            None => split_unit(stem@) is None,
        },
{
    proof {
        reveal_strlit("_unit");
    }
    let pat = chars_of("_unit");
    if stem.len() < 5 {
        assert forall|j: int| !occurs_at(stem@, "_unit"@, j) by {}
        return None;
    }
    let mut i: usize = stem.len() - 5 + 1;
    while i > 0
        invariant
            i <= stem.len() - 4,
            stem.len() >= 5,
            pat@ == "_unit"@,
            "_unit"@.len() == 5,
            forall|j: int| i <= j ==> !occurs_at(stem@, "_unit"@, j),
        decreases i,
    {
        let k = i - 1;
        let window = slice_chars(stem, k, k + 5);
        let hit = chars_eq_str(&window, "_unit");
        assert(hit == occurs_at(stem@, "_unit"@, k as int));
        if hit {
            proof {
                assert(occurs_at(stem@, "_unit"@, k as int));
                lemma_last_occurrence_is(stem@, "_unit"@, k as int);
            }
            return Some((slice_chars(stem, 0, k), slice_chars(stem, k + 5, stem.len())));
        }
        i = k;
    }
    None
}

/// Whether every character is an ASCII digit.
fn all_digits_exec(v: &Vec<char>) -> (r: bool)
    ensures
        r == all_digits(v@),
{
    let mut i: usize = 0;
    while i < v.len()
        invariant
            i <= v.len(),
            forall|k: int| 0 <= k < i ==> '0' <= #[trigger] v@[k] && v@[k] <= '9',
        decreases v.len() - i,
    {
        if !('0' <= v[i] && v[i] <= '9') {
            return false;
        }
        i = i + 1;
    }
    true
}

/// Whether an exported file is a unit of the symbol named `base`.
fn unit_of_exec(file: &str, base: &Vec<char>) -> (r: bool)
    ensures
        r == unit_of(file@, base@),
{
    let f = chars_of(file);
    if !ends_with_exec(&f, ".svg") {
        return false;
    }
    match split_unit_exec(&strip_suffix_exec(&f, ".svg")) {
        Some((b, u)) => crate::text::chars_eq(&b, base) && all_digits_exec(&u),
        None => false,
    }
}

/// How many of the files are units of the symbol named `base`.
fn unit_count_exec(all: &Vec<String>, base: &Vec<char>) -> (count: usize)
    ensures
        count == unit_count(all@.map_values(|f: String| f@), base@),
{
    let ghost av = all@.map_values(|f: String| f@);
    let mut count: usize = 0;
    let mut i: usize = 0;
    while i < all.len()
        invariant
            i <= all.len(),
            av == all@.map_values(|f: String| f@),
            count == unit_count(av.take(i as int), base@),
            count <= i,
        decreases all.len() - i,
    {
        proof {
            assert(av.take(i + 1).drop_last() == av.take(i as int));
            assert(av.take(i + 1).last() == all@[i as int]@);
        }
        if unit_of_exec(all[i].as_str(), base) {
            count = count + 1;
        }
        i = i + 1;
    }
    assert(av.take(all.len() as int) == av);
    count
}

/// Friendly symbol page name, given every exported file of the library (each once).
pub fn symbol_name(file: &str, all: &Vec<String>) -> (r: String)
    ensures
        r@ == symbol_name_of(file@, all@.map_values(|f: String| f@)),
{
    let stem = strip_suffix_exec(&chars_of(file), ".svg");
    match split_unit_exec(&stem) {
        None => string_of(stem.as_slice()),
        Some((base, unit)) => {
            if !all_digits_exec(&unit) {
                return string_of(stem.as_slice());
            }
            let count = unit_count_exec(all, &base);
            if chars_eq_str(&unit, "1") && count == 1 {
                string_of(base.as_slice())
            } else {
                let mut name = copy_chars(&base);
                push_str(&mut name, " unit ");
                crate::text::push_chars(&mut name, &unit);
                string_of(name.as_slice())
            }
        },
    }
}

} // verus!

verus! {

/// Non-copper layers diffed by default (copper layers are always included),
/// in their canonical order, by their file-format names.
pub open spec fn extra_layers() -> Seq<Seq<char>> {
    seq![
        "F.SilkS"@,
        "B.SilkS"@,
        "F.Mask"@,
        "B.Mask"@,
        "F.Paste"@,
        "B.Paste"@,
        "F.Fab"@,
        "B.Fab"@,
        "Edge.Cuts"@,
    ]
}

/// The default extra layer at position `i` (of nine).
fn extra_layer(i: usize) -> (r: &'static str)
    requires
        i < 9,
    ensures
        r@ == extra_layers()[i as int],
{
    match i {
        0 => "F.SilkS",
        1 => "B.SilkS",
        2 => "F.Mask",
        3 => "B.Mask",
        4 => "F.Paste",
        5 => "B.Paste",
        6 => "F.Fab",
        7 => "B.Fab",
        _ => "Edge.Cuts",
    }
}

/// The position of a name among the default extra layers.
pub open spec fn extra_position(name: Seq<char>) -> Option<int> {
    if exists|i: int| 0 <= i < 9 && extra_layers()[i] == name {
        Some(choose|i: int| 0 <= i < 9 && extra_layers()[i] == name && forall|j: int| 0 <= j < i ==> extra_layers()[j] != name)
    } else {
        None
    }
}

/// The position of a name among the default extra layers.
fn extra_position_exec(name: &str) -> (r: Option<usize>)
    ensures
        match r {
            Some(i) => extra_position(name@) == Some(i as int),
            None => extra_position(name@) is None,
        },
{
    let mut i: usize = 0;
    while i < 9
        invariant
            i <= 9,
            forall|j: int| 0 <= j < i ==> extra_layers()[j] != name@,
        decreases 9 - i,
    {
        if str_eq(extra_layer(i), name) {
            proof {
                let k = choose|k: int| 0 <= k < 9 && extra_layers()[k] == name@ && forall|j: int| 0 <= j < k ==> extra_layers()[j] != name@;
                if k < i {
                    assert(extra_layers()[k] != name@);
                }
                if i < k {
                    assert(extra_layers()[i as int] != name@);
                }
            }
            return Some(i);
        }
        i = i + 1;
    }
    None
}

/// A layer worth diffing: copper, or one of the default extras.
pub open spec fn wanted(layer: Seq<char>) -> bool {
    ends_with(layer, ".Cu"@) || extra_position(layer) is Some
}

/// The wanted layers among `all`, in board order.
pub open spec fn wanted_layers_of(all: Seq<Seq<char>>) -> Seq<Seq<char>>
    decreases all.len(),
{
    if all.len() == 0 {
        seq![]
    } else {
        let rest = wanted_layers_of(all.drop_last());
        if wanted(all.last()) {
            rest.push(all.last())
        } else {
            rest
        }
    }
}

/// Keep copper layers plus the default extras, preserving board order.
pub fn wanted_layers(all: &Vec<String>) -> (r: Vec<String>)
    ensures
        r@.map_values(|l: String| l@) == wanted_layers_of(all@.map_values(|l: String| l@)),
{
    let ghost av = all@.map_values(|l: String| l@);
    let mut out: Vec<String> = Vec::new();
    let mut i: usize = 0;
    while i < all.len()
        invariant
            i <= all.len(),
            av == all@.map_values(|l: String| l@),
            out@.map_values(|l: String| l@) == wanted_layers_of(av.take(i as int)),
        decreases all.len() - i,
    {
        proof {
            assert(av.take(i + 1).drop_last() == av.take(i as int));
            assert(av.take(i + 1).last() == all@[i as int]@);
        }
        let keep = ends_with_exec(&chars_of(all[i].as_str()), ".Cu") || extra_position_exec(all[i].as_str()).is_some();
        if keep {
            let ghost before = out@.map_values(|l: String| l@);
            out.push(all[i].clone());
            assert(out@.map_values(|l: String| l@) =~= before.push(all@[i as int]@));
        }
        i = i + 1;
    }
    assert(av.take(all.len() as int) == av);
    out
}

/// The value of a string of decimal digits.
pub open spec fn digits_value(s: Seq<char>) -> int
    decreases s.len(),
{
    if s.len() == 0 {
        0
    } else {
        digits_value(s.drop_last()) * 10 + (s.last() as int - '0' as int)
    }
}

/// What `str::parse::<i32>` accepts: an optional '+' or '-' and one or more
/// ASCII digits, the value in range.
pub open spec fn parse_i32(s: Seq<char>) -> Option<int> {
    let signed = s.len() > 0 && (s[0] == '-' || s[0] == '+');
    let digits = if signed {
        s.drop_first()
    } else {
        s
    };
    let v = if signed && s[0] == '-' {
        -digits_value(digits)
    } else {
        digits_value(digits)
    };
    if digits.len() == 0 || !all_digits(digits) || v < i32::MIN || v > i32::MAX {
        None
    } else {
        Some(v)
    }
}

/// Digit strings have a non-negative value.
proof fn lemma_digits_value_nonneg(s: Seq<char>)
    requires
        all_digits(s),
    ensures
        digits_value(s) >= 0,
    decreases s.len(),
{
    if s.len() > 0 {
        assert(all_digits(s.drop_last())) by {
            assert forall|k: int| 0 <= k < s.drop_last().len() implies '0' <= #[trigger] s.drop_last()[k] && s.drop_last()[k] <= '9' by {
                assert(s.drop_last()[k] == s[k]);
            }
        }
        lemma_digits_value_nonneg(s.drop_last());
        assert('0' <= s[s.len() - 1]);
    }
}

/// Parses a decimal `i32` as `str::parse` does.
pub(crate) fn parse_i32_exec(v: &Vec<char>) -> (r: Option<i32>)
    ensures
        match r {
            Some(n) => parse_i32(v@) == Some(n as int),
            None => parse_i32(v@) is None,
        },
{
    let signed = v.len() > 0 && (v[0] == '-' || v[0] == '+');
    let neg = signed && v[0] == '-';
    let start: usize = if signed {
        1
    } else {
        0
    };
    let ghost digits = if signed {
        v@.drop_first()
    } else {
        v@
    };
    assert(digits == v@.skip(start as int));
    if start == v.len() {
        return None;
    }
    let mut acc: u64 = 0;
    let mut over = false;
    let mut i: usize = start;
    assert(digits.take(0) =~= seq![]);
    while i < v.len()
        invariant
            start <= i <= v.len(),
            digits == v@.skip(start as int),
            digits == (if v@.len() > 0 && (v@[0] == '-' || v@[0] == '+') {
                v@.drop_first()
            } else {
                v@
            }),
            all_digits(digits.take(i - start)),
            over ==> digits_value(digits.take(i - start)) > 2147483648,
            !over ==> acc == digits_value(digits.take(i - start)) && acc <= 2147483648,
        decreases v.len() - i,
    {
        let c = v[i];
        if !('0' <= c && c <= '9') {
            proof {
                assert(digits[i - start] == c);
            }
            return None;
        }
        let ghost prefix = digits.take(i - start);
        let ghost next = digits.take(i - start + 1);
        proof {
            assert(next.drop_last() == prefix);
            assert(next.last() == c);
            assert(all_digits(next)) by {
                assert forall|k: int| 0 <= k < next.len() implies '0' <= #[trigger] next[k] && next[k] <= '9' by {
                    if k < prefix.len() {
                        assert(next[k] == prefix[k]);
                    }
                }
            }
            lemma_digits_value_nonneg(prefix);
        }
        let d = (c as u32 - '0' as u32) as u64;
        if !over {
            acc = acc * 10 + d;
            if acc > 2147483648 {
                over = true;
            }
        }
        i = i + 1;
    }
    assert(digits.take(v.len() - start) == digits);
    if over {
        return None;
    }
    if neg {
        Some((0 - acc as i64) as i32)
    } else if acc > 2147483647 {
        None
    } else {
        Some(acc as i32)
    }
}

/// Sort key giving physical stackup order: F.Cu, In1.Cu.., B.Cu, then the
/// extras in their canonical order, then anything else.
pub open spec fn layer_key(name: Seq<char>) -> (int, int, Seq<char>) {
    let inner = without_suffix(name.skip(2), ".Cu"@);
    if name == "F.Cu"@ {
        (0, 0, name)
    } else if starts_with(name, "In"@) && ends_with(name.skip(2), ".Cu"@) && parse_i32(inner) is Some {
        (0, parse_i32(inner).unwrap(), name)
    } else if name == "B.Cu"@ {
        (0, 9999, name)
    } else {
        match extra_position(name) {
            Some(i) => (1, i, name),
            None => (2, 0, name),
        }
    }
}

/// Sort key giving physical stackup order.
pub fn layer_sort_key(name: &str) -> (r: (u8, i32, String))
    ensures
        (r.0 as int, r.1 as int, r.2@) == layer_key(name@),
{
    let v = chars_of(name);
    if str_eq(name, "F.Cu") {
        return (0, 0, name.to_owned());
    }
    if starts_with_exec(&v, "In") {
        proof {
            reveal_strlit("In");
        }
        let rest = slice_chars(&v, 2, v.len());
        assert(rest@ == v@.skip(2));
        if ends_with_exec(&rest, ".Cu") {
            let inner = strip_suffix_exec(&rest, ".Cu");
            match parse_i32_exec(&inner) {
                Some(n) => {
                    return (0, n, name.to_owned());
                },
                None => {},
            }
        }
    }
    if str_eq(name, "B.Cu") {
        return (0, 9999, name.to_owned());
    }
    match extra_position_exec(name) {
        Some(i) => (1, i as i32, name.to_owned()),
        None => (2, 0, name.to_owned()),
    }
}

} // verus!

verus! {

/// The text between the first two double quotes of `s`.
pub open spec fn quoted_of(s: Seq<char>) -> Option<Seq<char>> {
    match first_index(s, '"') {
        Some(i) => match first_index(s.skip(i + 1), '"') {
            Some(j) => Some(s.subrange(i + 1, i + 1 + j)),
            None => None,
        },
        None => None,
    }
}

/// The characters between the first two double quotes of `s`.
fn quoted_chars(s: &Vec<char>) -> (r: Option<Vec<char>>)
    ensures
        match r {
            Some(q) => quoted_of(s@) == Some(q@),
            None => quoted_of(s@) is None,
        },
{
    proof {
        lemma_first_index(s@, '"');
    }
    let start = match find_char_from(s, '"', 0) {
        Some(i) => i,
        None => {
            proof {
                lemma_find_from(s@, '"', 0, None);
                assert(s@.skip(0) == s@);
            }
            return None;
        },
    };
    proof {
        lemma_find_from(s@, '"', 0, Some(start as int));
        assert(s@.skip(0) == s@);
    }
    let found = find_char_from(s, '"', start + 1);
    proof {
        lemma_find_from(s@, '"', start + 1, match found {
            Some(i) => Some(i as int),
            None => None,
        });
    }
    match found {
        Some(end) => Some(slice_chars(s, start + 1, end)),
        None => None,
    }
}

/// The text between the first two double quotes of `s`.
pub fn extract_quoted(s: &str) -> (r: Option<String>)
    ensures
        match r {
            Some(q) => quoted_of(s@) == Some(q@),
            None => quoted_of(s@) is None,
        },
{
    match quoted_chars(&chars_of(s)) {
        Some(q) => Some(string_of(q.as_slice())),
        None => None,
    }
}

/// The layer names listed in the `(layers` section of a board file: the
/// quoted name on each line after a line reading "(layers", up to a line
/// reading ")" (lines compared without surrounding white space).
pub open spec fn layers_in(lines: Seq<Seq<char>>, inside: bool) -> Seq<Seq<char>>
    decreases lines.len(),
{
    if lines.len() == 0 {
        seq![]
    } else {
        let t = trim(lines[0]);
        let rest = lines.drop_first();
        if t == "(layers"@ {
            layers_in(rest, true)
        } else if !inside {
            layers_in(rest, false)
        } else if t == ")"@ {
            seq![]
        } else {
            match quoted_of(t) {
                Some(n) => seq![n] + layers_in(rest, true),
                None => layers_in(rest, true),
            }
        }
    }
}

/// The layer names of a `kicad_pcb` file's text.
pub open spec fn layer_names_of(content: Seq<char>) -> Seq<Seq<char>> {
    layers_in(lines_of(content), false)
}

/// Parses the layer names out of the text of a `kicad_pcb` file.
pub fn layer_names(content: &str) -> (r: Vec<String>)
    ensures
        r@.map_values(|l: String| l@) == layer_names_of(content@),
{
    let lines = lines_exec(&chars_of(content));
    let ghost lv = lines@.map_values(|l: Vec<char>| l@);
    let mut out: Vec<String> = Vec::new();
    let mut inside = false;
    let mut i: usize = 0;
    assert(lv.skip(0) == lv);
    while i < lines.len()
        invariant
            i <= lines.len(),
            lv == lines@.map_values(|l: Vec<char>| l@),
            lv == lines_of(content@),
            out@.map_values(|l: String| l@) + layers_in(lv.skip(i as int), inside) == layer_names_of(content@),
        decreases lines.len() - i,
    {
        let ghost rest = lv.skip(i as int);
        proof {
            assert(rest[0] == lines@[i as int]@);
            assert(rest.drop_first() == lv.skip(i + 1));
        }
        let t = trim_exec(&lines[i]);
        if chars_eq_str(&t, "(layers") {
            inside = true;
        } else if !inside {
        } else if chars_eq_str(&t, ")") {
            proof {
                assert(out@.map_values(|l: String| l@) + seq![] =~= out@.map_values(|l: String| l@));
            }
            return out;
        } else {
            match quoted_chars(&t) {
                Some(n) => {
                    let ghost before = out@.map_values(|l: String| l@);
                    out.push(string_of(n.as_slice()));
                    proof {
                        assert(out@.map_values(|l: String| l@) =~= before.push(n@));
                        assert(before + (seq![n@] + layers_in(lv.skip(i + 1), true)) =~= out@.map_values(
                            |l: String| l@,
                        ) + layers_in(lv.skip(i + 1), true));
                    }
                },
                None => {},
            }
        }
        i = i + 1;
    }
    proof {
        assert(lv.skip(i as int) =~= seq![]);
        assert(out@.map_values(|l: String| l@) + seq![] =~= out@.map_values(|l: String| l@));
    }
    out
}

/// What `String::from_utf8_lossy` makes of some bytes.
pub uninterp spec fn lossy_utf8(bytes: Seq<u8>) -> Seq<char>;

/// Decodes bytes as `String::from_utf8_lossy` does: the result is a
/// function of the bytes, and valid UTF-8 decodes to its characters. What
/// replaces invalid sequences (U+FFFD per maximal invalid prefix) is left
/// unsaid.
#[verifier::external_body]
fn utf8_lossy(bytes: &[u8]) -> (r: String)
    ensures
        r@ == lossy_utf8(bytes@),
        vstd::utf8::valid_utf8(bytes@) ==> r@ == vstd::utf8::decode_utf8(bytes@),
{
    String::from_utf8_lossy(bytes).into_owned()
}

/// A line of an exported SVG that carries kicad-cli's generation timestamp.
pub open spec fn stamp_line(line: Seq<char>) -> bool {
    starts_with(trim_start(line), "<title>SVG Image created"@)
}

/// The lines of a text without the timestamp lines.
pub open spec fn unstamped(lines: Seq<Seq<char>>) -> Seq<Seq<char>>
    decreases lines.len(),
{
    if lines.len() == 0 {
        seq![]
    } else {
        let rest = unstamped(lines.drop_last());
        if stamp_line(lines.last()) {
            rest
        } else {
            rest.push(lines.last())
        }
    }
}

/// An exported SVG as compared: decoded, its timestamp lines dropped, the
/// rest joined by line feeds.
pub open spec fn normalized_svg(content: Seq<u8>) -> Seq<char> {
    crate::text::join(unstamped(lines_of(lossy_utf8(content))), "\n"@)
}

/// kicad-cli embeds a generation timestamp in the `<title>`; strip it so runs
/// of the same source compare as equal.
pub fn normalize_svg(content: &[u8]) -> (r: Vec<char>)
    ensures
        r@ == normalized_svg(content@),
{
    let text = utf8_lossy(content);
    let lines = lines_exec(&chars_of(text.as_str()));
    let ghost lv = lines@.map_values(|l: Vec<char>| l@);
    let mut kept: Vec<Vec<char>> = Vec::new();
    let mut i: usize = 0;
    while i < lines.len()
        invariant
            i <= lines.len(),
            lv == lines@.map_values(|l: Vec<char>| l@),
            kept@.map_values(|l: Vec<char>| l@) == unstamped(lv.take(i as int)),
        decreases lines.len() - i,
    {
        proof {
            assert(lv.take(i + 1).drop_last() == lv.take(i as int));
            assert(lv.take(i + 1).last() == lines@[i as int]@);
        }
        let stamp = starts_with_exec(&crate::text::trim_start_exec(&lines[i]), "<title>SVG Image created");
        if !stamp {
            let ghost before = kept@.map_values(|l: Vec<char>| l@);
            kept.push(copy_chars(&lines[i]));
            assert(kept@.map_values(|l: Vec<char>| l@) =~= before.push(lines@[i as int]@));
        }
        i = i + 1;
    }
    assert(lv.take(lines.len() as int) == lv);
    crate::text::join_exec(&kept, "\n")
}

/// How two rendered pages compare: none when visually identical (dropped
/// from the report), modified when both exist and differ once normalized,
/// added or removed when only one exists.
pub open spec fn classified(base: Option<Seq<u8>>, head: Option<Seq<u8>>) -> Option<Status> {
    match (base, head) {
        (Some(b), Some(h)) => if normalized_svg(b) != normalized_svg(h) {
            Some(Status::Modified)
        } else {
            None
        },
        (Some(_), None) => Some(Status::Removed),
        (None, Some(_)) => Some(Status::Added),
        (None, None) => None,
    }
}

/// Compares two rendered pages, given each side's file contents if it exists.
pub fn classify(base: Option<&[u8]>, head: Option<&[u8]>) -> (r: Option<Status>)
    ensures
        r == classified(
            match base {
                Some(b) => Some(b@),
                None => None,
            },
            match head {
                Some(h) => Some(h@),
                None => None,
            },
        ),
{
    match (base, head) {
        (Some(b), Some(h)) => {
            let a = normalize_svg(b);
            let c = normalize_svg(h);
            if crate::text::chars_eq(&a, &c) {
                None
            } else {
                Some(Status::Modified)
            }
        },
        (Some(_), None) => Some(Status::Removed),
        (None, Some(_)) => Some(Status::Added),
        (None, None) => None,
    }
}

} // verus!

verus! {

/// A page stays in the report when it differs visually, or when a change
/// points at it (a pin rewired from another sheet leaves no pixel behind).
pub open spec fn page_kept(p: Page, changes: Seq<crate::semantic::Change>) -> bool {
    p.status != Status::Unchanged || exists|i: int|
        #![trigger changes[i]]
        0 <= i < changes.len() && crate::semantic::page_view(changes[i].sheet) == Some(p.name@)
}

/// The pages kept, in order.
pub open spec fn kept_pages(pages: Seq<Page>, changes: Seq<crate::semantic::Change>) -> Seq<Page>
    decreases pages.len(),
{
    if pages.len() == 0 {
        seq![]
    } else {
        let rest = kept_pages(pages.drop_last(), changes);
        if page_kept(pages.last(), changes) {
            rest.push(pages.last())
        } else {
            rest
        }
    }
}

/// Keeps the sheets that differ visually or that a change points at.
pub fn keep_referenced(pages: Vec<Page>, changes: &Vec<crate::semantic::Change>) -> (r: Vec<Page>)
    ensures
        r@ == kept_pages(pages@, changes@),
{
    let ghost pv = pages@;
    let mut pages = pages;
    let mut out: Vec<Page> = Vec::new();
    let mut taken: usize = 0;
    let mut rev: Vec<Page> = Vec::new();
    while pages.len() > 0
        invariant
            pages@ == pv.take(pages.len() as int),
            pages.len() + rev.len() == pv.len(),
            forall|k: int| 0 <= k < rev.len() ==> #[trigger] rev@[k] == pv[pv.len() - 1 - k],
        decreases pages.len(),
    {
        let p = pages.pop().unwrap();
        rev.push(p);
    }
    while rev.len() > 0
        invariant
            rev.len() + taken == pv.len(),
            pv.len() <= usize::MAX,
            forall|k: int| 0 <= k < rev.len() ==> #[trigger] rev@[k] == pv[pv.len() - 1 - k],
            out@ == kept_pages(pv.take(taken as int), changes@),
        decreases rev.len(),
    {
        let p = rev.pop().unwrap();
        assert(p == pv[taken as int]);
        proof {
            assert(pv.take(taken + 1).drop_last() == pv.take(taken as int));
            assert(pv.take(taken + 1).last() == p);
        }
        let mut referenced = false;
        let mut i: usize = 0;
        while i < changes.len()
            invariant
                i <= changes.len(),
                !referenced ==> forall|k: int|
                    #![trigger changes@[k]]
                    0 <= k < i ==> crate::semantic::page_view(changes@[k].sheet) != Some(p.name@),
                referenced ==> exists|k: int|
                    #![trigger changes@[k]]
                    0 <= k < changes.len() && crate::semantic::page_view(changes@[k].sheet) == Some(p.name@),
            decreases changes.len() - i,
        {
            if !referenced {
                match &changes[i].sheet {
                    Some(s) => if str_eq(s.as_str(), p.name.as_str()) {
                        referenced = true;
                    },
                    None => {},
                }
            }
            i = i + 1;
        }
        let keep = p.status != Status::Unchanged || referenced;
        if keep {
            out.push(p);
        }
        taken = taken + 1;
    }
    assert(pv.take(pv.len() as int) == pv);
    out
}

/// The part total `totals` lists for a page name (its first entry).
pub open spec fn total_for(totals: Seq<(PageName, usize)>, name: Seq<char>) -> Option<usize>
    decreases totals.len(),
{
    if totals.len() == 0 {
        None
    } else {
        match total_for(totals.drop_last(), name) {
            Some(n) => Some(n),
            None => if totals.last().0@ == name {
                Some(totals.last().1)
            } else {
                None
            },
        }
    }
}

/// `total_for` is settled by the first entries once they hold the name.
proof fn lemma_total_for_prefix(t: Seq<(PageName, usize)>, n: int, name: Seq<char>)
    requires
        0 <= n <= t.len(),
        total_for(t.take(n), name) is Some,
    ensures
        total_for(t, name) == total_for(t.take(n), name),
    decreases t.len(),
{
    if n < t.len() {
        assert(t.drop_last().take(n) == t.take(n));
        lemma_total_for_prefix(t.drop_last(), n, name);
    } else {
        assert(t.take(n) == t);
    }
}

/// The part total listed for a page name.
fn total_for_exec(totals: &Vec<(PageName, usize)>, name: &PageName) -> (r: Option<usize>)
    ensures
        r == total_for(totals@, name@),
{
    let mut i: usize = 0;
    while i < totals.len()
        invariant
            i <= totals.len(),
            total_for(totals@.take(i as int), name@) is None,
        decreases totals.len() - i,
    {
        proof {
            assert(totals@.take(i + 1).drop_last() == totals@.take(i as int));
            assert(totals@.take(i + 1).last() == totals@[i as int]);
        }
        if str_eq(totals[i].0.as_str(), name.as_str()) {
            proof {
                lemma_total_for_prefix(totals@, i + 1, name@);
            }
            return Some(totals[i].1);
        }
        i = i + 1;
    }
    assert(totals@.take(totals.len() as int) == totals@);
    None
}

/// Gives each page its part total (unique references on it, both sides),
/// none where the totals do not list it.
pub fn assign_parts(pages: &mut Vec<Page>, totals: &Vec<(PageName, usize)>)
    ensures
        final(pages).len() == old(pages).len(),
        forall|i: int|
            0 <= i < final(pages).len() ==> #[trigger] final(pages)@[i] == (Page {
                parts: total_for(totals@, old(pages)@[i].name@),
                ..old(pages)@[i]
            }),
{
    let ghost orig = pages@;
    let mut i: usize = 0;
    while i < pages.len()
        invariant
            i <= pages.len(),
            pages.len() == orig.len(),
            forall|k: int| 0 <= k < i ==> #[trigger] pages@[k] == (Page { parts: total_for(totals@, orig[k].name@), ..orig[k] }),
            forall|k: int| i <= k < pages.len() ==> #[trigger] pages@[k] == orig[k],
        decreases pages.len() - i,
    {
        let parts = total_for_exec(totals, &pages[i].name);
        pages[i].parts = parts;
        i = i + 1;
    }
}

} // verus!

verus! {

/// Every non-overlapping occurrence of `pat`, left to right, replaced by `rep`.
pub open spec fn replace_all(s: Seq<char>, pat: Seq<char>, rep: Seq<char>) -> Seq<char>
    decreases s.len(),
{
    if s.len() == 0 {
        seq![]
    } else if pat.len() > 0 && starts_with(s, pat) {
        rep + replace_all(s.skip(pat.len() as int), pat, rep)
    } else {
        seq![s[0]] + replace_all(s.drop_first(), pat, rep)
    }
}

/// A board layer's label from its exported file name ("anchor-F_Silkscreen.svg"
/// becomes "F.SilkS"): the project prefix and ".svg" dropped, '_' read as
/// '.', and the GUI name "Silkscreen" shortened to the canonical "SilkS".
pub open spec fn layer_label_of(file: Seq<char>, project_name: Seq<char>) -> Seq<char> {
    let prefix = project_name + "-"@;
    let stripped = if starts_with(file, prefix) {
        file.skip(prefix.len() as int)
    } else {
        file
    };
    let stem = if ends_with(stripped, ".svg"@) {
        stripped.take(stripped.len() - 4)
    } else {
        file
    };
    replace_all(stem.map_values(|c: char| if c == '_' { '.' } else { c }), "Silkscreen"@, "SilkS"@)
}

/// The characters with every occurrence of `pat` replaced by `rep`.
fn replace_all_exec(v: &Vec<char>, pat: &str, rep: &str) -> (r: Vec<char>)
    requires
        pat@.len() > 0,
    ensures
        r@ == replace_all(v@, pat@, rep@),
{
    let pv = chars_of(pat);
    let mut out: Vec<char> = Vec::new();
    let mut i: usize = 0;
    assert(v@.skip(0) == v@);
    while i < v.len()
        invariant
            i <= v.len(),
            pv@ == pat@,
            pat@.len() > 0,
            out@ + replace_all(v@.skip(i as int), pat@, rep@) == replace_all(v@, pat@, rep@),
        decreases v.len() - i,
    {
        let ghost rest = v@.skip(i as int);
        let here = if pv.len() <= v.len() - i {
            let window = slice_chars(v, i, i + pv.len());
            assert(window@ == rest.subrange(0, pat@.len() as int));
            chars_eq_str(&window, pat)
        } else {
            false
        };
        assert(here == starts_with(rest, pat@));
        let ghost before = out@;
        if here {
            push_str(&mut out, rep);
            proof {
                assert(rest.skip(pat@.len() as int) == v@.skip(i + pat@.len()));
                assert(out@ + replace_all(v@.skip(i + pat@.len()), pat@, rep@) =~= before + replace_all(rest, pat@, rep@));
            }
            i = i + pv.len();
        } else {
            out.push(v[i]);
            proof {
                assert(rest[0] == v@[i as int]);
                assert(rest.drop_first() == v@.skip(i + 1));
                assert(out@ + replace_all(v@.skip(i + 1), pat@, rep@) =~= before + replace_all(rest, pat@, rep@));
            }
            i = i + 1;
        }
    }
    proof {
        assert(v@.skip(i as int) =~= seq![]);
        assert(out@ + replace_all(v@.skip(i as int), pat@, rep@) =~= out@);
    }
    out
}

/// A board layer's label from its exported file name.
pub fn layer_label(file: &str, project_name: &str) -> (r: String)
    ensures
        r@ == layer_label_of(file@, project_name@),
{
    let f = chars_of(file);
    let mut prefix = chars_of(project_name);
    push_str(&mut prefix, "-");
    let p = string_of(prefix.as_slice());
    let stripped = if starts_with_exec(&f, p.as_str()) {
        slice_chars(&f, prefix.len(), f.len())
    } else {
        copy_chars(&f)
    };
    let stem = if ends_with_exec(&stripped, ".svg") {
        proof {
            reveal_strlit(".svg");
        }
        slice_chars(&stripped, 0, stripped.len() - 4)
    } else {
        copy_chars(&f)
    };
    let mut dotted: Vec<char> = Vec::new();
    let mut i: usize = 0;
    while i < stem.len()
        invariant
            i <= stem.len(),
            dotted@ == stem@.take(i as int).map_values(|c: char| if c == '_' { '.' } else { c }),
        decreases stem.len() - i,
    {
        let c = stem[i];
        dotted.push(if c == '_' { '.' } else { c });
        assert(stem@.take(i + 1).map_values(|c: char| if c == '_' { '.' } else { c }) =~= stem@.take(
            i as int,
        ).map_values(|c: char| if c == '_' { '.' } else { c }).push(dotted@.last()));
        i = i + 1;
    }
    assert(stem@.take(stem.len() as int) == stem@);
    proof {
        reveal_strlit("Silkscreen");
    }
    string_of(replace_all_exec(&dotted, "Silkscreen", "SilkS").as_slice())
}

} // verus!

verus! {

/// Stripping leading underscores leaves a suffix that does not start with one.
proof fn lemma_strip_lead(s: Seq<char>)
    ensures
        exists|k: int| 0 <= k <= s.len() && strip_lead_underscores(s) == s.skip(k),
        strip_lead_underscores(s).len() > 0 ==> strip_lead_underscores(s)[0] != '_',
        (s.len() == 0 || s[0] != '_') ==> strip_lead_underscores(s) == s,
    decreases s.len(),
{
    if s.len() > 0 && s[0] == '_' {
        lemma_strip_lead(s.drop_first());
        let k = choose|k: int| 0 <= k <= s.drop_first().len() && strip_lead_underscores(s.drop_first()) == s.drop_first().skip(k);
        assert(s.drop_first().skip(k) == s.skip(k + 1));
    } else {
        assert(s.skip(0) == s);
    }
}

/// Stripping trailing underscores leaves a prefix that does not end with one.
proof fn lemma_strip_trail(s: Seq<char>)
    ensures
        exists|k: int| 0 <= k <= s.len() && strip_trail_underscores(s) == s.take(k),
        strip_trail_underscores(s).len() > 0 ==> strip_trail_underscores(s).last() != '_',
        (s.len() == 0 || s.last() != '_') ==> strip_trail_underscores(s) == s,
    decreases s.len(),
{
    if s.len() > 0 && s.last() == '_' {
        lemma_strip_trail(s.drop_last());
        let k = choose|k: int| 0 <= k <= s.drop_last().len() && strip_trail_underscores(s.drop_last()) == s.drop_last().take(k);
        assert(s.drop_last().take(k) == s.take(k));
    } else {
        assert(s.take(s.len() as int) == s);
    }
}

/// A path component that `sanitize` leaves as it is: non-empty, made of
/// safe characters, and neither starting nor ending with an underscore.
pub open spec fn safe_component(s: Seq<char>) -> bool {
    s.len() > 0 && (forall|k: int| 0 <= k < s.len() ==> path_safe(#[trigger] s[k])) && s[0] != '_' && s.last() != '_'
}

/// `sanitize` yields a safe path component, and leaves one unchanged: it is
/// idempotent.
pub proof fn law_sanitize_is_safe_and_idempotent(s: Seq<char>)
    ensures
        safe_component(sanitized(s)),
        sanitized(sanitized(s)) == sanitized(s),
{
    let mapped = s.map_values(|c: char| if path_safe(c) { c } else { '_' });
    let lead = strip_lead_underscores(mapped);
    let t = strip_trail_underscores(lead);
    lemma_strip_lead(mapped);
    lemma_strip_trail(lead);
    let k1 = choose|k: int| 0 <= k <= mapped.len() && lead == mapped.skip(k);
    let k2 = choose|k: int| 0 <= k <= lead.len() && t == lead.take(k);
    assert forall|k: int| 0 <= k < t.len() implies path_safe(#[trigger] t[k]) by {
        assert(t[k] == lead[k]);
        assert(lead[k] == mapped[k + k1]);
    }
    if t.len() > 0 {
        assert(t[0] == lead[0]);
        lemma_strip_lead(lead);
    }
    let out = sanitized(s);
    reveal_strlit("page");
    assert(safe_component(out)) by {
        if t.len() == 0 {
            assert(out == "page"@);
        }
    }
    let m2 = out.map_values(|c: char| if path_safe(c) { c } else { '_' });
    assert(m2 =~= out);
    lemma_strip_lead(m2);
    lemma_strip_trail(m2);
    assert(strip_trail_underscores(strip_lead_underscores(m2)) == out);
}

} // verus!

verus! {

/// Two exports of the same source compare as equal: a page whose rendered
/// content is unchanged, or differs only in the generation stamp, is
/// dropped from the report.
pub proof fn law_unchanged_exports_are_dropped(x: Seq<u8>, y: Seq<u8>)
    requires
        unstamped(lines_of(lossy_utf8(x))) == unstamped(lines_of(lossy_utf8(y))),
    ensures
        classified(Some(x), Some(y)) is None,
        classified(Some(x), Some(x)) is None,
{
}

} // verus!
