//! Which rendered SVGs the report links to, the extent an SVG declares,
//! and byte counts for people.

use vstd::prelude::*;

use crate::kicad::{Page, Status};
use crate::semantic::part::{insert_text, lemma_text_order, strings_view, text_order};
use crate::order::{sorted_seq_of, strictly_sorted};
use crate::text::{chars_of, decimal, decimal_chars, digit_char, first_index, push_chars, push_str, string_of};
use crate::semantic::symbols::{nm_of_chars, nm_value};

verus! {

/// The binary unit a byte count is shown in: the largest power of 1024 (up
/// to GiB) it reaches.
pub open spec fn unit_of_size(bytes: nat) -> nat {
    if bytes < 1024 {
        0
    } else if bytes < 1024 * 1024 {
        1
    } else if bytes < 1024 * 1024 * 1024 {
        2
    } else {
        3
    }
}

/// 1024 to the power `unit`.
pub open spec fn unit_size(unit: nat) -> nat {
    if unit == 0 {
        1
    } else if unit == 1 {
        1024
    } else if unit == 2 {
        1024 * 1024
    } else {
        1024 * 1024 * 1024
    }
}

/// `bytes` in tenths of `unit_size(unit)`, rounded to the nearest, a tie to even.
pub open spec fn tenths(bytes: nat, unit: nat) -> nat {
    let d = unit_size(unit);
    let q = (bytes * 10) / d;
    let r = (bytes * 10) % d;
    if 2 * r > d || (2 * r == d && q % 2 == 1) {
        q + 1
    } else {
        q
    }
}

/// The name of a binary unit.
pub open spec fn unit_name(unit: nat) -> Seq<char> {
    if unit == 1 {
        "KiB"@
    } else if unit == 2 {
        "MiB"@
    } else {
        "GiB"@
    }
}

/// A byte count for people: whole bytes below a KiB, else one decimal in
/// the largest binary unit reached ("1.5 KiB", "2.0 MiB").
pub open spec fn human_text(bytes: nat) -> Seq<char> {
    let unit = unit_of_size(bytes);
    if unit == 0 {
        decimal(bytes) + " B"@
    } else {
        let t = tenths(bytes, unit);
        decimal(t / 10) + "."@ + seq![digit_char(t % 10)] + " "@ + unit_name(unit)
    }
}

/// A byte count for people.
pub fn human(bytes: u64) -> (r: String)
    ensures
        r@ == human_text(bytes as nat),
{
    if bytes < 1024 {
        let mut out = decimal_chars(bytes);
        push_str(&mut out, " B");
        return string_of(out.as_slice());
    }
    let (unit, d, name): (u64, u128, &str) = if bytes < 1024 * 1024 {
        (1, 1024, "KiB")
    } else if bytes < 1024 * 1024 * 1024 {
        (2, 1024 * 1024, "MiB")
    } else {
        (3, 1024 * 1024 * 1024, "GiB")
    };
    assert(unit == unit_of_size(bytes as nat) && d == unit_size(unit as nat) && name@ == unit_name(unit as nat));
    let q: u128 = (bytes as u128 * 10) / d;
    let r: u128 = (bytes as u128 * 10) % d;
    let t: u128 = if 2 * r > d || (2 * r == d && q % 2 == 1) {
        q + 1
    } else {
        q
    };
    assert(t == tenths(bytes as nat, unit as nat));
    assert(q <= bytes) by (nonlinear_arith)
        requires
            q == (bytes as int * 10) / (d as int),
            d >= 1024,
    ;
    let mut out = decimal_chars((t / 10) as u64);
    out.push('.');
    out.push(crate::text::digit((t % 10) as u64));
    push_str(&mut out, " ");
    push_str(&mut out, name);
    proof {
        reveal_strlit(".");
        reveal_strlit(" ");
        assert(out@ =~= human_text(bytes as nat));
    }
    string_of(out.as_slice())
}

/// The files, under the report directory, that a page's SVGs occupy: the
/// base side unless the page was added, the head side unless it was
/// removed, and the board outlines it overlays.
pub open spec fn page_svgs(p: Page) -> Set<Seq<char>> {
    Set::new(
        |f: Seq<char>|
            (p.status != Status::Added && f == "a/svg/"@ + p.rel@) || (p.status != Status::Removed && f == "b/svg/"@
                + p.rel@) || (p.edge_base matches Some(e) && f == e@) || (p.edge_head matches Some(e) && f == e@),
    )
}

/// Every SVG the report links to, each once, in path order.
pub open spec fn linked_svgs(pages: Seq<Page>) -> Seq<Seq<char>> {
    sorted_seq_of(
        Set::new(|f: Seq<char>| exists|i: int| #![trigger pages[i]] 0 <= i < pages.len() && page_svgs(pages[i]).contains(f)),
        text_order(),
    )
}

/// Every SVG the report links to (paths relative to the report directory),
/// each once, in path order: what gets minified in place.
pub fn linked_svg_files(pages: &Vec<Page>) -> (files: Vec<String>)
    ensures
        strings_view(files@) == linked_svgs(pages@),
{
    let mut files: Vec<String> = Vec::new();
    let mut i: usize = 0;
    while i < pages.len()
        invariant
            i <= pages.len(),
            strictly_sorted(strings_view(files@), text_order()),
            strings_view(files@).to_set() == Set::new(
                |f: Seq<char>| exists|k: int| #![trigger pages@[k]] 0 <= k < i && page_svgs(pages@[k]).contains(f),
            ),
        decreases pages.len() - i,
    {
        let p = &pages[i];
        let ghost before = strings_view(files@).to_set();
        if p.status != Status::Added {
            let mut f = chars_of("a/svg/");
            push_str(&mut f, p.rel.as_str());
            insert_text(&mut files, &string_of(f.as_slice()));
        }
        let ghost s1 = strings_view(files@).to_set();
        if p.status != Status::Removed {
            let mut f = chars_of("b/svg/");
            push_str(&mut f, p.rel.as_str());
            insert_text(&mut files, &string_of(f.as_slice()));
        }
        let ghost s2 = strings_view(files@).to_set();
        if let Some(e) = &p.edge_base {
            insert_text(&mut files, e);
        }
        let ghost s3 = strings_view(files@).to_set();
        if let Some(e) = &p.edge_head {
            insert_text(&mut files, e);
        }
        proof {
            assert(strings_view(files@).to_set() =~= before.union(page_svgs(pages@[i as int])));
            assert(strings_view(files@).to_set() =~= Set::new(
                |f: Seq<char>| exists|k: int| #![trigger pages@[k]] 0 <= k < i + 1 && page_svgs(pages@[k]).contains(f),
            ));
        }
        i = i + 1;
    }
    proof {
        lemma_text_order();
        crate::order::lemma_is_sorted_seq_of(
            strings_view(files@),
            Set::new(|f: Seq<char>| exists|k: int| #![trigger pages@[k]] 0 <= k < pages.len() && page_svgs(pages@[k]).contains(f)),
            text_order(),
        );
    }
    files
}


/// The white space `str::split_ascii_whitespace` splits at.
pub open spec fn ascii_white(c: char) -> bool {
    c == ' ' || c == '\t' || c == '\n' || c == '\x0C' || c == '\r'
}

/// A word's length, if the word is one: its value in nanometres as a list
/// of one, else an empty list.
pub open spec fn word_length(w: Seq<char>) -> Seq<int> {
    match nm_value(w) {
        Some(v) => seq![v],
        None => seq![],
    }
}

/// The lengths (millimetres, in nanometres) among the words of `cur + s`,
/// words being split at ASCII white space, where `cur` is the start of a
/// word not yet ended; words that are no length are passed over.
pub open spec fn lengths_in(s: Seq<char>, cur: Seq<char>) -> Seq<int>
    decreases s.len(),
{
    if s.len() == 0 {
        word_length(cur)
    } else if ascii_white(s[0]) {
        word_length(cur) + lengths_in(s.drop_first(), seq![])
    } else {
        lengths_in(s.drop_first(), cur.push(s[0]))
    }
}

/// Where `p` first occurs in `s` at or after position `i`.
pub open spec fn find_text(s: Seq<char>, p: Seq<char>, i: nat) -> Option<int>
    decreases s.len() + 1 - i,
{
    if i + p.len() > s.len() {
        None
    } else if s.subrange(i as int, (i + p.len()) as int) == p {
        Some(i as int)
    } else {
        find_text(s, p, i + 1)
    }
}

/// The extent an SVG declares, from its leading text: the third and fourth
/// lengths (width and height, millimetres, in nanometres) in the value of
/// the first `viewBox` attribute, that is the text from the first
/// `viewBox="` up to the next quote or the end.
pub open spec fn view_box_extent(head: Seq<char>) -> Option<(int, int)> {
    match find_text(head, "viewBox=\""@, 0) {
        Some(k) => {
            let rest = head.skip(k + "viewBox=\""@.len());
            let value = match first_index(rest, '"') {
                Some(q) => rest.take(q),
                None => rest,
            };
            let nums = lengths_in(value, seq![]);
            if nums.len() >= 4 {
                Some((nums[2], nums[3]))
            } else {
                None
            }
        },
        None => None,
    }
}

/// Whether `p` occurs in `v` at position `i`.
fn occurs_at(v: &Vec<char>, p: &Vec<char>, i: usize) -> (r: bool)
    requires
        i + p.len() <= v.len(),
    ensures
        r == (v@.subrange(i as int, i + p.len()) == p@),
{
    let mut k: usize = 0;
    while k < p.len()
        invariant
            k <= p.len(),
            i + p.len() <= v.len(),
            forall|j: int| 0 <= j < k ==> v@[i + j] == p@[j],
        decreases p.len() - k,
    {
        if v[i + k] != p[k] {
            assert(v@.subrange(i as int, i + p.len())[k as int] != p@[k as int]);
            return false;
        }
        k = k + 1;
    }
    assert(v@.subrange(i as int, i + p.len()) =~= p@);
    true
}

/// Where `p` first occurs in `v`.
fn find_chars(v: &Vec<char>, p: &Vec<char>) -> (r: Option<usize>)
    ensures
        match r {
            Some(k) => find_text(v@, p@, 0) == Some(k as int) && k + p.len() <= v.len(),
            None => find_text(v@, p@, 0) is None,
        },
{
    if p.len() > v.len() {
        return None;
    }
    let last = v.len() - p.len();
    let mut i: usize = 0;
    loop
        invariant
            i <= last,
            last + p.len() == v.len(),
            find_text(v@, p@, 0) == find_text(v@, p@, i as nat),
        decreases last - i,
    {
        if occurs_at(v, p, i) {
            return Some(i);
        }
        if i == last {
            assert(find_text(v@, p@, (i + 1) as nat) is None);
            return None;
        }
        i = i + 1;
    }
}

/// The lengths among the words of `v`.
fn lengths_of(v: &Vec<char>) -> (r: Vec<i32>)
    ensures
        r@.len() == lengths_in(v@, seq![]).len(),
        forall|k: int| 0 <= k < r@.len() ==> r@[k] as int == #[trigger] lengths_in(v@, seq![])[k],
{
    let mut out: Vec<i32> = Vec::new();
    let mut cur: Vec<char> = Vec::new();
    let ghost done: Seq<int> = seq![];
    let mut i: usize = 0;
    assert(v@.skip(0) =~= v@);
    assert(cur@ =~= Seq::<char>::empty());
    while i < v.len()
        invariant
            i <= v.len(),
            out@.len() == done.len(),
            forall|k: int| 0 <= k < out@.len() ==> out@[k] as int == #[trigger] done[k],
            done + lengths_in(v@.skip(i as int), cur@) == lengths_in(v@, seq![]),
        decreases v.len() - i,
    {
        let ghost rest = v@.skip(i as int);
        assert(rest[0] == v@[i as int]);
        assert(rest.drop_first() =~= v@.skip(i + 1));
        let c = v[i];
        if c == ' ' || c == '\t' || c == '\n' || c == '\x0C' || c == '\r' {
            let ghost word = cur@;
            match nm_of_chars(&cur) {
                Some(n) => {
                    out.push(n);
                },
                None => {},
            }
            proof {
                let d2 = done + word_length(word);
                assert(d2 + lengths_in(v@.skip(i + 1), seq![]) =~= done + lengths_in(rest, word));
                done = d2;
            }
            cur = Vec::new();
        } else {
            cur.push(c);
        }
        i = i + 1;
    }
    assert(v@.skip(i as int) =~= Seq::<char>::empty());
    let ghost word = cur@;
    match nm_of_chars(&cur) {
        Some(n) => {
            out.push(n);
        },
        None => {},
    }
    proof {
        done = done + word_length(word);
        assert(done =~= lengths_in(v@, seq![]));
    }
    out
}

/// The extent an SVG declares in its `viewBox`, in nanometres, read from
/// the file's leading text.
pub fn view_box_size(head: &str) -> (r: Option<(i32, i32)>)
    ensures
        match r {
            Some((w, h)) => view_box_extent(head@) == Some((w as int, h as int)),
            None => view_box_extent(head@) is None,
        },
{
    let v = chars_of(head);
    let key = chars_of("viewBox=\"");
    let k = match find_chars(&v, &key) {
        Some(k) => k,
        None => return None,
    };
    let start = k + key.len();
    let rest = crate::text::slice_chars(&v, start, v.len());
    assert(rest@ =~= head@.skip(k + "viewBox=\""@.len()));
    let end = match crate::text::find_char_from(&rest, '"', 0) {
        Some(q) => q,
        None => rest.len(),
    };
    proof {
        crate::text::lemma_first_index(rest@, '"');
        match first_index(rest@, '"') {
            Some(q) => {
                assert(q == end);
            },
            None => {
                assert(end == rest.len());
            },
        }
    }
    let value = crate::text::slice_chars(&rest, 0, end);
    let nums = lengths_of(&value);
    proof {
        assert(value@ == (match first_index(rest@, '"') {
            Some(q) => rest@.take(q),
            None => rest@,
        }));
    }
    if nums.len() >= 4 {
        Some((nums[2], nums[3]))
    } else {
        None
    }
}

} // verus!
