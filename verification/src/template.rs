//! The report's data file: pages and semantic changes as JavaScript arrays.

use vstd::prelude::*;

use crate::kicad::{kind_name, status_name, Page};
use crate::semantic::{change_kind_name, Change, Frac, Ratio};
use crate::text::{chars_of, decimal, decimal_chars, digit_char, push_chars, push_str, string_of};

verus! {

/// A lowercase hexadecimal digit.
pub open spec fn hex_char(d: nat) -> char {
    if d < 10 {
        digit_char(d)
    } else {
        ((d - 10 + 97) as u32) as char
    }
}

/// One character as it appears inside a JSON string literal.
pub open spec fn json_char(c: char) -> Seq<char> {
    if c == '"' {
        seq!['\\', '"']
    } else if c == '\\' {
        seq!['\\', '\\']
    } else if c == '\n' {
        seq!['\\', 'n']
    } else if c == '\r' {
        seq!['\\', 'r']
    } else if c == '\t' {
        seq!['\\', 't']
    } else if (c as u32) < 0x20 {
        seq!['\\', 'u', '0', '0', hex_char((c as u32 / 16) as nat), hex_char((c as u32 % 16) as nat)]
    } else {
        seq![c]
    }
}

/// The escaped characters of a text inside a JSON string literal.
pub open spec fn json_body(s: Seq<char>) -> Seq<char>
    decreases s.len(),
{
    if s.len() == 0 {
        seq![]
    } else {
        json_body(s.drop_last()) + json_char(s.last())
    }
}

/// A text as a JSON string literal.
pub open spec fn json(s: Seq<char>) -> Seq<char> {
    seq!['"'] + json_body(s) + seq!['"']
}

/// One character with HTML's markup characters escaped.
pub open spec fn html_char(c: char) -> Seq<char> {
    if c == '&' {
        "&amp;"@
    } else if c == '<' {
        "&lt;"@
    } else if c == '>' {
        "&gt;"@
    } else {
        seq![c]
    }
}

/// A text with `&`, `<` and `>` escaped for HTML.
pub open spec fn html(s: Seq<char>) -> Seq<char>
    decreases s.len(),
{
    if s.len() == 0 {
        seq![]
    } else {
        html(s.drop_last()) + html_char(s.last())
    }
}

/// The lowercase hex digit of a value below sixteen.
fn hex_digit(d: u32) -> (c: char)
    requires
        d < 16,
    ensures
        c == hex_char(d as nat),
{
    if d < 10 {
        crate::text::digit(d as u64)
    } else {
        ((d - 10 + 97) as u8) as char
    }
}

/// Appends one character as it appears inside a JSON string literal.
fn push_json_char(out: &mut Vec<char>, c: char)
    ensures
        final(out)@ == old(out)@ + json_char(c),
{
    let ghost start = out@;
    if c == '"' {
        out.push('\\');
        out.push('"');
    } else if c == '\\' {
        out.push('\\');
        out.push('\\');
    } else if c == '\n' {
        out.push('\\');
        out.push('n');
    } else if c == '\r' {
        out.push('\\');
        out.push('r');
    } else if c == '\t' {
        out.push('\\');
        out.push('t');
    } else if (c as u32) < 0x20 {
        out.push('\\');
        out.push('u');
        out.push('0');
        out.push('0');
        out.push(hex_digit(c as u32 / 16));
        out.push(hex_digit(c as u32 % 16));
    } else {
        out.push(c);
    }
    assert(out@ =~= start + json_char(c));
}

/// Appends a text as a JSON string literal.
fn push_json(out: &mut Vec<char>, s: &str)
    ensures
        final(out)@ == old(out)@ + json(s@),
{
    let ghost start = out@;
    let cs = chars_of(s);
    out.push('"');
    let mut i: usize = 0;
    while i < cs.len()
        invariant
            i <= cs.len(),
            cs@ == s@,
            out@ == start + seq!['"'] + json_body(cs@.take(i as int)),
        decreases cs.len() - i,
    {
        proof {
            assert(cs@.take(i + 1).drop_last() == cs@.take(i as int));
            assert(cs@.take(i + 1).last() == cs@[i as int]);
        }
        push_json_char(out, cs[i]);
        i = i + 1;
    }
    assert(cs@.take(cs.len() as int) == cs@);
    out.push('"');
    assert(out@ =~= start + json(s@));
}

/// A text as a JSON string literal.
pub fn json_escape(s: &str) -> (r: String)
    ensures
        r@ == json(s@),
{
    let mut out: Vec<char> = Vec::new();
    push_json(&mut out, s);
    assert(out@ =~= json(s@));
    string_of(out.as_slice())
}

/// A text with `&`, `<` and `>` escaped for HTML.
pub fn html_escape(s: &str) -> (r: String)
    ensures
        r@ == html(s@),
{
    let cs = chars_of(s);
    let mut out: Vec<char> = Vec::new();
    let mut i: usize = 0;
    while i < cs.len()
        invariant
            i <= cs.len(),
            cs@ == s@,
            out@ == html(cs@.take(i as int)),
        decreases cs.len() - i,
    {
        proof {
            assert(cs@.take(i + 1).drop_last() == cs@.take(i as int));
            assert(cs@.take(i + 1).last() == cs@[i as int]);
        }
        let c = cs[i];
        if c == '&' {
            push_str(&mut out, "&amp;");
        } else if c == '<' {
            push_str(&mut out, "&lt;");
        } else if c == '>' {
            push_str(&mut out, "&gt;");
        } else {
            out.push(c);
        }
        i = i + 1;
    }
    assert(cs@.take(cs.len() as int) == cs@);
    string_of(out.as_slice())
}

} // verus!

verus! {

/// Four decimal digits of a value below ten thousand.
pub open spec fn four_digits(v: nat) -> Seq<char> {
    seq![digit_char(v / 1000), digit_char((v / 100) % 10), digit_char((v / 10) % 10), digit_char(v % 10)]
}

/// A ratio with a positive denominator, as a decimal with four places,
/// rounded to the nearest (halves away from zero).
pub open spec fn fixed4(r: Ratio) -> Seq<char> {
    let a: int = if r.num < 0 {
        -(r.num as int)
    } else {
        r.num as int
    };
    let q = (20000 * a + r.den) / (2 * r.den);
    (if r.num < 0 {
        "-"@
    } else {
        seq![]
    }) + decimal((q / 10000) as nat) + "."@ + four_digits((q % 10000) as nat)
}

/// A change location as a JSON pair of decimals.
pub open spec fn frac_text(f: Frac) -> Seq<char> {
    "["@ + fixed4(f.x) + ", "@ + fixed4(f.y) + "]"@
}

/// The fixed fields of a page's data line.
pub open spec fn page_fields(p: Page) -> Seq<char> {
    "  { project: "@ + json(p.project@) + ", kind: "@ + json(kind_name(p.kind)) + ", name: "@ + json(p.name@)
        + ", path: "@ + json(p.rel@) + ", status: "@ + json(status_name(p.status))
}

/// The optional fields of a page's data line, present only when set.
pub open spec fn page_options(p: Page) -> Seq<char> {
    (match p.edge_base {
        Some(e) => ", edgeBase: "@ + json(e@),
        None => seq![],
    }) + (match p.edge_head {
        Some(e) => ", edgeHead: "@ + json(e@),
        None => seq![],
    }) + (match p.parts {
        Some(n) => ", parts: "@ + decimal(n as nat),
        None => seq![],
    })
}

/// The data line of a page.
pub open spec fn page_line(p: Page) -> Seq<char> {
    page_fields(p) + page_options(p) + " },\n"@
}

/// Where a change sits: its project, scope, and sheet or layer when set.
pub open spec fn change_place(c: Change) -> Seq<char> {
    "  { project: "@ + json(c.project@) + ", scope: "@ + json(kind_name(c.scope)) + (match c.sheet {
        Some(s) => ", sheet: "@ + json(s@),
        None => seq![],
    }) + (match c.layer {
        Some(l) => ", layer: "@ + json(l@),
        None => seq![],
    })
}

/// What a change says: its kind, reference and detail.
pub open spec fn change_says(c: Change) -> Seq<char> {
    ", kind: "@ + json(change_kind_name(c.kind)) + ", ref: "@ + json(c.reference@) + ", detail: "@ + json(c.detail@)
}

/// A change's locations, when set.
pub open spec fn change_marks(c: Change) -> Seq<char> {
    (match c.frac_base {
        Some(f) => ", fb: "@ + frac_text(f),
        None => seq![],
    }) + (match c.frac_head {
        Some(f) => ", fh: "@ + frac_text(f),
        None => seq![],
    })
}

/// The data line of a change.
pub open spec fn change_line(c: Change) -> Seq<char> {
    change_place(c) + change_says(c) + change_marks(c) + " },\n"@
}

/// The page lines, in order.
pub open spec fn page_lines(pages: Seq<Page>) -> Seq<char>
    decreases pages.len(),
{
    if pages.len() == 0 {
        seq![]
    } else {
        page_lines(pages.drop_last()) + page_line(pages.last())
    }
}

/// The change lines, in order.
pub open spec fn change_lines(cs: Seq<Change>) -> Seq<char>
    decreases cs.len(),
{
    if cs.len() == 0 {
        seq![]
    } else {
        change_lines(cs.drop_last()) + change_line(cs.last())
    }
}

/// The data file consumed by the viewer: an `entries` array of pages and a
/// `changes` array of semantic rows.
pub open spec fn entries_text(pages: Seq<Page>, cs: Seq<Change>) -> Seq<char> {
    "const entries = [\n"@ + page_lines(pages) + "];\n"@ + "const changes = [\n"@ + change_lines(cs) + "];\n"@
}

/// A ratio's denominator is positive.
pub open spec fn ratio_ok(r: Ratio) -> bool {
    r.den > 0
}

/// A change's locations have positive denominators.
pub open spec fn fracs_ok(c: Change) -> bool {
    (c.frac_base matches Some(f) ==> ratio_ok(f.x) && ratio_ok(f.y)) && (c.frac_head matches Some(f) ==> ratio_ok(
        f.x,
    ) && ratio_ok(f.y))
}

/// Four decimal digits of a value below ten thousand.
fn push_four_digits(out: &mut Vec<char>, v: u64)
    requires
        v < 10000,
    ensures
        final(out)@ == old(out)@ + four_digits(v as nat),
{
    let ghost start = out@;
    out.push(crate::text::digit(v / 1000));
    out.push(crate::text::digit((v / 100) % 10));
    out.push(crate::text::digit((v / 10) % 10));
    out.push(crate::text::digit(v % 10));
    assert(out@ =~= start + four_digits(v as nat));
}

/// Appends a ratio as a decimal with four places.
fn push_fixed4(out: &mut Vec<char>, r: Ratio)
    requires
        ratio_ok(r),
    ensures
        final(out)@ == old(out)@ + fixed4(r),
{
    let ghost start = out@;
    let a: u128 = if r.num < 0 {
        (0 - (r.num as i128)) as u128
    } else {
        r.num as u128
    };
    let d: u128 = r.den as u128;
    let q: u128 = (20000 * a + d) / (2 * d);
    assert(q <= 10000 * a + 1) by (nonlinear_arith)
        requires
            q == (20000 * a + d) / (2 * d),
            d >= 1,
            a >= 0,
    ;
    if r.num < 0 {
        out.push('-');
    }
    let ghost sign = out@;
    push_chars(out, &decimal_chars((q / 10000) as u64));
    out.push('.');
    push_four_digits(out, (q % 10000) as u64);
    proof {
        reveal_strlit("-");
        reveal_strlit(".");
        assert(out@ =~= start + fixed4(r));
    }
}

/// Appends a location as a JSON pair of decimals.
fn push_frac(out: &mut Vec<char>, f: Frac)
    requires
        ratio_ok(f.x),
        ratio_ok(f.y),
    ensures
        final(out)@ == old(out)@ + frac_text(f),
{
    let ghost start = out@;
    push_str(out, "[");
    push_fixed4(out, f.x);
    push_str(out, ", ");
    push_fixed4(out, f.y);
    push_str(out, "]");
    assert(out@ =~= start + frac_text(f));
}

/// Appends the fixed fields of a page's data line.
fn push_page_fields(out: &mut Vec<char>, p: &Page)
    ensures
        final(out)@ == old(out)@ + page_fields(*p),
{
    let ghost start = out@;
    push_str(out, "  { project: ");
    push_json(out, p.project.as_str());
    push_str(out, ", kind: ");
    push_json(out, p.kind.as_str());
    push_str(out, ", name: ");
    push_json(out, p.name.as_str());
    push_str(out, ", path: ");
    push_json(out, p.rel.as_str());
    push_str(out, ", status: ");
    push_json(out, p.status.as_str());
    assert(out@ =~= start + page_fields(*p));
}

/// Appends the optional fields of a page's data line.
fn push_page_options(out: &mut Vec<char>, p: &Page)
    ensures
        final(out)@ == old(out)@ + page_options(*p),
{
    let ghost start = out@;
    if let Some(e) = &p.edge_base {
        push_str(out, ", edgeBase: ");
        push_json(out, e.as_str());
    }
    let ghost with_base = out@;
    if let Some(e) = &p.edge_head {
        push_str(out, ", edgeHead: ");
        push_json(out, e.as_str());
    }
    let ghost with_head = out@;
    if let Some(n) = p.parts {
        push_str(out, ", parts: ");
        push_chars(out, &decimal_chars(n as u64));
    }
    proof {
        assert(with_base =~= start + match p.edge_base {
            Some(e) => ", edgeBase: "@ + json(e@),
            None => seq![],
        });
        assert(with_head =~= with_base + match p.edge_head {
            Some(e) => ", edgeHead: "@ + json(e@),
            None => seq![],
        });
        assert(out@ =~= with_head + match p.parts {
            Some(n) => ", parts: "@ + decimal(n as nat),
            None => seq![],
        });
        assert(out@ =~= start + page_options(*p));
    }
}

/// Appends the data line of a page.
fn push_page_line(out: &mut Vec<char>, p: &Page)
    ensures
        final(out)@ == old(out)@ + page_line(*p),
{
    let ghost start = out@;
    push_page_fields(out, p);
    push_page_options(out, p);
    push_str(out, " },\n");
    assert(out@ =~= start + page_line(*p));
}

/// Appends where a change sits.
fn push_change_place(out: &mut Vec<char>, c: &Change)
    ensures
        final(out)@ == old(out)@ + change_place(*c),
{
    let ghost start = out@;
    push_str(out, "  { project: ");
    push_json(out, c.project.as_str());
    push_str(out, ", scope: ");
    push_json(out, c.scope.as_str());
    let ghost s0 = out@;
    if let Some(s) = &c.sheet {
        push_str(out, ", sheet: ");
        push_json(out, s.as_str());
    }
    let ghost s1 = out@;
    if let Some(l) = &c.layer {
        push_str(out, ", layer: ");
        push_json(out, l.as_str());
    }
    proof {
        assert(s1 =~= s0 + match c.sheet {
            Some(s) => ", sheet: "@ + json(s@),
            None => seq![],
        });
        assert(out@ =~= s1 + match c.layer {
            Some(l) => ", layer: "@ + json(l@),
            None => seq![],
        });
        assert(out@ =~= start + change_place(*c));
    }
}

/// Appends what a change says.
fn push_change_says(out: &mut Vec<char>, c: &Change)
    ensures
        final(out)@ == old(out)@ + change_says(*c),
{
    let ghost start = out@;
    push_str(out, ", kind: ");
    push_json(out, c.kind.as_str());
    push_str(out, ", ref: ");
    push_json(out, c.reference.as_str());
    push_str(out, ", detail: ");
    push_json(out, c.detail.as_str());
    assert(out@ =~= start + change_says(*c));
}

/// Appends a change's locations.
fn push_change_marks(out: &mut Vec<char>, c: &Change)
    requires
        fracs_ok(*c),
    ensures
        final(out)@ == old(out)@ + change_marks(*c),
{
    let ghost start = out@;
    if let Some(f) = c.frac_base {
        push_str(out, ", fb: ");
        push_frac(out, f);
    }
    let ghost s1 = out@;
    if let Some(f) = c.frac_head {
        push_str(out, ", fh: ");
        push_frac(out, f);
    }
    proof {
        assert(s1 =~= start + match c.frac_base {
            Some(f) => ", fb: "@ + frac_text(f),
            None => seq![],
        });
        assert(out@ =~= s1 + match c.frac_head {
            Some(f) => ", fh: "@ + frac_text(f),
            None => seq![],
        });
        assert(out@ =~= start + change_marks(*c));
    }
}

/// Appends the data line of a change.
fn push_change_line(out: &mut Vec<char>, c: &Change)
    requires
        fracs_ok(*c),
    ensures
        final(out)@ == old(out)@ + change_line(*c),
{
    let ghost start = out@;
    push_change_place(out, c);
    push_change_says(out, c);
    push_change_marks(out, c);
    push_str(out, " },\n");
    assert(out@ =~= start + change_line(*c));
}

/// The data file consumed by the viewer: an `entries` array of pages and
/// a `changes` array of semantic rows, one line each. The key names are
/// the contract with the viewer.
pub fn render_entries(pages: &Vec<Page>, changes: &Vec<Change>) -> (r: String)
    requires
        forall|i: int| 0 <= i < changes.len() ==> fracs_ok(#[trigger] changes@[i]),
    ensures
        r@ == entries_text(pages@, changes@),
{
    let mut out = chars_of("const entries = [\n");
    let ghost head = out@;
    let mut i: usize = 0;
    while i < pages.len()
        invariant
            i <= pages.len(),
            out@ == head + page_lines(pages@.take(i as int)),
        decreases pages.len() - i,
    {
        proof {
            assert(pages@.take(i + 1).drop_last() == pages@.take(i as int));
            assert(pages@.take(i + 1).last() == pages@[i as int]);
        }
        push_page_line(&mut out, &pages[i]);
        i = i + 1;
    }
    assert(pages@.take(pages.len() as int) == pages@);
    push_str(&mut out, "];\n");
    push_str(&mut out, "const changes = [\n");
    let ghost mid = out@;
    let mut i: usize = 0;
    while i < changes.len()
        invariant
            i <= changes.len(),
            forall|k: int| 0 <= k < changes.len() ==> fracs_ok(#[trigger] changes@[k]),
            out@ == mid + change_lines(changes@.take(i as int)),
        decreases changes.len() - i,
    {
        proof {
            assert(changes@.take(i + 1).drop_last() == changes@.take(i as int));
            assert(changes@.take(i + 1).last() == changes@[i as int]);
        }
        push_change_line(&mut out, &changes[i]);
        i = i + 1;
    }
    assert(changes@.take(changes.len() as int) == changes@);
    push_str(&mut out, "];\n");
    assert(out@ =~= entries_text(pages@, changes@));
    string_of(out.as_slice())
}

} // verus!

verus! {

/// The value of a lowercase hexadecimal digit.
pub open spec fn hex_value(c: char) -> int {
    if '0' <= c && c <= '9' {
        c as int - '0' as int
    } else {
        c as int - 'a' as int + 10
    }
}

/// The text a JSON string literal's body stands for: each `\` escape
/// (`\n`, `\r`, `\t`, `\u` with four hex digits, or a backslash before
/// any other character, which stands for that character) decoded.
pub open spec fn json_unescape(t: Seq<char>) -> Seq<char>
    decreases t.len(),
{
    if t.len() == 0 {
        seq![]
    } else if t[0] == '\\' && t.len() >= 2 {
        if t[1] == 'u' && t.len() >= 6 {
            seq![(hex_value(t[2]) * 4096 + hex_value(t[3]) * 256 + hex_value(t[4]) * 16 + hex_value(t[5])) as char]
                + json_unescape(t.skip(6))
        } else {
            let c = if t[1] == 'n' {
                '\n'
            } else if t[1] == 'r' {
                '\r'
            } else if t[1] == 't' {
                '\t'
            } else {
                t[1]
            };
            seq![c] + json_unescape(t.skip(2))
        }
    } else {
        seq![t[0]] + json_unescape(t.drop_first())
    }
}

/// The escaped body of a text begins with its first character's escape.
proof fn lemma_json_body_front(s: Seq<char>)
    requires
        s.len() > 0,
    ensures
        json_body(s) == json_char(s[0]) + json_body(s.drop_first()),
    decreases s.len(),
{
    if s.len() == 1 {
        assert(s.drop_first() =~= Seq::<char>::empty());
        assert(s.drop_last() =~= Seq::<char>::empty());
        assert(json_body(s) == json_body(s.drop_last()) + json_char(s.last()));
    } else {
        lemma_json_body_front(s.drop_last());
        assert(s.drop_last()[0] == s[0]);
        assert(s.drop_last().drop_first() =~= s.drop_first().drop_last());
        assert(s.drop_first().last() == s.last());
        assert(json_body(s.drop_first()) == json_body(s.drop_first().drop_last()) + json_char(s.drop_first().last()));
        assert(json_body(s) =~= json_char(s[0]) + json_body(s.drop_first()));
    }
}

/// A hexadecimal digit reads back as its value.
proof fn lemma_hex_value(d: nat)
    requires
        d < 16,
    ensures
        hex_value(hex_char(d)) == d,
{
}

/// Decoding an escaped character followed by more text gives the
/// character, then the decoding of the rest.
proof fn lemma_unescape_char(c: char, rest: Seq<char>)
    ensures
        json_unescape(json_char(c) + rest) == seq![c] + json_unescape(rest),
{
    let t = json_char(c) + rest;
    if c == '"' || c == '\\' || c == '\n' || c == '\r' || c == '\t' {
        assert(t.skip(2) =~= rest);
    } else if (c as u32) < 0x20 {
        let v = c as u32;
        lemma_hex_value((v / 16) as nat);
        lemma_hex_value((v % 16) as nat);
        assert(t.skip(6) =~= rest);
        assert(hex_value(t[2]) == 0 && hex_value(t[3]) == 0);
        assert(hex_value(t[4]) * 16 + hex_value(t[5]) == v as int);
        assert((hex_value(t[2]) * 4096 + hex_value(t[3]) * 256 + hex_value(t[4]) * 16 + hex_value(t[5])) as char == c);
    } else {
        assert(t.drop_first() =~= rest);
    }
}

/// Escaping is lossless: reading the body of the JSON string literal back,
/// each escape decoded, gives the text again; the literal is that body
/// between two quotes.
pub proof fn law_json_escape_round_trips(s: Seq<char>)
    ensures
        json_unescape(json_body(s)) == s,
        json(s) == seq!['"'] + json_body(s) + seq!['"'],
    decreases s.len(),
{
    if s.len() > 0 {
        lemma_json_body_front(s);
        law_json_escape_round_trips(s.drop_first());
        lemma_unescape_char(s[0], json_body(s.drop_first()));
        assert(seq![s[0]] + s.drop_first() =~= s);
    }
}

/// Where an entity `e` begins at position `k` of `t`.
pub open spec fn entity_at(t: Seq<char>, k: int, e: Seq<char>) -> bool {
    k + e.len() <= t.len() && t.subrange(k, k + e.len()) == e
}

/// Escaped text holds no markup: no `<` or `>` is left in it, and every `&`
/// begins one of the three entities.
pub proof fn law_html_escape_leaves_no_markup(s: Seq<char>)
    ensures
        forall|k: int| 0 <= k < html(s).len() ==> #[trigger] html(s)[k] != '<' && html(s)[k] != '>',
        forall|k: int|
            0 <= k < html(s).len() && #[trigger] html(s)[k] == '&' ==> entity_at(html(s), k, "&amp;"@) || entity_at(
                html(s),
                k,
                "&lt;"@,
            ) || entity_at(html(s), k, "&gt;"@),
    decreases s.len(),
{
    reveal_strlit("&amp;");
    reveal_strlit("&lt;");
    reveal_strlit("&gt;");
    if s.len() > 0 {
        law_html_escape_leaves_no_markup(s.drop_last());
        let p = html(s.drop_last());
        let q = html_char(s.last());
        let h = html(s);
        assert(h == p + q);
        assert forall|k: int| 0 <= k < h.len() implies #[trigger] h[k] != '<' && h[k] != '>' by {
            if k < p.len() {
                assert(h[k] == p[k]);
            } else {
                assert(h[k] == q[k - p.len()]);
            }
        }
        assert forall|k: int| 0 <= k < h.len() && #[trigger] h[k] == '&' implies entity_at(h, k, "&amp;"@) || entity_at(
            h,
            k,
            "&lt;"@,
        ) || entity_at(h, k, "&gt;"@) by {
            if k < p.len() {
                assert(h[k] == p[k]);
                if entity_at(p, k, "&amp;"@) {
                    assert(h.subrange(k, k + 5) =~= p.subrange(k, k + 5));
                } else if entity_at(p, k, "&lt;"@) {
                    assert(h.subrange(k, k + 4) =~= p.subrange(k, k + 4));
                } else {
                    assert(h.subrange(k, k + 4) =~= p.subrange(k, k + 4));
                }
            } else {
                assert(h[k] == q[k - p.len()]);
                assert(k == p.len());
                if s.last() == '&' {
                    assert(h.subrange(k, k + 5) =~= q);
                } else if s.last() == '<' {
                    assert(h.subrange(k, k + 4) =~= q);
                } else if s.last() == '>' {
                    assert(h.subrange(k, k + 4) =~= q);
                }
            }
        }
    }
}

} // verus!
