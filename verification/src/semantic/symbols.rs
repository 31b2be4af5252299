//! What a schematic's text says of its symbols beyond what the schematic
//! parser reads: the embedded library drawings and each placed symbol's
//! per-instance references. Lengths are read in millimetres and kept in
//! nanometres.

use vstd::prelude::*;

use crate::kicad::{all_digits, digits_value, parse_i32, parse_i32_exec};
use crate::netlist::{
    field, head, headed, lemma_list_view, parse_error_text, parse_sexpr, second, second_string, sexpr_document, SExpr,
    SNode,
};
use crate::semantic::extract::SymInstance;
use crate::semantic::geometry::{fits, opt_chars, LibSymbol, SymPin, SymShape, SymUnit};
use crate::semantic::Point;
use crate::text::{find_char_from, first_index, str_eq};

verus! {

/// Ten to the power `n`.
pub open spec fn pow10(n: nat) -> int
    decreases n,
{
    if n == 0 {
        1
    } else {
        10 * pow10((n - 1) as nat)
    }
}

/// An unsigned decimal length in millimetres, in nanometres: digits with
/// an optional fraction (digits past the sixth decimal are dropped).
pub open spec fn unsigned_nm(body: Seq<char>) -> Option<int> {
    let whole = match first_index(body, '.') {
        Some(d) => body.take(d),
        None => body,
    };
    let frac = match first_index(body, '.') {
        Some(d) => body.skip(d + 1),
        None => seq![],
    };
    if all_digits(whole) && all_digits(frac) && whole.len() + frac.len() > 0 {
        let kept = if frac.len() > 6 {
            frac.take(6)
        } else {
            frac
        };
        Some(digits_value(whole) * 1000000 + digits_value(kept) * pow10((6 - kept.len()) as nat))
    } else {
        None
    }
}

/// A length written in millimetres (an optional sign, then an unsigned
/// decimal), in nanometres; none where the text is no such number or the
/// length is beyond the range of KiCAD's coordinates (an `i32` of
/// nanometres).
pub open spec fn nm_value(s: Seq<char>) -> Option<int> {
    let signed = s.len() > 0 && (s[0] == '-' || s[0] == '+');
    let body = if signed {
        s.drop_first()
    } else {
        s
    };
    match unsigned_nm(body) {
        Some(v) => {
            let w = if signed && s[0] == '-' {
                -v
            } else {
                v
            };
            if fits(w) {
                Some(w)
            } else {
                None
            }
        },
        None => None,
    }
}

/// A digit string's value grows by a digit.
proof fn lemma_digits_push(s: Seq<char>, c: char)
    ensures
        digits_value(s.push(c)) == digits_value(s) * 10 + (c as int - '0' as int),
{
    assert(s.push(c).drop_last() =~= s);
}

/// Digit strings have a non-negative value.
proof fn lemma_digits_nonneg(s: Seq<char>)
    requires
        all_digits(s),
    ensures
        digits_value(s) >= 0,
    decreases s.len(),
{
    if s.len() > 0 {
        assert(all_digits(s.drop_last())) by {
            assert forall|k: int| 0 <= k < s.drop_last().len() implies '0' <= #[trigger] s.drop_last()[k] && s.drop_last()[k]
                <= '9' by {
                assert(s.drop_last()[k] == s[k]);
            }
        }
        lemma_digits_nonneg(s.drop_last());
        assert('0' <= s[s.len() - 1]);
    }
}

/// The digits `v[from..to]` with their value, when they are all digits and
/// the value stays within `cap`; `None` otherwise (not digits, or larger).
fn digits_upto(v: &Vec<char>, from: usize, to: usize, cap: u64) -> (r: Option<u64>)
    requires
        from <= to <= v.len(),
        cap <= 0xffff_ffff,
    ensures
        match r {
            Some(n) => all_digits(v@.subrange(from as int, to as int)) && n as int == digits_value(
                v@.subrange(from as int, to as int),
            ) && n <= cap,
            None => !all_digits(v@.subrange(from as int, to as int)) || digits_value(
                v@.subrange(from as int, to as int),
            ) > cap,
        },
{
    let mut acc: u64 = 0;
    let mut i: usize = from;
    assert(v@.subrange(from as int, from as int) =~= Seq::<char>::empty());
    while i < to
        invariant
            from <= i <= to <= v.len(),
            cap <= 0xffff_ffff,
            all_digits(v@.subrange(from as int, i as int)),
            acc as int == digits_value(v@.subrange(from as int, i as int)),
            acc <= cap,
        decreases to - i,
    {
        let c = v[i];
        let ghost pre = v@.subrange(from as int, i as int);
        let ghost next = v@.subrange(from as int, i as int + 1);
        assert(next =~= pre.push(c));
        if !('0' <= c && c <= '9') {
            proof {
                assert(next[i - from] == c);
                lemma_not_digits_extends(v@, from as int, i as int + 1, to as int);
            }
            return None;
        }
        proof {
            lemma_digits_push(pre, c);
            assert(all_digits(next)) by {
                assert forall|k: int| 0 <= k < next.len() implies '0' <= #[trigger] next[k] && next[k] <= '9' by {
                    if k < pre.len() {
                        assert(next[k] == pre[k]);
                    }
                }
            }
        }
        let d = (c as u32 - '0' as u32) as u64;
        acc = acc * 10 + d;
        if acc > cap {
            proof {
                lemma_digits_nonneg(next);
                if all_digits(v@.subrange(from as int, to as int)) {
                    lemma_digits_grow(v@, from as int, i as int + 1, to as int);
                }
            }
            return None;
        }
        i = i + 1;
    }
    Some(acc)
}

/// A run with a non-digit in its prefix is not all digits.
proof fn lemma_not_digits_extends(v: Seq<char>, from: int, mid: int, to: int)
    requires
        0 <= from < mid <= to <= v.len(),
        !('0' <= v[mid - 1] && v[mid - 1] <= '9'),
    ensures
        !all_digits(v.subrange(from, to)),
{
    assert(v.subrange(from, to)[mid - 1 - from] == v[mid - 1]);
}

/// Extending an all-digit run that is all digits never lowers its value.
proof fn lemma_digits_grow(v: Seq<char>, from: int, mid: int, to: int)
    requires
        0 <= from <= mid <= to <= v.len(),
        all_digits(v.subrange(from, to)),
    ensures
        digits_value(v.subrange(from, mid)) <= digits_value(v.subrange(from, to)),
    decreases to - mid,
{
    if mid < to {
        let s = v.subrange(from, to);
        assert(all_digits(v.subrange(from, mid + 1))) by {
            assert forall|k: int| 0 <= k < mid + 1 - from implies '0' <= #[trigger] v.subrange(from, mid + 1)[k]
                && v.subrange(from, mid + 1)[k] <= '9' by {
                assert(v.subrange(from, mid + 1)[k] == s[k]);
            }
        }
        assert(all_digits(v.subrange(from, mid))) by {
            assert forall|k: int| 0 <= k < mid - from implies '0' <= #[trigger] v.subrange(from, mid)[k]
                && v.subrange(from, mid)[k] <= '9' by {
                assert(v.subrange(from, mid)[k] == s[k]);
            }
        }
        lemma_digits_grow(v, from, mid + 1, to);
        assert(v.subrange(from, mid + 1) =~= v.subrange(from, mid).push(v[mid]));
        lemma_digits_push(v.subrange(from, mid), v[mid]);
        lemma_digits_nonneg(v.subrange(from, mid));
        assert(s[mid - from] == v[mid]);
    }
}

/// Whether `v[from..to]` is all digits.
fn all_digits_in(v: &Vec<char>, from: usize, to: usize) -> (r: bool)
    requires
        from <= to <= v.len(),
    ensures
        r == all_digits(v@.subrange(from as int, to as int)),
{
    let mut i = from;
    while i < to
        invariant
            from <= i <= to <= v.len(),
            forall|k: int| from <= k < i ==> '0' <= #[trigger] v@[k] && v@[k] <= '9',
        decreases to - i,
    {
        if !('0' <= v[i] && v[i] <= '9') {
            proof {
                assert(v@.subrange(from as int, to as int)[i - from] == v@[i as int]);
            }
            return false;
        }
        i = i + 1;
    }
    assert forall|k: int| 0 <= k < to - from implies '0' <= #[trigger] v@.subrange(from as int, to as int)[k]
        && v@.subrange(from as int, to as int)[k] <= '9' by {
        assert(v@.subrange(from as int, to as int)[k] == v@[from + k]);
    }
    true
}

/// Ten to a small power.
fn pow10_exec(n: u64) -> (r: u64)
    requires
        n <= 6,
    ensures
        r as int == pow10(n as nat),
        r <= 1000000,
{
    proof {
        reveal_with_fuel(pow10, 7);
    }
    if n == 0 {
        1
    } else if n == 1 {
        10
    } else if n == 2 {
        100
    } else if n == 3 {
        1000
    } else if n == 4 {
        10000
    } else if n == 5 {
        100000
    } else {
        1000000
    }
}

/// Ten to a power of at most six is between one and a million.
proof fn lemma_pow10_small(n: nat)
    requires
        n <= 6,
    ensures
        1 <= pow10(n) <= 1000000,
{
    reveal_with_fuel(pow10, 7);
}

/// The unsigned length `v[start..]`, when it is one and at most the
/// magnitude of an `i32` (in nanometres).
#[verifier::spinoff_prover]
#[verifier::rlimit(30)]
fn unsigned_nm_of(v: &Vec<char>, start: usize) -> (r: Option<u64>)
    requires
        start <= v.len(),
    ensures
        match r {
            Some(m) => unsigned_nm(v@.skip(start as int)) == Some(m as int),
            None => unsigned_nm(v@.skip(start as int)) is None || unsigned_nm(v@.skip(start as int))->0
                > 2147483648,
        },
{
    let ghost body = v@.skip(start as int);
    let dot = find_char_from(&v, '.', start);
    proof {
        crate::text::lemma_find_from(v@, '.', start as int, match dot {
            Some(i) => Some(i as int),
            None => None,
        });
    }
    let whole_end: usize = match dot {
        Some(d) => d,
        None => v.len(),
    };
    let frac_start: usize = match dot {
        Some(d) => d + 1,
        None => v.len(),
    };
    let ghost whole = v@.subrange(start as int, whole_end as int);
    let ghost frac = v@.subrange(frac_start as int, v.len() as int);
    assert(whole =~= match first_index(body, '.') {
        Some(d) => body.take(d),
        None => body,
    });
    assert(frac =~= match first_index(body, '.') {
        Some(d) => body.skip(d + 1),
        None => Seq::<char>::empty(),
    });
    if whole_end - start + (v.len() - frac_start) == 0 {
        return None;
    }
    let kept_end: usize = if v.len() - frac_start > 6 {
        frac_start + 6
    } else {
        v.len()
    };
    let ghost kept = v@.subrange(frac_start as int, kept_end as int);
    let ghost rest = v@.subrange(kept_end as int, v.len() as int);
    assert(kept =~= if frac.len() > 6 {
        frac.take(6)
    } else {
        frac
    });
    assert(frac =~= kept + rest);
    proof {
        lemma_pow10_small((6 - kept.len()) as nat);
        lemma_all_digits_split(kept, rest);
        if all_digits(kept) {
            lemma_digits_nonneg(kept);
            lemma_digits_below(kept);
            lemma_pow10_small(kept.len());
        }
    }
    let f = match digits_upto(&v, frac_start, kept_end, 1000000) {
        Some(f) => f,
        None => {
            return None;
        },
    };
    if !all_digits_in(&v, kept_end, v.len()) {
        return None;
    }
    let w = match digits_upto(&v, start, whole_end, 2148) {
        Some(w) => w,
        None => {
            proof {
                if all_digits(whole) {
                    let p = pow10((6 - kept.len()) as nat);
                    assert(digits_value(kept) * p >= 0) by (nonlinear_arith)
                        requires
                            digits_value(kept) >= 0,
                            p >= 1,
                    ;
                }
            }
            return None;
        },
    };
    let scale = pow10_exec((6 - (kept_end - frac_start)) as u64);
    assert(f * scale <= 1000000 * 1000000) by (nonlinear_arith)
        requires
            f <= 1000000,
            scale <= 1000000,
    ;
    Some(w * 1000000 + f * scale)
}

/// A concatenation is all digits exactly when both parts are.
proof fn lemma_all_digits_split(a: Seq<char>, b: Seq<char>)
    ensures
        all_digits(a + b) == (all_digits(a) && all_digits(b)),
{
    let ab = a + b;
    if all_digits(ab) {
        assert forall|k: int| 0 <= k < a.len() implies '0' <= #[trigger] a[k] && a[k] <= '9' by {
            assert(ab[k] == a[k]);
        }
        assert forall|k: int| 0 <= k < b.len() implies '0' <= #[trigger] b[k] && b[k] <= '9' by {
            assert(ab[k + a.len()] == b[k]);
        }
    }
    if all_digits(a) && all_digits(b) {
        assert forall|k: int| 0 <= k < ab.len() implies '0' <= #[trigger] ab[k] && ab[k] <= '9' by {
            if k < a.len() {
                assert(ab[k] == a[k]);
            } else {
                assert(ab[k] == b[k - a.len()]);
            }
        }
    }
}

/// A length in millimetres, read into nanometres.
pub fn nm_of(s: &str) -> (r: Option<i32>)
    ensures
        match r {
            Some(n) => nm_value(s@) == Some(n as int),
            None => nm_value(s@) is None,
        },
{
    let v = crate::text::chars_of(s);
    nm_of_chars(&v)
}

/// A length in millimetres, given as characters, read into nanometres.
pub fn nm_of_chars(v: &Vec<char>) -> (r: Option<i32>)
    ensures
        match r {
            Some(n) => nm_value(v@) == Some(n as int),
            None => nm_value(v@) is None,
        },
{
    let signed = v.len() > 0 && (v[0] == '-' || v[0] == '+');
    let neg = signed && v[0] == '-';
    let start: usize = if signed {
        1
    } else {
        0
    };
    assert(v@.skip(start as int) =~= if signed {
        v@.drop_first()
    } else {
        v@
    });
    let mag = match unsigned_nm_of(&v, start) {
        Some(m) => m,
        None => return None,
    };
    if mag > 2147483648 {
        return None;
    }
    let val: i64 = if neg {
        0 - mag as i64
    } else {
        mag as i64
    };
    if val > i32::MAX as i64 {
        return None;
    }
    Some(val as i32)
}

/// A run of at most six digits is below a million.
proof fn lemma_digits_below(s: Seq<char>)
    requires
        all_digits(s),
        s.len() <= 6,
    ensures
        digits_value(s) < pow10(s.len()),
    decreases s.len(),
{
    if s.len() > 0 {
        assert(all_digits(s.drop_last())) by {
            assert forall|k: int| 0 <= k < s.drop_last().len() implies '0' <= #[trigger] s.drop_last()[k] && s.drop_last()[k]
                <= '9' by {
                assert(s.drop_last()[k] == s[k]);
            }
        }
        lemma_digits_below(s.drop_last());
        assert('0' <= s[s.len() - 1] <= '9');
    }
}


/// The items of a list (none for an atom).
pub open spec fn items_of(e: SExpr) -> Seq<SExpr> {
    match e {
        SExpr::List(items) => items,
        _ => seq![],
    }
}

/// The items of a list from position `k` on.
pub open spec fn items_from(e: SExpr, k: int) -> Seq<SExpr> {
    if 0 <= k <= items_of(e).len() {
        items_of(e).skip(k)
    } else {
        seq![]
    }
}

/// The text of an atom.
pub open spec fn atom_text(e: SExpr) -> Option<Seq<char>> {
    match e {
        SExpr::Symbol(s) => Some(s),
        SExpr::Quoted(s) => Some(s),
        SExpr::List(_) => None,
    }
}

/// The length the item at position `k` of a list gives.
pub open spec fn length_at(e: SExpr, k: int) -> Option<int> {
    if 0 <= k < items_of(e).len() {
        match atom_text(items_of(e)[k]) {
            Some(t) => nm_value(t),
            None => None,
        }
    } else {
        None
    }
}

/// The point a `(key x y ..)` list gives.
pub open spec fn point_of(e: SExpr) -> Option<Point> {
    match (length_at(e, 1), length_at(e, 2)) {
        (Some(x), Some(y)) => Some(Point { x: x as i32, y: y as i32 }),
        _ => None,
    }
}

/// The last of `items` headed by `a` or `b`.
pub open spec fn last_headed(items: Seq<SExpr>, a: Seq<char>, b: Seq<char>) -> Option<SExpr>
    decreases items.len(),
{
    if items.len() == 0 {
        None
    } else if head(items.last()) == Some(a) || head(items.last()) == Some(b) {
        Some(items.last())
    } else {
        last_headed(items.drop_last(), a, b)
    }
}

/// The point the last field headed by `a` or `b` gives.
pub open spec fn point_field(items: Seq<SExpr>, a: Seq<char>, b: Seq<char>) -> Option<Point> {
    match last_headed(items, a, b) {
        Some(e) => point_of(e),
        None => None,
    }
}

/// The items of `items` headed by `key`.
pub open spec fn with_head(items: Seq<SExpr>, key: Seq<char>) -> Seq<SExpr>
    decreases items.len(),
{
    if items.len() == 0 {
        seq![]
    } else if head(items.last()) == Some(key) {
        with_head(items.drop_last(), key).push(items.last())
    } else {
        with_head(items.drop_last(), key)
    }
}

/// A pin is hidden by a bare `hide` or a `(hide ..)` among its fields.
pub open spec fn pin_hidden(items: Seq<SExpr>) -> bool {
    exists|i: int|
        0 <= i < items.len() && (head(#[trigger] items[i]) == Some("hide"@) || items[i] == SExpr::Symbol(
            "hide"@,
        ))
}

/// `p` is what a `(pin type style ..)` expression says: its number, its
/// position and whether it is hidden.
pub open spec fn pin_read(p: SymPin, e: SExpr) -> bool {
    let c = items_from(e, 3);
    &&& opt_chars(p.number) == field(c, "number"@)
    &&& p.at == point_field(c, "at"@, "at"@)
    &&& p.hidden == pin_hidden(c)
}

/// The drawing kinds a symbol body is made of.
pub open spec fn graphic_token(t: Seq<char>) -> bool {
    t == "polyline"@ || t == "rectangle"@ || t == "circle"@ || t == "arc"@ || t == "text"@
}

/// Whether an expression is a body graphic.
pub open spec fn is_graphic(e: SExpr) -> bool {
    head(e) is Some && graphic_token(head(e)->0)
}

/// The body graphics among `items`.
pub open spec fn graphics_in(items: Seq<SExpr>) -> Seq<SExpr>
    decreases items.len(),
{
    if items.len() == 0 {
        seq![]
    } else if is_graphic(items.last()) {
        graphics_in(items.drop_last()).push(items.last())
    } else {
        graphics_in(items.drop_last())
    }
}

/// The `(xy x y)` points among `items`.
pub open spec fn xy_points(items: Seq<SExpr>) -> Seq<Point>
    decreases items.len(),
{
    if items.len() == 0 {
        seq![]
    } else {
        let rest = xy_points(items.drop_last());
        if head(items.last()) == Some("xy"@) && point_of(items.last()) is Some {
            rest.push(point_of(items.last())->0)
        } else {
            rest
        }
    }
}

/// The points of the last `(pts ..)` field.
pub open spec fn pts_of(items: Seq<SExpr>) -> Seq<Point> {
    match last_headed(items, "pts"@, "pts"@) {
        Some(p) => xy_points(items_from(p, 1)),
        None => seq![],
    }
}

/// A length field's value, when it is a length.
pub open spec fn length_field(items: Seq<SExpr>, key: Seq<char>) -> Option<i32> {
    match field(items, key) {
        Some(t) => match nm_value(t) {
            Some(v) => Some(v as i32),
            None => None,
        },
        None => None,
    }
}

/// `g` is what a body graphic says: a circle or not, its start, end,
/// centre (or arc midpoint), radius and point list.
pub open spec fn shape_read(g: SymShape, e: SExpr) -> bool {
    let c = items_from(e, 1);
    &&& g.circle == (head(e) == Some("circle"@))
    &&& g.start == point_field(c, "start"@, "start"@)
    &&& g.end == point_field(c, "end"@, "end"@)
    &&& g.center == point_field(c, "center"@, "mid"@)
    &&& g.radius == length_field(c, "radius"@)
    &&& g.pts@ == pts_of(c)
}

/// Each value read, by `rel`, from the expression in the same place.
pub open spec fn all_read<A>(xs: Seq<A>, es: Seq<SExpr>, rel: spec_fn(A, SExpr) -> bool) -> bool {
    xs.len() == es.len() && forall|i: int| 0 <= i < es.len() ==> rel(#[trigger] xs[i], es[i])
}

/// `pin_read` as a value.
pub open spec fn pin_rel() -> spec_fn(SymPin, SExpr) -> bool {
    |p: SymPin, e: SExpr| pin_read(p, e)
}

/// `shape_read` as a value.
pub open spec fn shape_rel() -> spec_fn(SymShape, SExpr) -> bool {
    |g: SymShape, e: SExpr| shape_read(g, e)
}

/// Each pin read from the matching expression.
pub open spec fn pins_read(ps: Seq<SymPin>, es: Seq<SExpr>) -> bool {
    all_read(ps, es, pin_rel())
}

/// Each graphic read from the matching expression.
pub open spec fn shapes_read(gs: Seq<SymShape>, es: Seq<SExpr>) -> bool {
    all_read(gs, es, shape_rel())
}

/// `u` is what a sub-symbol `(symbol "NAME_1_1" ..)` says.
pub open spec fn unit_read(u: SymUnit, e: SExpr) -> bool {
    let c = items_from(e, 2);
    &&& opt_chars(u.name) == second(e)
    &&& pins_read(u.pins@, with_head(c, "pin"@))
    &&& shapes_read(u.shapes@, graphics_in(c))
}

/// `unit_read` as a value.
pub open spec fn unit_rel() -> spec_fn(SymUnit, SExpr) -> bool {
    |u: SymUnit, e: SExpr| unit_read(u, e)
}

/// Each sub-symbol read from the matching expression.
pub open spec fn units_read(us: Seq<SymUnit>, es: Seq<SExpr>) -> bool {
    all_read(us, es, unit_rel())
}

/// `s` is what a library symbol `(symbol "Lib:Name" ..)` says.
pub open spec fn symbol_read(s: LibSymbol, e: SExpr) -> bool {
    let c = items_from(e, 2);
    &&& opt_chars(s.name) == second(e)
    &&& opt_chars(s.extends) == field(c, "extends"@)
    &&& pins_read(s.pins@, with_head(c, "pin"@))
    &&& shapes_read(s.shapes@, graphics_in(c))
    &&& units_read(s.units@, with_head(c, "symbol"@))
}

/// The items of the root list of a parsed document (the list of its
/// top-level expressions), after the root's head.
pub open spec fn root_items(doc: SExpr) -> Seq<SExpr> {
    if items_of(doc).len() > 0 {
        items_from(items_of(doc)[0], 1)
    } else {
        seq![]
    }
}

/// The symbols of the given `(lib_symbols ..)` sections, in order.
pub open spec fn section_symbols(secs: Seq<SExpr>) -> Seq<SExpr>
    decreases secs.len(),
{
    if secs.len() == 0 {
        seq![]
    } else {
        section_symbols(secs.drop_last()) + with_head(items_from(secs.last(), 1), "symbol"@)
    }
}

/// The library symbols embedded in a schematic document.
pub open spec fn library_nodes(doc: SExpr) -> Seq<SExpr> {
    section_symbols(with_head(root_items(doc), "lib_symbols"@))
}

/// `symbol_read` as a value.
pub open spec fn symbol_rel() -> spec_fn(LibSymbol, SExpr) -> bool {
    |l: LibSymbol, e: SExpr| symbol_read(l, e)
}

/// Each library symbol read from the matching expression.
pub open spec fn library_read(ls: Seq<LibSymbol>, es: Seq<SExpr>) -> bool {
    all_read(ls, es, symbol_rel())
}

/// A unit field's value, when it is an `i32`.
pub open spec fn unit_field_value(t: Option<Seq<char>>) -> Option<i32> {
    match t {
        Some(t) => match parse_i32(t) {
            Some(v) => Some(v as i32),
            None => None,
        },
        None => None,
    }
}

/// `i` is what an instance entry `(path "/.." (reference ..) (unit ..))`
/// says.
pub open spec fn instance_read(i: SymInstance, e: SExpr) -> bool {
    let c = items_from(e, 2);
    &&& opt_chars(i.path) == second(e)
    &&& opt_chars(i.reference) == field(c, "reference"@)
    &&& i.unit == unit_field_value(field(c, "unit"@))
}

/// The `(path ..)` entries under the given lists, in order.
pub open spec fn paths_under(lists: Seq<SExpr>) -> Seq<SExpr>
    decreases lists.len(),
{
    if lists.len() == 0 {
        seq![]
    } else {
        paths_under(lists.drop_last()) + with_head(items_from(lists.last(), 1), "path"@)
    }
}

/// The `(project ..)` entries under the given lists, in order.
pub open spec fn projects_under(lists: Seq<SExpr>) -> Seq<SExpr>
    decreases lists.len(),
{
    if lists.len() == 0 {
        seq![]
    } else {
        projects_under(lists.drop_last()) + with_head(items_from(lists.last(), 1), "project"@)
    }
}

/// The instance entries of a placed symbol: every `(path ..)` of every
/// `(project ..)` of its `(instances ..)` blocks.
pub open spec fn instance_nodes(e: SExpr) -> Seq<SExpr> {
    paths_under(projects_under(with_head(items_from(e, 1), "instances"@)))
}

/// `instance_read` as a value.
pub open spec fn instance_rel() -> spec_fn(SymInstance, SExpr) -> bool {
    |i: SymInstance, e: SExpr| instance_read(i, e)
}

/// Each instance entry read from the matching expression.
pub open spec fn instances_read(is: Seq<SymInstance>, es: Seq<SExpr>) -> bool {
    all_read(is, es, instance_rel())
}

/// `t` holds, for each placed symbol with a UUID in `syms`, in order, its
/// UUID and its instance entries.
pub open spec fn instance_table_read(t: Seq<(String, Vec<SymInstance>)>, syms: Seq<SExpr>) -> bool
    decreases syms.len(),
{
    if syms.len() == 0 {
        t.len() == 0
    } else {
        let e = syms.last();
        match field(items_from(e, 1), "uuid"@) {
            Some(u) => {
                &&& t.len() > 0
                &&& t.last().0@ == u
                &&& instances_read(t.last().1@, instance_nodes(e))
                &&& instance_table_read(t.drop_last(), syms.drop_last())
            },
            None => instance_table_read(t, syms.drop_last()),
        }
    }
}

/// The placed symbols of a schematic document.
pub open spec fn placed_nodes(doc: SExpr) -> Seq<SExpr> {
    with_head(root_items(doc), "symbol"@)
}


/// A value read from one more expression keeps the reading.
proof fn lemma_all_read_push<A>(xs: Seq<A>, es: Seq<SExpr>, rel: spec_fn(A, SExpr) -> bool, x: A, e: SExpr)
    requires
        all_read(xs, es, rel),
        rel(x, e),
    ensures
        all_read(xs.push(x), es.push(e), rel),
{
    assert forall|i: int| 0 <= i < es.push(e).len() implies rel(#[trigger] xs.push(x)[i], es.push(e)[i]) by {
        if i < es.len() {
            assert(xs.push(x)[i] == xs[i]);
            assert(es.push(e)[i] == es[i]);
        }
    }
}

/// The views of a list's items.
pub open spec fn vs(items: Seq<SNode>) -> Seq<SExpr> {
    items.map_values(|n: SNode| n@)
}

/// The items of a list node.
fn list_of(n: &SNode) -> (r: Option<&Vec<SNode>>)
    ensures
        match r {
            Some(v) => n@ == SExpr::List(vs(v@)),
            None => items_of(n@) == Seq::<SExpr>::empty() && head(n@) is None && second(n@) is None,
        },
{
    match n {
        SNode::List(v) => {
            proof {
                lemma_list_view(*v);
            }
            Some(v)
        },
        _ => {
            proof {
                reveal_with_fuel(crate::netlist::sexpr_of, 1);
            }
            None
        },
    }
}

/// The items of a list node from position `k` on.
proof fn lemma_items_from(v: Seq<SNode>, n: SNode, k: int)
    requires
        n@ == SExpr::List(vs(v)),
        0 <= k <= v.len(),
    ensures
        items_from(n@, k) == vs(v).skip(k),
{
}

/// Stepping a run of items by one.
proof fn lemma_step(v: Seq<SNode>, from: int, i: int)
    requires
        0 <= from <= i < v.len(),
    ensures
        vs(v).subrange(from, i + 1).drop_last() == vs(v).subrange(from, i),
        vs(v).subrange(from, i + 1).last() == v[i]@,
{
    assert(vs(v).subrange(from, i + 1).drop_last() =~= vs(v).subrange(from, i));
}

/// A whole run of items from `from`.
proof fn lemma_run_end(v: Seq<SNode>, from: int)
    requires
        0 <= from <= v.len(),
    ensures
        vs(v).subrange(from, v.len() as int) == vs(v).skip(from),
        vs(v).subrange(from, from) == Seq::<SExpr>::empty(),
{
    assert(vs(v).subrange(from, v.len() as int) =~= vs(v).skip(from));
    assert(vs(v).subrange(from, from) =~= Seq::<SExpr>::empty());
}

/// The value of the last `(key value)` among `items[from..]`.
fn field_in(items: &Vec<SNode>, from: usize, key: &str) -> (r: Option<String>)
    requires
        from <= items.len(),
    ensures
        opt_chars(r) == field(vs(items@).skip(from as int), key@),
{
    let mut out: Option<String> = None;
    let mut i: usize = from;
    proof {
        lemma_run_end(items@, from as int);
    }
    while i < items.len()
        invariant
            from <= i <= items.len(),
            opt_chars(out) == field(vs(items@).subrange(from as int, i as int), key@),
        decreases items.len() - i,
    {
        proof {
            lemma_step(items@, from as int, i as int);
        }
        if headed(&items[i], key) {
            out = second_string(&items[i]);
        }
        i = i + 1;
    }
    proof {
        lemma_run_end(items@, from as int);
    }
    out
}

/// The last of `items[from..]` headed by `a` or `b`.
fn last_headed_in(items: &Vec<SNode>, from: usize, a: &str, b: &str) -> (r: Option<usize>)
    requires
        from <= items.len(),
    ensures
        match r {
            Some(i) => from <= i < items.len() && last_headed(vs(items@).skip(from as int), a@, b@) == Some(
                items@[i as int]@,
            ),
            None => last_headed(vs(items@).skip(from as int), a@, b@) is None,
        },
{
    let mut out: Option<usize> = None;
    let mut i: usize = from;
    proof {
        lemma_run_end(items@, from as int);
    }
    while i < items.len()
        invariant
            from <= i <= items.len(),
            match out {
                Some(k) => from <= k < i && last_headed(vs(items@).subrange(from as int, i as int), a@, b@)
                    == Some(items@[k as int]@),
                None => last_headed(vs(items@).subrange(from as int, i as int), a@, b@) is None,
            },
        decreases items.len() - i,
    {
        proof {
            lemma_step(items@, from as int, i as int);
        }
        if headed(&items[i], a) || headed(&items[i], b) {
            out = Some(i);
        }
        i = i + 1;
    }
    proof {
        lemma_run_end(items@, from as int);
    }
    out
}

/// The length an atom node gives.
fn atom_length(n: &SNode) -> (r: Option<i32>)
    ensures
        match r {
            Some(v) => match atom_text(n@) {
                Some(t) => nm_value(t) == Some(v as int),
                None => false,
            },
            None => match atom_text(n@) {
                Some(t) => nm_value(t) is None,
                None => true,
            },
        },
{
    proof {
        reveal_with_fuel(crate::netlist::sexpr_of, 1);
    }
    match n {
        SNode::Symbol(s) => nm_of(s.as_str()),
        SNode::Quoted(s) => nm_of(s.as_str()),
        SNode::List(_) => None,
    }
}

/// The point a `(key x y ..)` node gives.
fn point_of_node(n: &SNode) -> (r: Option<Point>)
    ensures
        r == point_of(n@),
{
    match list_of(n) {
        Some(v) => {
            if v.len() < 3 {
                return None;
            }
            assert(vs(v@)[1] == v@[1]@ && vs(v@)[2] == v@[2]@);
            let x = atom_length(&v[1]);
            let y = atom_length(&v[2]);
            match (x, y) {
                (Some(x), Some(y)) => Some(Point { x, y }),
                _ => None,
            }
        },
        None => None,
    }
}

/// The point the last field of `items[from..]` headed by `a` or `b` gives.
fn point_field_in(items: &Vec<SNode>, from: usize, a: &str, b: &str) -> (r: Option<Point>)
    requires
        from <= items.len(),
    ensures
        r == point_field(vs(items@).skip(from as int), a@, b@),
{
    match last_headed_in(items, from, a, b) {
        Some(i) => point_of_node(&items[i]),
        None => None,
    }
}

/// Whether `items[from..]` holds a bare `hide` or a `(hide ..)`.
fn hidden_in(items: &Vec<SNode>, from: usize) -> (r: bool)
    requires
        from <= items.len(),
    ensures
        r == pin_hidden(vs(items@).skip(from as int)),
{
    let ghost c = vs(items@).skip(from as int);
    let mut i: usize = from;
    while i < items.len()
        invariant
            from <= i <= items.len(),
            c == vs(items@).skip(from as int),
            forall|k: int|
                0 <= k < i - from ==> !(head(#[trigger] c[k]) == Some("hide"@) || c[k] == SExpr::Symbol("hide"@)),
        decreases items.len() - i,
    {
        assert(c[i - from] == items@[i as int]@);
        let bare = match &items[i] {
            SNode::Symbol(t) => str_eq(t.as_str(), "hide"),
            _ => false,
        };
        proof {
            reveal_with_fuel(crate::netlist::sexpr_of, 1);
        }
        if headed(&items[i], "hide") || bare {
            return true;
        }
        proof {
            if items@[i as int]@ == SExpr::Symbol("hide"@) {
                assert(items@[i as int] is Symbol);
            }
        }
        i = i + 1;
    }
    false
}

/// What a `(pin ..)` node says.
fn read_pin(n: &SNode) -> (r: SymPin)
    ensures
        pin_read(r, n@),
{
    match list_of(n) {
        Some(v) => {
            if v.len() < 3 {
                let r = SymPin { number: None, at: None, hidden: false };
                assert(items_from(n@, 3) =~= Seq::<SExpr>::empty());
                return r;
            }
            proof {
                lemma_items_from(v@, *n, 3);
            }
            SymPin {
                number: field_in(v, 3, "number"),
                at: point_field_in(v, 3, "at", "at"),
                hidden: hidden_in(v, 3),
            }
        },
        None => {
            let r = SymPin { number: None, at: None, hidden: false };
            assert(items_from(n@, 3) =~= Seq::<SExpr>::empty());
            r
        },
    }
}


/// The `(xy x y)` points among `items[from..]`.
fn xy_points_in(items: &Vec<SNode>, from: usize) -> (r: Vec<Point>)
    requires
        from <= items.len(),
    ensures
        r@ == xy_points(vs(items@).skip(from as int)),
{
    let mut out: Vec<Point> = Vec::new();
    let mut i: usize = from;
    proof {
        lemma_run_end(items@, from as int);
    }
    while i < items.len()
        invariant
            from <= i <= items.len(),
            out@ == xy_points(vs(items@).subrange(from as int, i as int)),
        decreases items.len() - i,
    {
        proof {
            lemma_step(items@, from as int, i as int);
        }
        if headed(&items[i], "xy") {
            match point_of_node(&items[i]) {
                Some(p) => out.push(p),
                None => {},
            }
        }
        i = i + 1;
    }
    proof {
        lemma_run_end(items@, from as int);
    }
    out
}

/// The points of the last `(pts ..)` field of `items[from..]`.
fn pts_in(items: &Vec<SNode>, from: usize) -> (r: Vec<Point>)
    requires
        from <= items.len(),
    ensures
        r@ == pts_of(vs(items@).skip(from as int)),
{
    match last_headed_in(items, from, "pts", "pts") {
        Some(k) => match list_of(&items[k]) {
            Some(v) => {
                if v.len() == 0 {
                    assert(items_from(items@[k as int]@, 1) =~= Seq::<SExpr>::empty());
                    return Vec::new();
                }
                proof {
                    lemma_items_from(v@, items@[k as int], 1);
                }
                xy_points_in(v, 1)
            },
            None => {
                assert(items_from(items@[k as int]@, 1) =~= Seq::<SExpr>::empty());
                Vec::new()
            },
        },
        None => Vec::new(),
    }
}

/// The length field `key` of `items[from..]`, when it is a length.
fn length_field_in(items: &Vec<SNode>, from: usize, key: &str) -> (r: Option<i32>)
    requires
        from <= items.len(),
    ensures
        r == length_field(vs(items@).skip(from as int), key@),
{
    match field_in(items, from, key) {
        Some(t) => nm_of(t.as_str()),
        None => None,
    }
}

/// What a body graphic node says.
fn read_shape(n: &SNode) -> (r: SymShape)
    ensures
        shape_read(r, n@),
{
    let circle = headed(n, "circle");
    match list_of(n) {
        Some(v) => {
            if v.len() < 1 {
                assert(items_from(n@, 1) =~= Seq::<SExpr>::empty());
                let r = SymShape { circle, start: None, end: None, center: None, radius: None, pts: Vec::new() };
                assert(r.pts@ =~= pts_of(items_from(n@, 1)));
                return r;
            }
            proof {
                lemma_items_from(v@, *n, 1);
            }
            SymShape {
                circle,
                start: point_field_in(v, 1, "start", "start"),
                end: point_field_in(v, 1, "end", "end"),
                center: point_field_in(v, 1, "center", "mid"),
                radius: length_field_in(v, 1, "radius"),
                pts: pts_in(v, 1),
            }
        },
        None => {
            assert(items_from(n@, 1) =~= Seq::<SExpr>::empty());
            let r = SymShape { circle, start: None, end: None, center: None, radius: None, pts: Vec::new() };
            assert(r.pts@ =~= pts_of(items_from(n@, 1)));
            r
        },
    }
}

/// Whether a node is a body graphic.
fn graphic_node(n: &SNode) -> (r: bool)
    ensures
        r == is_graphic(n@),
{
    headed(n, "polyline") || headed(n, "rectangle") || headed(n, "circle") || headed(n, "arc") || headed(
        n,
        "text",
    )
}

/// The pins among `items[from..]`.
fn read_pins(items: &Vec<SNode>, from: usize) -> (r: Vec<SymPin>)
    requires
        from <= items.len(),
    ensures
        pins_read(r@, with_head(vs(items@).skip(from as int), "pin"@)),
{
    let mut out: Vec<SymPin> = Vec::new();
    let mut i: usize = from;
    proof {
        lemma_run_end(items@, from as int);
    }
    while i < items.len()
        invariant
            from <= i <= items.len(),
            pins_read(out@, with_head(vs(items@).subrange(from as int, i as int), "pin"@)),
        decreases items.len() - i,
    {
        proof {
            lemma_step(items@, from as int, i as int);
        }
        if headed(&items[i], "pin") {
            let p = read_pin(&items[i]);
            proof {
                lemma_all_read_push(
                    out@,
                    with_head(vs(items@).subrange(from as int, i as int), "pin"@),
                    pin_rel(),
                    p,
                    items@[i as int]@,
                );
            }
            out.push(p);
        }
        i = i + 1;
    }
    proof {
        lemma_run_end(items@, from as int);
    }
    out
}

/// The body graphics among `items[from..]`.
fn read_shapes(items: &Vec<SNode>, from: usize) -> (r: Vec<SymShape>)
    requires
        from <= items.len(),
    ensures
        shapes_read(r@, graphics_in(vs(items@).skip(from as int))),
{
    let mut out: Vec<SymShape> = Vec::new();
    let mut i: usize = from;
    proof {
        lemma_run_end(items@, from as int);
    }
    while i < items.len()
        invariant
            from <= i <= items.len(),
            shapes_read(out@, graphics_in(vs(items@).subrange(from as int, i as int))),
        decreases items.len() - i,
    {
        proof {
            lemma_step(items@, from as int, i as int);
        }
        if graphic_node(&items[i]) {
            let g = read_shape(&items[i]);
            proof {
                lemma_all_read_push(
                    out@,
                    graphics_in(vs(items@).subrange(from as int, i as int)),
                    shape_rel(),
                    g,
                    items@[i as int]@,
                );
            }
            out.push(g);
        }
        i = i + 1;
    }
    proof {
        lemma_run_end(items@, from as int);
    }
    out
}

/// What a sub-symbol node says.
fn read_unit(n: &SNode) -> (r: SymUnit)
    ensures
        unit_read(r, n@),
{
    let name = second_string(n);
    match list_of(n) {
        Some(v) => {
            if v.len() < 2 {
                assert(items_from(n@, 2) =~= Seq::<SExpr>::empty());
                return SymUnit { name, pins: Vec::new(), shapes: Vec::new() };
            }
            proof {
                lemma_items_from(v@, *n, 2);
            }
            SymUnit { name, pins: read_pins(v, 2), shapes: read_shapes(v, 2) }
        },
        None => {
            assert(items_from(n@, 2) =~= Seq::<SExpr>::empty());
            SymUnit { name, pins: Vec::new(), shapes: Vec::new() }
        },
    }
}

/// The sub-symbols among `items[from..]`.
fn read_units(items: &Vec<SNode>, from: usize) -> (r: Vec<SymUnit>)
    requires
        from <= items.len(),
    ensures
        units_read(r@, with_head(vs(items@).skip(from as int), "symbol"@)),
{
    let mut out: Vec<SymUnit> = Vec::new();
    let mut i: usize = from;
    proof {
        lemma_run_end(items@, from as int);
    }
    while i < items.len()
        invariant
            from <= i <= items.len(),
            units_read(out@, with_head(vs(items@).subrange(from as int, i as int), "symbol"@)),
        decreases items.len() - i,
    {
        proof {
            lemma_step(items@, from as int, i as int);
        }
        if headed(&items[i], "symbol") {
            let u = read_unit(&items[i]);
            proof {
                lemma_all_read_push(
                    out@,
                    with_head(vs(items@).subrange(from as int, i as int), "symbol"@),
                    unit_rel(),
                    u,
                    items@[i as int]@,
                );
            }
            out.push(u);
        }
        i = i + 1;
    }
    proof {
        lemma_run_end(items@, from as int);
    }
    out
}

/// What a library symbol node says.
fn read_symbol(n: &SNode) -> (r: LibSymbol)
    ensures
        symbol_read(r, n@),
{
    let name = second_string(n);
    match list_of(n) {
        Some(v) => {
            if v.len() < 2 {
                assert(items_from(n@, 2) =~= Seq::<SExpr>::empty());
                return LibSymbol { name, extends: None, pins: Vec::new(), shapes: Vec::new(), units: Vec::new() };
            }
            proof {
                lemma_items_from(v@, *n, 2);
            }
            LibSymbol {
                name,
                extends: field_in(v, 2, "extends"),
                pins: read_pins(v, 2),
                shapes: read_shapes(v, 2),
                units: read_units(v, 2),
            }
        },
        None => {
            assert(items_from(n@, 2) =~= Seq::<SExpr>::empty());
            LibSymbol { name, extends: None, pins: Vec::new(), shapes: Vec::new(), units: Vec::new() }
        },
    }
}

/// Appends the library symbols among `items[from..]`.
fn push_symbols(out: &mut Vec<LibSymbol>, items: &Vec<SNode>, from: usize, Ghost(prev): Ghost<Seq<SExpr>>)
    requires
        from <= items.len(),
        library_read(old(out)@, prev),
    ensures
        library_read(final(out)@, prev + with_head(vs(items@).skip(from as int), "symbol"@)),
{
    let mut i: usize = from;
    proof {
        lemma_run_end(items@, from as int);
        assert(prev + with_head(vs(items@).subrange(from as int, from as int), "symbol"@) =~= prev);
    }
    while i < items.len()
        invariant
            from <= i <= items.len(),
            library_read(out@, prev + with_head(vs(items@).subrange(from as int, i as int), "symbol"@)),
        decreases items.len() - i,
    {
        proof {
            lemma_step(items@, from as int, i as int);
        }
        let ghost before = prev + with_head(vs(items@).subrange(from as int, i as int), "symbol"@);
        if headed(&items[i], "symbol") {
            let l = read_symbol(&items[i]);
            proof {
                lemma_all_read_push(out@, before, symbol_rel(), l, items@[i as int]@);
                assert(before.push(items@[i as int]@) =~= prev + with_head(
                    vs(items@).subrange(from as int, i as int + 1),
                    "symbol"@,
                ));
            }
            out.push(l);
        } else {
            assert(before =~= prev + with_head(vs(items@).subrange(from as int, i as int + 1), "symbol"@));
        }
        i = i + 1;
    }
    proof {
        lemma_run_end(items@, from as int);
    }
}

/// The library symbols embedded in a parsed schematic document.
pub fn read_library(doc: &SNode) -> (r: Vec<LibSymbol>)
    ensures
        library_read(r@, library_nodes(doc@)),
{
    let mut out: Vec<LibSymbol> = Vec::new();
    let top = match list_of(doc) {
        Some(v) => v,
        None => {
            assert(library_nodes(doc@) =~= Seq::<SExpr>::empty());
            return out;
        },
    };
    if top.len() == 0 {
        assert(library_nodes(doc@) =~= Seq::<SExpr>::empty());
        return out;
    }
    assert(vs(top@)[0] == top@[0]@);
    let root = match list_of(&top[0]) {
        Some(v) => v,
        None => {
            assert(library_nodes(doc@) =~= Seq::<SExpr>::empty());
            return out;
        },
    };
    if root.len() == 0 {
        assert(root_items(doc@) =~= Seq::<SExpr>::empty());
        assert(library_nodes(doc@) =~= Seq::<SExpr>::empty());
        return out;
    }
    proof {
        lemma_items_from(root@, top@[0], 1);
    }
    let ghost all = vs(root@).skip(1);
    let mut i: usize = 1;
    proof {
        lemma_run_end(root@, 1);
        assert(section_symbols(with_head(vs(root@).subrange(1, 1), "lib_symbols"@)) =~= Seq::<SExpr>::empty());
    }
    while i < root.len()
        invariant
            1 <= i <= root.len(),
            library_read(out@, section_symbols(with_head(vs(root@).subrange(1, i as int), "lib_symbols"@))),
        decreases root.len() - i,
    {
        proof {
            lemma_step(root@, 1, i as int);
        }
        if headed(&root[i], "lib_symbols") {
            let ghost heads = with_head(vs(root@).subrange(1, i as int), "lib_symbols"@);
            let ghost prev = section_symbols(heads);
            proof {
                assert(with_head(vs(root@).subrange(1, i as int + 1), "lib_symbols"@) == heads.push(root@[i as int]@));
                assert(heads.push(root@[i as int]@).drop_last() =~= heads);
                assert(section_symbols(heads.push(root@[i as int]@)) == prev + with_head(
                    items_from(root@[i as int]@, 1),
                    "symbol"@,
                ));
            }
            match list_of(&root[i]) {
                Some(sec) => {
                    if sec.len() > 0 {
                        proof {
                            lemma_items_from(sec@, root@[i as int], 1);
                        }
                        push_symbols(&mut out, sec, 1, Ghost(prev));
                    } else {
                        assert(items_from(root@[i as int]@, 1) =~= Seq::<SExpr>::empty());
                        assert(prev + with_head(Seq::<SExpr>::empty(), "symbol"@) =~= prev);
                    }
                },
                None => {
                    assert(items_from(root@[i as int]@, 1) =~= Seq::<SExpr>::empty());
                    assert(prev + with_head(Seq::<SExpr>::empty(), "symbol"@) =~= prev);
                },
            }
        }
        i = i + 1;
    }
    proof {
        lemma_run_end(root@, 1);
    }
    out
}


/// What an instance entry node says.
fn read_instance(n: &SNode) -> (r: SymInstance)
    ensures
        instance_read(r, n@),
{
    let path = second_string(n);
    match list_of(n) {
        Some(v) => {
            if v.len() < 2 {
                assert(items_from(n@, 2) =~= Seq::<SExpr>::empty());
                return SymInstance { path, reference: None, unit: None };
            }
            proof {
                lemma_items_from(v@, *n, 2);
            }
            let reference = field_in(v, 2, "reference");
            let unit = match field_in(v, 2, "unit") {
                Some(t) => parse_i32_exec(&crate::text::chars_of(t.as_str())),
                None => None,
            };
            SymInstance { path, reference, unit }
        },
        None => {
            assert(items_from(n@, 2) =~= Seq::<SExpr>::empty());
            SymInstance { path, reference: None, unit: None }
        },
    }
}

/// Appends the instance entries among `items[from..]`.
fn push_paths(out: &mut Vec<SymInstance>, items: &Vec<SNode>, from: usize, Ghost(prev): Ghost<Seq<SExpr>>)
    requires
        from <= items.len(),
        instances_read(old(out)@, prev),
    ensures
        instances_read(final(out)@, prev + with_head(vs(items@).skip(from as int), "path"@)),
{
    let mut i: usize = from;
    proof {
        lemma_run_end(items@, from as int);
        assert(prev + with_head(vs(items@).subrange(from as int, from as int), "path"@) =~= prev);
    }
    while i < items.len()
        invariant
            from <= i <= items.len(),
            instances_read(out@, prev + with_head(vs(items@).subrange(from as int, i as int), "path"@)),
        decreases items.len() - i,
    {
        proof {
            lemma_step(items@, from as int, i as int);
        }
        let ghost before = prev + with_head(vs(items@).subrange(from as int, i as int), "path"@);
        if headed(&items[i], "path") {
            let x = read_instance(&items[i]);
            proof {
                lemma_all_read_push(out@, before, instance_rel(), x, items@[i as int]@);
                assert(before.push(items@[i as int]@) =~= prev + with_head(
                    vs(items@).subrange(from as int, i as int + 1),
                    "path"@,
                ));
            }
            out.push(x);
        } else {
            assert(before =~= prev + with_head(vs(items@).subrange(from as int, i as int + 1), "path"@));
        }
        i = i + 1;
    }
    proof {
        lemma_run_end(items@, from as int);
    }
}

/// Appends the entries under one list node's `(key ..)` children, where
/// `key` lists hold `(path ..)` entries directly.
fn push_paths_of(out: &mut Vec<SymInstance>, n: &SNode, Ghost(prev): Ghost<Seq<SExpr>>)
    requires
        instances_read(old(out)@, prev),
    ensures
        instances_read(final(out)@, prev + with_head(items_from(n@, 1), "path"@)),
{
    match list_of(n) {
        Some(v) => {
            if v.len() == 0 {
                assert(with_head(items_from(n@, 1), "path"@) =~= Seq::<SExpr>::empty());
                assert(prev + Seq::<SExpr>::empty() =~= prev);
                return;
            }
            proof {
                lemma_items_from(v@, *n, 1);
            }
            push_paths(out, v, 1, Ghost(prev));
        },
        None => {
            assert(with_head(items_from(n@, 1), "path"@) =~= Seq::<SExpr>::empty());
            assert(prev + Seq::<SExpr>::empty() =~= prev);
        },
    }
}

/// `paths_under` of a concatenation.
proof fn lemma_paths_under_concat(a: Seq<SExpr>, b: Seq<SExpr>)
    ensures
        paths_under(a + b) == paths_under(a) + paths_under(b),
    decreases b.len(),
{
    if b.len() == 0 {
        assert(a + b =~= a);
        assert(paths_under(a) + paths_under(b) =~= paths_under(a));
    } else {
        lemma_paths_under_concat(a, b.drop_last());
        assert((a + b).drop_last() =~= a + b.drop_last());
        assert((a + b).last() == b.last());
        assert(paths_under(a) + paths_under(b) =~= paths_under(a) + paths_under(b.drop_last()) + with_head(
            items_from(b.last(), 1),
            "path"@,
        ));
    }
}

/// Appends the entries of the `(project ..)` children among `items[from..]`.
fn push_projects(out: &mut Vec<SymInstance>, items: &Vec<SNode>, from: usize, Ghost(prev): Ghost<Seq<SExpr>>)
    requires
        from <= items.len(),
        instances_read(old(out)@, prev),
    ensures
        instances_read(final(out)@, prev + paths_under(with_head(vs(items@).skip(from as int), "project"@))),
{
    let mut i: usize = from;
    proof {
        lemma_run_end(items@, from as int);
        assert(prev + paths_under(with_head(vs(items@).subrange(from as int, from as int), "project"@)) =~= prev);
    }
    while i < items.len()
        invariant
            from <= i <= items.len(),
            instances_read(
                out@,
                prev + paths_under(with_head(vs(items@).subrange(from as int, i as int), "project"@)),
            ),
        decreases items.len() - i,
    {
        proof {
            lemma_step(items@, from as int, i as int);
        }
        let ghost projs = with_head(vs(items@).subrange(from as int, i as int), "project"@);
        let ghost before = prev + paths_under(projs);
        if headed(&items[i], "project") {
            push_paths_of(out, &items[i], Ghost(before));
            proof {
                let x = items@[i as int]@;
                assert(projs.push(x).drop_last() =~= projs);
                assert(paths_under(projs.push(x)) == paths_under(projs) + with_head(items_from(x, 1), "path"@));
                assert(before + with_head(items_from(x, 1), "path"@) =~= prev + paths_under(projs.push(x)));
            }
        }
        i = i + 1;
    }
    proof {
        lemma_run_end(items@, from as int);
    }
}

/// The instance entries of a placed symbol node.
fn read_instances_of(n: &SNode) -> (r: Vec<SymInstance>)
    ensures
        instances_read(r@, instance_nodes(n@)),
{
    let mut out: Vec<SymInstance> = Vec::new();
    let v = match list_of(n) {
        Some(v) => v,
        None => {
            assert(instance_nodes(n@) =~= Seq::<SExpr>::empty());
            return out;
        },
    };
    if v.len() == 0 {
        assert(instance_nodes(n@) =~= Seq::<SExpr>::empty());
        return out;
    }
    proof {
        lemma_items_from(v@, *n, 1);
    }
    let mut i: usize = 1;
    proof {
        lemma_run_end(v@, 1);
        assert(paths_under(projects_under(with_head(vs(v@).subrange(1, 1), "instances"@))) =~= Seq::<SExpr>::empty());
    }
    while i < v.len()
        invariant
            1 <= i <= v.len(),
            instances_read(out@, paths_under(projects_under(with_head(vs(v@).subrange(1, i as int), "instances"@)))),
        decreases v.len() - i,
    {
        proof {
            lemma_step(v@, 1, i as int);
        }
        let ghost blocks = with_head(vs(v@).subrange(1, i as int), "instances"@);
        let ghost before = paths_under(projects_under(blocks));
        if headed(&v[i], "instances") {
            let ghost x = v@[i as int]@;
            match list_of(&v[i]) {
                Some(b) => {
                    if b.len() > 0 {
                        proof {
                            lemma_items_from(b@, v@[i as int], 1);
                        }
                        push_projects(&mut out, b, 1, Ghost(before));
                    } else {
                        assert(with_head(items_from(x, 1), "project"@) =~= Seq::<SExpr>::empty());
                        assert(before + paths_under(Seq::<SExpr>::empty()) =~= before);
                    }
                },
                None => {
                    assert(with_head(items_from(x, 1), "project"@) =~= Seq::<SExpr>::empty());
                    assert(before + paths_under(Seq::<SExpr>::empty()) =~= before);
                },
            }
            proof {
                assert(blocks.push(x).drop_last() =~= blocks);
                let projs = with_head(items_from(x, 1), "project"@);
                assert(projects_under(blocks.push(x)) == projects_under(blocks) + projs);
                lemma_paths_under_concat(projects_under(blocks), projs);
            }
        }
        i = i + 1;
    }
    proof {
        lemma_run_end(v@, 1);
    }
    out
}

/// The instance blocks of a parsed schematic document: for each placed
/// symbol with a UUID, its UUID and instance entries.
pub fn read_instance_table(doc: &SNode) -> (r: Vec<(String, Vec<SymInstance>)>)
    ensures
        instance_table_read(r@, placed_nodes(doc@)),
{
    let mut out: Vec<(String, Vec<SymInstance>)> = Vec::new();
    let top = match list_of(doc) {
        Some(v) => v,
        None => {
            assert(placed_nodes(doc@) =~= Seq::<SExpr>::empty());
            return out;
        },
    };
    if top.len() == 0 {
        assert(placed_nodes(doc@) =~= Seq::<SExpr>::empty());
        return out;
    }
    assert(vs(top@)[0] == top@[0]@);
    let root = match list_of(&top[0]) {
        Some(v) => v,
        None => {
            assert(placed_nodes(doc@) =~= Seq::<SExpr>::empty());
            return out;
        },
    };
    if root.len() == 0 {
        assert(root_items(doc@) =~= Seq::<SExpr>::empty());
        assert(placed_nodes(doc@) =~= Seq::<SExpr>::empty());
        return out;
    }
    proof {
        lemma_items_from(root@, top@[0], 1);
    }
    let mut i: usize = 1;
    proof {
        lemma_run_end(root@, 1);
    }
    while i < root.len()
        invariant
            1 <= i <= root.len(),
            instance_table_read(out@, with_head(vs(root@).subrange(1, i as int), "symbol"@)),
        decreases root.len() - i,
    {
        proof {
            lemma_step(root@, 1, i as int);
        }
        let ghost syms = with_head(vs(root@).subrange(1, i as int), "symbol"@);
        if headed(&root[i], "symbol") {
            let ghost x = root@[i as int]@;
            proof {
                assert(syms.push(x).drop_last() =~= syms);
            }
            let uuid = match list_of(&root[i]) {
                Some(v) => {
                    if v.len() > 0 {
                        proof {
                            lemma_items_from(v@, root@[i as int], 1);
                        }
                        field_in(v, 1, "uuid")
                    } else {
                        assert(items_from(x, 1) =~= Seq::<SExpr>::empty());
                        None
                    }
                },
                None => {
                    assert(items_from(x, 1) =~= Seq::<SExpr>::empty());
                    None
                },
            };
            match uuid {
                Some(u) => {
                    let insts = read_instances_of(&root[i]);
                    let ghost before = out@;
                    out.push((u, insts));
                    assert(out@.drop_last() =~= before);
                },
                None => {},
            }
        }
        i = i + 1;
    }
    proof {
        lemma_run_end(root@, 1);
    }
    out
}

/// Why a schematic's text could not be read: the parser's own account.
pub struct SchematicError {
    pub detail: String,
}

/// The library drawings and the symbols' instance blocks of a schematic,
/// read from its text. Fails exactly when `kiutils_sexpr` rejects the
/// text.
pub fn schematic_symbols(src: &str) -> (r: Result<(Vec<LibSymbol>, Vec<(String, Vec<SymInstance>)>), SchematicError>)
    ensures
        match r {
            Ok(parts) => sexpr_document(src@) is Some && library_read(
                parts.0@,
                library_nodes(sexpr_document(src@).unwrap()),
            ) && instance_table_read(parts.1@, placed_nodes(sexpr_document(src@).unwrap())),
            Err(_) => sexpr_document(src@) is None,
        },
{
    match parse_sexpr(src) {
        Ok(doc) => Ok((read_library(&doc), read_instance_table(&doc))),
        Err(e) => Err(SchematicError { detail: parse_error_text(&e) }),
    }
}

} // verus!
