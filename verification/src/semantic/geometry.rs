//! Symbol geometry: drawing extents of library symbols, which drawing a
//! symbol uses, and the transform from symbol space onto the sheet.

use vstd::prelude::*;

use crate::kicad::{parse_i32, parse_i32_exec};
use crate::semantic::{Bbox, Point};
use crate::text::{chars_of, last_index, rfind_char, slice_chars};

verus! {

/// A pin of a library symbol: its number, its tip in the symbol's own Y-up
/// space, and whether it is hidden (stacked under a visible pin).
pub struct SymPin {
    pub number: Option<String>,
    pub at: Option<Point>,
    pub hidden: bool,
}

/// A body graphic of a library symbol: a circle (centre and radius), or a
/// shape given by its start, end, centre (or arc midpoint) and point list.
pub struct SymShape {
    pub circle: bool,
    pub start: Option<Point>,
    pub end: Option<Point>,
    pub center: Option<Point>,
    pub radius: Option<i32>,
    pub pts: Vec<Point>,
}

/// One sub-symbol (`NAME_<unit>_<style>`) of a library symbol.
pub struct SymUnit {
    pub name: Option<String>,
    pub pins: Vec<SymPin>,
    pub shapes: Vec<SymShape>,
}

/// A library symbol embedded in a schematic: its own pins and graphics
/// (shared by every unit) and its sub-symbols.
pub struct LibSymbol {
    pub name: Option<String>,
    pub extends: Option<String>,
    pub pins: Vec<SymPin>,
    pub shapes: Vec<SymShape>,
    pub units: Vec<SymUnit>,
}

/// `v` held to the range of an `i32`.
pub open spec fn clamp(v: int) -> i32 {
    if v < i32::MIN {
        i32::MIN
    } else if v > i32::MAX {
        i32::MAX
    } else {
        v as i32
    }
}

/// A box grown to take in `p` (the box of `p` alone when there is none).
pub open spec fn grown(b: Option<Bbox>, p: Point) -> Option<Bbox> {
    match b {
        None => Some(Bbox { min_x: p.x, min_y: p.y, max_x: p.x, max_y: p.y }),
        Some(b) => Some(
            Bbox {
                min_x: if p.x < b.min_x {
                    p.x
                } else {
                    b.min_x
                },
                min_y: if p.y < b.min_y {
                    p.y
                } else {
                    b.min_y
                },
                max_x: if p.x > b.max_x {
                    p.x
                } else {
                    b.max_x
                },
                max_y: if p.y > b.max_y {
                    p.y
                } else {
                    b.max_y
                },
            },
        ),
    }
}

/// A box grown by each of `pts` in turn.
pub open spec fn bbox_over(b: Option<Bbox>, pts: Seq<Point>) -> Option<Bbox>
    decreases pts.len(),
{
    if pts.len() == 0 {
        b
    } else {
        grown(bbox_over(b, pts.drop_last()), pts.last())
    }
}

/// The point an option holds, as a sequence of at most one.
pub open spec fn opt_point(p: Option<Point>) -> Seq<Point> {
    match p {
        Some(p) => seq![p],
        None => seq![],
    }
}

/// The points that bound a graphic: a circle's two corners, or a shape's
/// start, end, centre and point list.
pub open spec fn shape_points(g: SymShape) -> Seq<Point> {
    if g.circle && g.center is Some && g.radius is Some {
        let c = g.center->0;
        let r = g.radius->0 as int;
        seq![
            Point { x: clamp(c.x - r), y: clamp(c.y - r) },
            Point { x: clamp(c.x + r), y: clamp(c.y + r) },
        ]
    } else {
        opt_point(g.start) + opt_point(g.end) + opt_point(g.center) + g.pts@
    }
}

/// The tips of the drawn (not hidden) pins that have a position.
pub open spec fn pin_points(pins: Seq<SymPin>) -> Seq<Point>
    decreases pins.len(),
{
    if pins.len() == 0 {
        seq![]
    } else {
        let rest = pin_points(pins.drop_last());
        let p = pins.last();
        if !p.hidden && p.at is Some {
            rest.push(p.at->0)
        } else {
            rest
        }
    }
}

/// The points bounding a list of graphics.
pub open spec fn shapes_points(gs: Seq<SymShape>) -> Seq<Point>
    decreases gs.len(),
{
    if gs.len() == 0 {
        seq![]
    } else {
        shapes_points(gs.drop_last()) + shape_points(gs.last())
    }
}

/// The points bounding a set of pins and body graphics.
pub open spec fn part_points(pins: Seq<SymPin>, shapes: Seq<SymShape>) -> Seq<Point> {
    pin_points(pins) + shapes_points(shapes)
}

/// The unit field of a sub-symbol name: the second `_`-separated piece
/// counted from the right, when there are two.
pub open spec fn unit_field(name: Seq<char>) -> Option<Seq<char>> {
    match last_index(name, '_') {
        None => None,
        Some(j) => {
            let head = name.take(j);
            match last_index(head, '_') {
                Some(k) => Some(head.skip(k + 1)),
                None => Some(head),
            }
        },
    }
}

/// The unit a sub-symbol draws (`Quad_2_1` draws unit 2); 0, the unit
/// every placed unit shares, when the name gives none.
pub open spec fn unit_number(name: Option<String>) -> int {
    match name {
        Some(n) => match unit_field(n@) {
            Some(f) => match parse_i32(f) {
                Some(v) => v,
                None => 0,
            },
            None => 0,
        },
        None => 0,
    }
}

/// Whether a sub-symbol of unit `n` is part of the drawing of `unit`.
pub open spec fn selected(n: int, unit: int) -> bool {
    n == 0 || n == unit
}

/// The points of the sub-symbols that draw `unit`.
pub open spec fn unit_points(units: Seq<SymUnit>, unit: int) -> Seq<Point>
    decreases units.len(),
{
    if units.len() == 0 {
        seq![]
    } else {
        let rest = unit_points(units.drop_last(), unit);
        let u = units.last();
        if selected(unit_number(u.name), unit) {
            rest + part_points(u.pins@, u.shapes@)
        } else {
            rest
        }
    }
}

/// Every point of the drawing of one placed unit: the shared graphics and
/// pins, and those of its own sub-symbols.
pub open spec fn drawn_points(s: LibSymbol, unit: int) -> Seq<Point> {
    part_points(s.pins@, s.shapes@) + unit_points(s.units@, unit)
}

/// The extent of the drawing of one placed unit, in symbol space.
pub open spec fn drawing_box(s: LibSymbol, unit: int) -> Option<Bbox> {
    bbox_over(None, drawn_points(s, unit))
}

/// The centre of a box (rounded down to the nanometre).
pub open spec fn center_of(b: Option<Bbox>) -> Option<Point> {
    match b {
        Some(b) => Some(
            Point {
                x: ((b.min_x + b.max_x) / 2) as i32,
                y: ((b.min_y + b.max_y) / 2) as i32,
            },
        ),
        None => None,
    }
}

/// Growing a box by two runs of points is growing it by their concatenation.
pub proof fn lemma_bbox_over_concat(b: Option<Bbox>, s: Seq<Point>, t: Seq<Point>)
    ensures
        bbox_over(b, s + t) == bbox_over(bbox_over(b, s), t),
    decreases t.len(),
{
    if t.len() == 0 {
        assert(s + t =~= s);
    } else {
        lemma_bbox_over_concat(b, s, t.drop_last());
        assert((s + t).drop_last() =~= s + t.drop_last());
        assert((s + t).last() == t.last());
    }
}

/// Growing a box by one point.
proof fn lemma_bbox_over_one(b: Option<Bbox>, p: Point)
    ensures
        bbox_over(b, seq![p]) == grown(b, p),
{
    assert(seq![p].drop_last() =~= Seq::<Point>::empty());
    assert(seq![p].last() == p);
    assert(bbox_over(b, Seq::<Point>::empty()) == b);
}

/// Growing a box by at most one point.
proof fn lemma_bbox_over_opt(b: Option<Bbox>, p: Option<Point>)
    ensures
        bbox_over(b, opt_point(p)) == match p {
            Some(q) => grown(b, q),
            None => b,
        },
{
    if let Some(q) = p {
        lemma_bbox_over_one(b, q);
    }
}

/// A box grown by one more point.
fn grow(b: &mut Option<Bbox>, p: Point)
    ensures
        *final(b) == grown(*old(b), p),
{
    match *b {
        None => {
            *b = Some(Bbox { min_x: p.x, min_y: p.y, max_x: p.x, max_y: p.y });
        },
        Some(c) => {
            *b = Some(
                Bbox {
                    min_x: if p.x < c.min_x {
                        p.x
                    } else {
                        c.min_x
                    },
                    min_y: if p.y < c.min_y {
                        p.y
                    } else {
                        c.min_y
                    },
                    max_x: if p.x > c.max_x {
                        p.x
                    } else {
                        c.max_x
                    },
                    max_y: if p.y > c.max_y {
                        p.y
                    } else {
                        c.max_y
                    },
                },
            );
        },
    }
}

/// A value held to the range of an `i32`.
fn clamp_exec(v: i64) -> (r: i32)
    ensures
        r == clamp(v as int),
{
    if v < i32::MIN as i64 {
        i32::MIN
    } else if v > i32::MAX as i64 {
        i32::MAX
    } else {
        v as i32
    }
}

/// A box grown by the drawn pins.
fn grow_pins(b: &mut Option<Bbox>, pins: &Vec<SymPin>)
    ensures
        *final(b) == bbox_over(*old(b), pin_points(pins@)),
{
    let ghost b0 = *b;
    let mut i: usize = 0;
    while i < pins.len()
        invariant
            i <= pins.len(),
            *b == bbox_over(b0, pin_points(pins@.take(i as int))),
        decreases pins.len() - i,
    {
        let ghost pre = pins@.take(i as int);
        let ghost next = pins@.take(i as int + 1);
        assert(next.drop_last() =~= pre);
        assert(next.last() == pins@[i as int]);
        if !pins[i].hidden {
            match pins[i].at {
                Some(p) => {
                    grow(b, p);
                    assert(pin_points(next) == pin_points(pre).push(p));
                    assert(pin_points(pre).push(p).drop_last() =~= pin_points(pre));
                },
                None => {},
            }
        }
        i = i + 1;
    }
    assert(pins@.take(pins.len() as int) =~= pins@);
}

/// A box grown by the points of one graphic.
fn grow_shape(b: &mut Option<Bbox>, g: &SymShape)
    ensures
        *final(b) == bbox_over(*old(b), shape_points(*g)),
{
    let ghost b0 = *b;
    if g.circle && g.center.is_some() && g.radius.is_some() {
        let c = g.center.unwrap();
        let r = g.radius.unwrap();
        let p = Point { x: clamp_exec(c.x as i64 - r as i64), y: clamp_exec(c.y as i64 - r as i64) };
        let q = Point { x: clamp_exec(c.x as i64 + r as i64), y: clamp_exec(c.y as i64 + r as i64) };
        grow(b, p);
        grow(b, q);
        proof {
            let s = shape_points(*g);
            assert(s =~= seq![p] + seq![q]);
            lemma_bbox_over_one(b0, p);
            lemma_bbox_over_one(grown(b0, p), q);
            lemma_bbox_over_concat(b0, seq![p], seq![q]);
        }
    } else {
        let ghost head = opt_point(g.start) + opt_point(g.end) + opt_point(g.center);
        if let Some(p) = g.start {
            grow(b, p);
        }
        proof {
            lemma_bbox_over_opt(b0, g.start);
        }
        let ghost b1 = *b;
        if let Some(p) = g.end {
            grow(b, p);
        }
        proof {
            lemma_bbox_over_opt(b1, g.end);
            lemma_bbox_over_concat(b0, opt_point(g.start), opt_point(g.end));
        }
        let ghost b2 = *b;
        if let Some(p) = g.center {
            grow(b, p);
        }
        proof {
            lemma_bbox_over_opt(b2, g.center);
            lemma_bbox_over_concat(b0, opt_point(g.start) + opt_point(g.end), opt_point(g.center));
            assert(*b == bbox_over(b0, head));
        }
        let ghost b3 = *b;
        let mut i: usize = 0;
        while i < g.pts.len()
            invariant
                i <= g.pts.len(),
                *b == bbox_over(b3, g.pts@.take(i as int)),
            decreases g.pts.len() - i,
        {
            grow(b, g.pts[i]);
            assert(g.pts@.take(i as int + 1).drop_last() =~= g.pts@.take(i as int));
            i = i + 1;
        }
        proof {
            assert(g.pts@.take(g.pts.len() as int) =~= g.pts@);
            lemma_bbox_over_concat(b0, head, g.pts@);
        }
    }
}

/// A box grown by the points of a list of graphics.
fn grow_shapes(b: &mut Option<Bbox>, gs: &Vec<SymShape>)
    ensures
        *final(b) == bbox_over(*old(b), shapes_points(gs@)),
{
    let ghost b0 = *b;
    let mut i: usize = 0;
    while i < gs.len()
        invariant
            i <= gs.len(),
            *b == bbox_over(b0, shapes_points(gs@.take(i as int))),
        decreases gs.len() - i,
    {
        let ghost pre = gs@.take(i as int);
        let ghost next = gs@.take(i as int + 1);
        assert(next.drop_last() =~= pre);
        assert(next.last() == gs@[i as int]);
        grow_shape(b, &gs[i]);
        proof {
            lemma_bbox_over_concat(b0, shapes_points(pre), shape_points(gs@[i as int]));
        }
        i = i + 1;
    }
    assert(gs@.take(gs.len() as int) =~= gs@);
}

/// A box grown by a set of pins and graphics.
fn grow_part(b: &mut Option<Bbox>, pins: &Vec<SymPin>, shapes: &Vec<SymShape>)
    ensures
        *final(b) == bbox_over(*old(b), part_points(pins@, shapes@)),
{
    let ghost b0 = *b;
    grow_pins(b, pins);
    grow_shapes(b, shapes);
    proof {
        lemma_bbox_over_concat(b0, pin_points(pins@), shapes_points(shapes@));
    }
}

/// The unit a sub-symbol name draws.
pub fn unit_number_of(name: &Option<String>) -> (r: i32)
    ensures
        r == unit_number(*name),
{
    match name {
        None => 0,
        Some(n) => {
            let v = chars_of(n.as_str());
            proof {
                crate::text::lemma_last_index(v@, '_');
            }
            match rfind_char(&v, '_') {
                None => 0,
                Some(j) => {
                    let head = slice_chars(&v, 0, j);
                    assert(head@ =~= v@.take(j as int));
                    proof {
                        crate::text::lemma_last_index(head@, '_');
                    }
                    let field = match rfind_char(&head, '_') {
                        Some(k) => {
                            let f = slice_chars(&head, k + 1, head.len());
                            assert(f@ =~= head@.skip(k + 1));
                            f
                        },
                        None => head,
                    };
                    match parse_i32_exec(&field) {
                        Some(u) => u,
                        None => 0,
                    }
                },
            }
        },
    }
}


/// The extent of the drawing of one placed unit of `s`.
pub fn drawing_box_of(s: &LibSymbol, unit: i32) -> (r: Option<Bbox>)
    ensures
        r == drawing_box(*s, unit as int),
{
    let mut b: Option<Bbox> = None;
    grow_part(&mut b, &s.pins, &s.shapes);
    let ghost b1 = b;
    let mut i: usize = 0;
    while i < s.units.len()
        invariant
            i <= s.units.len(),
            b == bbox_over(b1, unit_points(s.units@.take(i as int), unit as int)),
        decreases s.units.len() - i,
    {
        let ghost pre = s.units@.take(i as int);
        let ghost next = s.units@.take(i as int + 1);
        assert(next.drop_last() =~= pre);
        assert(next.last() == s.units@[i as int]);
        let n = unit_number_of(&s.units[i].name);
        if n == 0 || n == unit {
            grow_part(&mut b, &s.units[i].pins, &s.units[i].shapes);
            proof {
                lemma_bbox_over_concat(
                    b1,
                    unit_points(pre, unit as int),
                    part_points(s.units@[i as int].pins@, s.units@[i as int].shapes@),
                );
            }
        }
        i = i + 1;
    }
    proof {
        assert(s.units@.take(s.units.len() as int) =~= s.units@);
        lemma_bbox_over_concat(None, part_points(s.pins@, s.shapes@), unit_points(s.units@, unit as int));
    }
    b
}

/// Half a sum, rounded down.
fn half_floor(a: i32, b: i32) -> (r: i32)
    ensures
        r == (a + b) / 2,
{
    let s: i64 = a as i64 + b as i64;
    if s >= 0 {
        (s / 2) as i32
    } else {
        let m: i64 = -s;
        let h: i64 = (m + 1) / 2;
        assert(-h == s / 2) by (nonlinear_arith)
            requires
                m == -s,
                h == (m + 1) / 2,
                s < 0,
        ;
        (-h) as i32
    }
}

/// The visual centre of one placed unit of `s`, in symbol space.
pub fn drawing_center(s: &LibSymbol, unit: i32) -> (r: Option<Point>)
    ensures
        r == center_of(drawing_box(*s, unit as int)),
{
    match drawing_box_of(s, unit) {
        Some(b) => Some(Point { x: half_floor(b.min_x, b.max_x), y: half_floor(b.min_y, b.max_y) }),
        None => None,
    }
}

/// A pin row of a drawing: number, tip, and whether it is hidden.
pub open spec fn pin_entries(pins: Seq<SymPin>) -> Seq<(Seq<char>, Point, bool)>
    decreases pins.len(),
{
    if pins.len() == 0 {
        seq![]
    } else {
        let rest = pin_entries(pins.drop_last());
        let p = pins.last();
        if p.number is Some && p.at is Some {
            rest.push((p.number->0@, p.at->0, p.hidden))
        } else {
            rest
        }
    }
}

/// The pin rows of the sub-symbols that draw `unit`.
pub open spec fn unit_pin_entries(units: Seq<SymUnit>, unit: int) -> Seq<(Seq<char>, Point, bool)>
    decreases units.len(),
{
    if units.len() == 0 {
        seq![]
    } else {
        let rest = unit_pin_entries(units.drop_last(), unit);
        let u = units.last();
        if selected(unit_number(u.name), unit) {
            rest + pin_entries(u.pins@)
        } else {
            rest
        }
    }
}

/// The pins of one placed unit: the shared pins and those of its own
/// sub-symbols, each with a number and a position.
pub open spec fn drawn_pins(s: LibSymbol, unit: int) -> Seq<(Seq<char>, Point, bool)> {
    pin_entries(s.pins@) + unit_pin_entries(s.units@, unit)
}

/// The view of pin rows.
pub open spec fn pin_rows_view(v: Seq<(String, Point, bool)>) -> Seq<(Seq<char>, Point, bool)> {
    v.map_values(|r: (String, Point, bool)| (r.0@, r.1, r.2))
}

/// Appends the pin rows of `pins`.
fn push_pin_rows(out: &mut Vec<(String, Point, bool)>, pins: &Vec<SymPin>)
    ensures
        pin_rows_view(final(out)@) == pin_rows_view(old(out)@) + pin_entries(pins@),
{
    let ghost o = pin_rows_view(out@);
    let mut i: usize = 0;
    while i < pins.len()
        invariant
            i <= pins.len(),
            pin_rows_view(out@) == o + pin_entries(pins@.take(i as int)),
        decreases pins.len() - i,
    {
        let ghost pre = pins@.take(i as int);
        let ghost next = pins@.take(i as int + 1);
        assert(next.drop_last() =~= pre);
        assert(next.last() == pins@[i as int]);
        match (&pins[i].number, pins[i].at) {
            (Some(n), Some(p)) => {
                let ghost before = pin_rows_view(out@);
                out.push((n.clone(), p, pins[i].hidden));
                assert(pin_rows_view(out@) =~= before.push((n@, p, pins@[i as int].hidden)));
            },
            _ => {},
        }
        i = i + 1;
    }
    assert(pins@.take(pins.len() as int) =~= pins@);
}

/// The pins of one placed unit of `s`.
pub fn drawn_pins_of(s: &LibSymbol, unit: i32) -> (r: Vec<(String, Point, bool)>)
    ensures
        pin_rows_view(r@) == drawn_pins(*s, unit as int),
{
    let mut out: Vec<(String, Point, bool)> = Vec::new();
    assert(pin_rows_view(out@) =~= seq![]);
    push_pin_rows(&mut out, &s.pins);
    let mut i: usize = 0;
    while i < s.units.len()
        invariant
            i <= s.units.len(),
            pin_rows_view(out@) == pin_entries(s.pins@) + unit_pin_entries(s.units@.take(i as int), unit as int),
        decreases s.units.len() - i,
    {
        let ghost pre = s.units@.take(i as int);
        let ghost next = s.units@.take(i as int + 1);
        assert(next.drop_last() =~= pre);
        assert(next.last() == s.units@[i as int]);
        let n = unit_number_of(&s.units[i].name);
        if n == 0 || n == unit {
            push_pin_rows(&mut out, &s.units[i].pins);
            assert(pin_entries(s.pins@) + unit_pin_entries(next, unit as int) =~= pin_entries(s.pins@)
                + unit_pin_entries(pre, unit as int) + pin_entries(s.units@[i as int].pins@));
        }
        i = i + 1;
    }
    assert(s.units@.take(s.units.len() as int) =~= s.units@);
    out
}

/// The points of every sub-symbol.
pub open spec fn all_unit_points(units: Seq<SymUnit>) -> Seq<Point>
    decreases units.len(),
{
    if units.len() == 0 {
        seq![]
    } else {
        all_unit_points(units.drop_last()) + part_points(units.last().pins@, units.last().shapes@)
    }
}

/// The pin rows of every sub-symbol.
pub open spec fn all_unit_pins(units: Seq<SymUnit>) -> Seq<(Seq<char>, Point, bool)>
    decreases units.len(),
{
    if units.len() == 0 {
        seq![]
    } else {
        all_unit_pins(units.drop_last()) + pin_entries(units.last().pins@)
    }
}

/// A symbol that draws nothing: no extent on any unit and no pins (a
/// derived symbol that borrows its parent's drawing).
pub open spec fn blank(s: LibSymbol) -> bool {
    &&& part_points(s.pins@, s.shapes@).len() == 0
    &&& all_unit_points(s.units@).len() == 0
    &&& pin_entries(s.pins@).len() == 0
    &&& all_unit_pins(s.units@).len() == 0
}

/// Whether a set of pins has no drawn tip and no pin row.
fn pins_blank(pins: &Vec<SymPin>) -> (r: bool)
    ensures
        r == (pin_points(pins@).len() == 0 && pin_entries(pins@).len() == 0),
{
    let mut i: usize = 0;
    while i < pins.len()
        invariant
            i <= pins.len(),
            pin_points(pins@.take(i as int)).len() == 0,
            pin_entries(pins@.take(i as int)).len() == 0,
        decreases pins.len() - i,
    {
        let ghost pre = pins@.take(i as int);
        let ghost next = pins@.take(i as int + 1);
        assert(next.drop_last() =~= pre);
        assert(next.last() == pins@[i as int]);
        if pins[i].at.is_some() && (!pins[i].hidden || pins[i].number.is_some()) {
            proof {
                lemma_pin_points_grow(pins@, i as int + 1);
                lemma_pin_entries_grow(pins@, i as int + 1);
            }
            return false;
        }
        i = i + 1;
    }
    assert(pins@.take(pins.len() as int) =~= pins@);
    true
}

/// Taking more pins never shortens what they give.
proof fn lemma_pin_points_grow(pins: Seq<SymPin>, n: int)
    requires
        0 <= n <= pins.len(),
    ensures
        pin_points(pins.take(n)).len() <= pin_points(pins).len(),
    decreases pins.len() - n,
{
    if n < pins.len() {
        lemma_pin_points_grow(pins, n + 1);
        assert(pins.take(n + 1).drop_last() =~= pins.take(n));
    } else {
        assert(pins.take(n) =~= pins);
    }
}

/// Taking more pins never shortens the pin rows.
proof fn lemma_pin_entries_grow(pins: Seq<SymPin>, n: int)
    requires
        0 <= n <= pins.len(),
    ensures
        pin_entries(pins.take(n)).len() <= pin_entries(pins).len(),
    decreases pins.len() - n,
{
    if n < pins.len() {
        lemma_pin_entries_grow(pins, n + 1);
        assert(pins.take(n + 1).drop_last() =~= pins.take(n));
    } else {
        assert(pins.take(n) =~= pins);
    }
}

/// Whether a graphic gives no point.
fn shape_blank(g: &SymShape) -> (r: bool)
    ensures
        r == (shape_points(*g).len() == 0),
{
    !(g.circle && g.center.is_some() && g.radius.is_some()) && g.start.is_none() && g.end.is_none()
        && g.center.is_none() && g.pts.len() == 0
}

/// Whether a list of graphics gives no point.
fn shapes_blank(gs: &Vec<SymShape>) -> (r: bool)
    ensures
        r == (shapes_points(gs@).len() == 0),
{
    let mut i: usize = 0;
    while i < gs.len()
        invariant
            i <= gs.len(),
            shapes_points(gs@.take(i as int)).len() == 0,
        decreases gs.len() - i,
    {
        let ghost pre = gs@.take(i as int);
        let ghost next = gs@.take(i as int + 1);
        assert(next.drop_last() =~= pre);
        assert(next.last() == gs@[i as int]);
        if !shape_blank(&gs[i]) {
            proof {
                lemma_shapes_points_grow(gs@, i as int + 1);
            }
            return false;
        }
        i = i + 1;
    }
    assert(gs@.take(gs.len() as int) =~= gs@);
    true
}

/// Taking more graphics never shortens their points.
proof fn lemma_shapes_points_grow(gs: Seq<SymShape>, n: int)
    requires
        0 <= n <= gs.len(),
    ensures
        shapes_points(gs.take(n)).len() <= shapes_points(gs).len(),
    decreases gs.len() - n,
{
    if n < gs.len() {
        lemma_shapes_points_grow(gs, n + 1);
        assert(gs.take(n + 1).drop_last() =~= gs.take(n));
    } else {
        assert(gs.take(n) =~= gs);
    }
}

/// Whether a symbol draws nothing.
fn is_blank(s: &LibSymbol) -> (r: bool)
    ensures
        r == blank(*s),
{
    if !(pins_blank(&s.pins) && shapes_blank(&s.shapes)) {
        return false;
    }
    let mut i: usize = 0;
    while i < s.units.len()
        invariant
            i <= s.units.len(),
            all_unit_points(s.units@.take(i as int)).len() == 0,
            all_unit_pins(s.units@.take(i as int)).len() == 0,
        decreases s.units.len() - i,
    {
        let ghost pre = s.units@.take(i as int);
        let ghost next = s.units@.take(i as int + 1);
        assert(next.drop_last() =~= pre);
        assert(next.last() == s.units@[i as int]);
        if !(pins_blank(&s.units[i].pins) && shapes_blank(&s.units[i].shapes)) {
            proof {
                lemma_units_grow(s.units@, i as int + 1);
            }
            return false;
        }
        i = i + 1;
    }
    assert(s.units@.take(s.units.len() as int) =~= s.units@);
    true
}

/// Taking more sub-symbols never shortens their points or pin rows.
proof fn lemma_units_grow(us: Seq<SymUnit>, n: int)
    requires
        0 <= n <= us.len(),
    ensures
        all_unit_points(us.take(n)).len() <= all_unit_points(us).len(),
        all_unit_pins(us.take(n)).len() <= all_unit_pins(us).len(),
    decreases us.len() - n,
{
    if n < us.len() {
        lemma_units_grow(us, n + 1);
        assert(us.take(n + 1).drop_last() =~= us.take(n));
    } else {
        assert(us.take(n) =~= us);
    }
}


/// Whether `s` is the library symbol named `id`.
pub open spec fn named(s: LibSymbol, id: Seq<char>) -> bool {
    s.name is Some && s.name->0@ == id
}

/// The last library symbol named `id` (a later one of the same name
/// replaces an earlier one).
pub open spec fn last_named(syms: Seq<LibSymbol>, id: Seq<char>) -> Option<int>
    decreases syms.len(),
{
    if syms.len() == 0 {
        None
    } else if named(syms.last(), id) {
        Some(syms.len() - 1)
    } else {
        last_named(syms.drop_last(), id)
    }
}

/// The library part of a symbol id (`Lib` of `Lib:Box`; empty without one).
pub open spec fn lib_prefix(name: Seq<char>) -> Seq<char> {
    match crate::text::first_index(name, ':') {
        Some(i) => name.take(i),
        None => seq![],
    }
}

/// The id of the symbol `name` extends: its parent in the same library.
pub open spec fn parent_id(name: Seq<char>, parent: Seq<char>) -> Seq<char> {
    lib_prefix(name) + ":"@ + parent
}

/// One step of drawing resolution: a derived symbol whose drawing (so far)
/// is blank takes its parent's current drawing.
pub open spec fn resolve_step(syms: Seq<LibSymbol>, r: Seq<int>, i: int) -> Seq<int> {
    let s = syms[i];
    match (s.name, s.extends) {
        (Some(name), Some(parent)) => match last_named(syms, name@) {
            Some(j) => if blank(syms[r[j]]) {
                match last_named(syms, parent_id(name@, parent@)) {
                    Some(p) => r.update(j, r[p]),
                    None => r,
                }
            } else {
                r
            },
            None => r,
        },
        _ => r,
    }
}

/// For each symbol, the symbol whose drawing it uses once the first `n`
/// symbols have had their parents looked up, in file order.
pub open spec fn resolved(syms: Seq<LibSymbol>, n: int) -> Seq<int>
    decreases n,
{
    if n <= 0 {
        Seq::new(syms.len(), |j: int| j)
    } else {
        resolve_step(syms, resolved(syms, n - 1), n - 1)
    }
}

/// The symbol whose drawing the id `id` stands for.
pub open spec fn drawing_index(syms: Seq<LibSymbol>, id: Seq<char>) -> Option<int> {
    match last_named(syms, id) {
        Some(j) => Some(resolved(syms, syms.len() as int)[j]),
        None => None,
    }
}

/// `last_named` finds the last symbol of that name.
proof fn lemma_last_named(syms: Seq<LibSymbol>, id: Seq<char>)
    ensures
        match last_named(syms, id) {
            Some(j) => 0 <= j < syms.len() && named(syms[j], id) && forall|k: int|
                j < k < syms.len() ==> !named(#[trigger] syms[k], id),
            None => forall|k: int| 0 <= k < syms.len() ==> !named(#[trigger] syms[k], id),
        },
    decreases syms.len(),
{
    if syms.len() > 0 {
        lemma_last_named(syms.drop_last(), id);
        assert forall|k: int| 0 <= k < syms.len() - 1 implies syms.drop_last()[k] == syms[k] by {}
    }
}

/// Resolution keeps every entry a symbol index.
proof fn lemma_resolved_in_range(syms: Seq<LibSymbol>, n: int)
    requires
        n <= syms.len(),
    ensures
        resolved(syms, n).len() == syms.len(),
        forall|j: int| 0 <= j < syms.len() ==> 0 <= #[trigger] resolved(syms, n)[j] < syms.len(),
    decreases n,
{
    if n > 0 {
        lemma_resolved_in_range(syms, n - 1);
        let s = syms[n - 1];
        match (s.name, s.extends) {
            (Some(name), Some(parent)) => {
                lemma_last_named(syms, name@);
                lemma_last_named(syms, parent_id(name@, parent@));
            },
            _ => {},
        }
    }
}

/// The last symbol named `id`.
fn last_named_exec(syms: &Vec<LibSymbol>, id: &str) -> (r: Option<usize>)
    ensures
        match r {
            Some(j) => last_named(syms@, id@) == Some(j as int) && j < syms.len(),
            None => last_named(syms@, id@) is None,
        },
{
    let mut i = syms.len();
    while i > 0
        invariant
            i <= syms.len(),
            forall|k: int| i <= k < syms.len() ==> !named(#[trigger] syms@[k], id@),
        decreases i,
    {
        let hit = match &syms[i - 1].name {
            Some(n) => crate::text::str_eq(n.as_str(), id),
            None => false,
        };
        if hit {
            proof {
                lemma_last_named(syms@, id@);
                match last_named(syms@, id@) {
                    Some(j) => {
                        assert(named(syms@[j], id@));
                        assert(named(syms@[i - 1], id@));
                    },
                    None => {
                        assert(named(syms@[i - 1], id@));
                    },
                }
            }
            return Some(i - 1);
        }
        i = i - 1;
    }
    proof {
        lemma_last_named(syms@, id@);
        if let Some(j) = last_named(syms@, id@) {
            assert(named(syms@[j], id@));
        }
    }
    None
}

/// The id of the parent symbol that `name` extends.
fn parent_id_exec(name: &str, parent: &str) -> (r: String)
    ensures
        r@ == parent_id(name@, parent@),
{
    let v = chars_of(name);
    let cut = crate::text::find_char_from(&v, ':', 0);
    let mut out: Vec<char> = match cut {
        Some(i) => slice_chars(&v, 0, i),
        None => Vec::new(),
    };
    proof {
        crate::text::lemma_find_from(v@, ':', 0, match cut {
            Some(i) => Some(i as int),
            None => None,
        });
        assert(v@.skip(0) =~= v@);
    }
    assert(out@ == lib_prefix(name@)) by {
        match cut {
            Some(i) => {
                assert(out@ =~= v@.take(i as int));
            },
            None => {
                assert(out@ =~= Seq::<char>::empty());
            },
        }
    }
    out.push(':');
    crate::text::push_str(&mut out, parent);
    assert(out@ =~= lib_prefix(name@) + ":"@ + parent@) by {
        reveal_strlit(":");
    }
    crate::text::string_of(out.as_slice())
}

/// For each symbol, the symbol whose drawing it uses: a derived symbol
/// with no drawing of its own borrows its parent's.
pub fn resolve_drawings(syms: &Vec<LibSymbol>) -> (r: Vec<usize>)
    ensures
        r@.len() == syms@.len(),
        forall|j: int| 0 <= j < syms.len() ==> r@[j] as int == #[trigger] resolved(syms@, syms.len() as int)[j],
{
    let mut r: Vec<usize> = Vec::new();
    let mut k: usize = 0;
    while k < syms.len()
        invariant
            k <= syms.len(),
            r@.len() == k,
            forall|j: int| 0 <= j < k ==> r@[j] == j,
        decreases syms.len() - k,
    {
        r.push(k);
        k = k + 1;
    }
    let mut i: usize = 0;
    while i < syms.len()
        invariant
            i <= syms.len(),
            r@.len() == syms.len(),
            forall|j: int| 0 <= j < syms.len() ==> r@[j] as int == #[trigger] resolved(syms@, i as int)[j],
        decreases syms.len() - i,
    {
        proof {
            lemma_resolved_in_range(syms@, i as int);
        }
        let ghost prev = resolved(syms@, i as int);
        let ghost rv = r@.map_values(|x: usize| x as int);
        assert(rv =~= prev);
        let ghost expected = resolve_step(syms@, prev, i as int);
        match (&syms[i].name, &syms[i].extends) {
            (Some(name), Some(parent)) => {
                match last_named_exec(syms, name.as_str()) {
                    Some(j) => {
                        assert(r@[j as int] as int == prev[j as int]);
                        let cur = r[j];
                        if is_blank(&syms[cur]) {
                            let pid = parent_id_exec(name.as_str(), parent.as_str());
                            match last_named_exec(syms, pid.as_str()) {
                                Some(p) => {
                                    assert(r@[p as int] as int == prev[p as int]);
                                    let v = r[p];
                                    r.set(j, v);
                                    assert(expected == prev.update(j as int, prev[p as int]));
                                    assert(r@.map_values(|x: usize| x as int) =~= expected);
                                },
                                None => {
                                    assert(r@.map_values(|x: usize| x as int) =~= expected);
                                },
                            }
                        } else {
                            assert(r@.map_values(|x: usize| x as int) =~= expected);
                        }
                    },
                    None => {
                        assert(r@.map_values(|x: usize| x as int) =~= expected);
                    },
                }
            },
            _ => {
                assert(r@.map_values(|x: usize| x as int) =~= expected);
            },
        }
        proof {
            assert forall|j: int| 0 <= j < syms.len() implies r@[j] as int == #[trigger] resolved(
                syms@,
                i as int + 1,
            )[j] by {
                assert(r@.map_values(|x: usize| x as int)[j] == r@[j] as int);
            }
        }
        i = i + 1;
    }
    r
}

/// The symbol whose drawing the id `id` stands for, given the resolution
/// table `table` of `syms`.
pub fn drawing_index_of(syms: &Vec<LibSymbol>, table: &Vec<usize>, id: &str) -> (r: Option<usize>)
    requires
        table@.len() == syms@.len(),
        forall|j: int| 0 <= j < syms.len() ==> table@[j] as int == #[trigger] resolved(syms@, syms.len() as int)[j],
    ensures
        match r {
            Some(d) => drawing_index(syms@, id@) == Some(d as int) && d < syms.len(),
            None => drawing_index(syms@, id@) is None,
        },
{
    proof {
        lemma_resolved_in_range(syms@, syms.len() as int);
    }
    match last_named_exec(syms, id) {
        Some(j) => Some(table[j]),
        None => None,
    }
}


/// How many quarter turns an orientation (in billionths of a degree) is,
/// when it is a whole number of them.
pub open spec fn quarter_turns(angle: int) -> Option<int> {
    let a = angle % 360_000_000_000;
    if a % 90_000_000_000 == 0 {
        Some(a / 90_000_000_000)
    } else {
        None
    }
}

/// A point of symbol space turned counter-clockwise by `q` quarter turns.
pub open spec fn rotated(p: Point, q: int) -> (int, int) {
    if q == 1 {
        (-p.y, p.x as int)
    } else if q == 2 {
        (-p.x, -p.y)
    } else if q == 3 {
        (p.y as int, -p.x)
    } else {
        (p.x as int, p.y as int)
    }
}

/// A point mirrored like the instance: about the X axis (`x`) or the Y
/// axis (`y`).
pub open spec fn mirrored(v: (int, int), mirror: Option<Seq<char>>) -> (int, int) {
    if mirror == Some("x"@) {
        (v.0, -v.1)
    } else if mirror == Some("y"@) {
        (-v.0, v.1)
    } else {
        v
    }
}

/// Whether a value fits an `i32`.
pub open spec fn fits(v: int) -> bool {
    i32::MIN <= v <= i32::MAX
}

/// Where a point of a symbol's drawing lands on the sheet: rotated then
/// mirrored like the instance, flipped into the sheet's Y-down coordinates
/// and added to the anchor. Symbols sit at whole quarter turns; another
/// orientation, or a position off the coordinate range, places nothing.
pub open spec fn sheet_point(anchor: Point, angle: int, mirror: Option<Seq<char>>, p: Point) -> Option<Point> {
    match quarter_turns(angle) {
        Some(q) => {
            let v = mirrored(rotated(p, q), mirror);
            let sx = anchor.x + v.0;
            let sy = anchor.y - v.1;
            if fits(sx) && fits(sy) {
                Some(Point { x: sx as i32, y: sy as i32 })
            } else {
                None
            }
        },
        None => None,
    }
}

/// The text an optional string holds.
pub open spec fn opt_chars(o: Option<String>) -> Option<Seq<char>> {
    match o {
        Some(s) => Some(s@),
        None => None,
    }
}

/// Where point `p` of a symbol placed at `anchor` lands on the sheet.
pub fn sheet_pos(anchor: Point, angle: i64, mirror: &Option<String>, p: Point) -> (r: Option<Point>)
    ensures
        r == sheet_point(anchor, angle as int, opt_chars(*mirror), p),
{
    let shifted: u128 = (angle as i128 + 9_360_000_000_000_000_000i128) as u128;
    let a: u128 = shifted % 360_000_000_000;
    proof {
        vstd::arithmetic::div_mod::lemma_mod_multiples_vanish(26_000_000, angle as int, 360_000_000_000);
        assert(360_000_000_000 * 26_000_000 + angle as int == shifted as int);
        assert(a as int == (angle as int) % 360_000_000_000);
    }
    if a % 90_000_000_000 != 0 {
        return None;
    }
    let q = a / 90_000_000_000;
    let px = p.x as i64;
    let py = p.y as i64;
    let (mut x, mut y): (i64, i64) = if q == 1 {
        (-py, px)
    } else if q == 2 {
        (-px, -py)
    } else if q == 3 {
        (py, -px)
    } else {
        (px, py)
    };
    let mx = match mirror {
        Some(m) => crate::text::str_eq(m.as_str(), "x"),
        None => false,
    };
    let my = match mirror {
        Some(m) => crate::text::str_eq(m.as_str(), "y"),
        None => false,
    };
    if mx {
        y = -y;
    } else if my {
        x = -x;
    }
    let sx = anchor.x as i64 + x;
    let sy = anchor.y as i64 - y;
    if sx < i32::MIN as i64 || sx > i32::MAX as i64 || sy < i32::MIN as i64 || sy > i32::MAX as i64 {
        return None;
    }
    Some(Point { x: sx as i32, y: sy as i32 })
}


/// A drawing on a board, as the file gives it: its kind (`gr_line`,
/// `gr_circle`, ...), its layer and its points, in nanometres.
pub struct BoardGraphic {
    pub token: String,
    pub layer: Option<String>,
    pub start: Option<Point>,
    pub end: Option<Point>,
    pub center: Option<Point>,
    pub at: Option<Point>,
}

/// The radius of a circle through `e` around `c`, rounded down to the
/// nanometre.
pub open spec fn radius_of(c: Point, e: Point) -> int {
    let dx = e.x - c.x;
    let dy = e.y - c.y;
    isqrt_of(dx * dx + dy * dy)
}

/// The integer square root of `n`.
pub open spec fn isqrt_of(n: int) -> int {
    choose|r: int| crate::semantic::part::is_isqrt(r, n)
}

/// The points of a board outline drawing: a circle's two corners, or a
/// shape's start, end, centre and position; nothing off `Edge.Cuts`.
pub open spec fn edge_points(g: BoardGraphic) -> Seq<Point> {
    if opt_chars(g.layer) != Some("Edge.Cuts"@) {
        seq![]
    } else if g.token@ == "gr_circle"@ && g.center is Some && g.end is Some {
        let c = g.center->0;
        let r = radius_of(c, g.end->0);
        seq![
            Point { x: clamp(c.x - r), y: clamp(c.y - r) },
            Point { x: clamp(c.x + r), y: clamp(c.y + r) },
        ]
    } else {
        opt_point(g.start) + opt_point(g.end) + opt_point(g.center) + opt_point(g.at)
    }
}

/// The outline points of a list of board drawings.
pub open spec fn edges_points(gs: Seq<BoardGraphic>) -> Seq<Point>
    decreases gs.len(),
{
    if gs.len() == 0 {
        seq![]
    } else {
        edges_points(gs.drop_last()) + edge_points(gs.last())
    }
}

/// The bounding box of a board's outline (the `Edge.Cuts` centreline),
/// which the layer images are fit to; arcs count by their start, middle
/// and end.
pub open spec fn edge_box(gs: Seq<BoardGraphic>) -> Option<Bbox> {
    bbox_over(None, edges_points(gs))
}

/// A box grown by the outline points of one board drawing.
fn grow_edge(b: &mut Option<Bbox>, g: &BoardGraphic)
    ensures
        *final(b) == bbox_over(*old(b), edge_points(*g)),
{
    let ghost b0 = *b;
    let on_edge = match &g.layer {
        Some(l) => crate::text::str_eq(l.as_str(), "Edge.Cuts"),
        None => false,
    };
    if !on_edge {
        assert(edge_points(*g) =~= Seq::<Point>::empty());
        return;
    }
    if crate::text::str_eq(g.token.as_str(), "gr_circle") && g.center.is_some() && g.end.is_some() {
        let c = g.center.unwrap();
        let e = g.end.unwrap();
        let dx: i128 = e.x as i128 - c.x as i128;
        let dy: i128 = e.y as i128 - c.y as i128;
        assert(dx * dx <= 0x1_0000_0000_0000_0000) by (nonlinear_arith)
            requires
                -0x1_0000_0000 <= dx <= 0x1_0000_0000,
        ;
        assert(dy * dy <= 0x1_0000_0000_0000_0000) by (nonlinear_arith)
            requires
                -0x1_0000_0000 <= dy <= 0x1_0000_0000,
        ;
        assert(dx * dx >= 0 && dy * dy >= 0) by (nonlinear_arith);
        let d2: u128 = (dx * dx + dy * dy) as u128;
        let r = crate::semantic::part::isqrt(d2);
        proof {
            let q = radius_of(c, e);
            assert(crate::semantic::part::is_isqrt(r as int, (dx * dx + dy * dy) as int));
            assert(crate::semantic::part::is_isqrt(q, (dx * dx + dy * dy) as int));
            crate::semantic::part::lemma_isqrt_unique(r as int, q, (dx * dx + dy * dy) as int);
        }
        let ri = r as i64;
        let p = Point { x: clamp_exec(c.x as i64 - ri), y: clamp_exec(c.y as i64 - ri) };
        let q = Point { x: clamp_exec(c.x as i64 + ri), y: clamp_exec(c.y as i64 + ri) };
        grow(b, p);
        grow(b, q);
        proof {
            assert(edge_points(*g) =~= seq![p] + seq![q]);
            lemma_bbox_over_one(b0, p);
            lemma_bbox_over_one(grown(b0, p), q);
            lemma_bbox_over_concat(b0, seq![p], seq![q]);
        }
        return;
    }
    let ghost b1 = *b;
    if let Some(p) = g.start {
        grow(b, p);
    }
    proof {
        lemma_bbox_over_opt(b1, g.start);
    }
    let ghost b2 = *b;
    if let Some(p) = g.end {
        grow(b, p);
    }
    proof {
        lemma_bbox_over_opt(b2, g.end);
        lemma_bbox_over_concat(b0, opt_point(g.start), opt_point(g.end));
    }
    let ghost b3 = *b;
    if let Some(p) = g.center {
        grow(b, p);
    }
    proof {
        lemma_bbox_over_opt(b3, g.center);
        lemma_bbox_over_concat(b0, opt_point(g.start) + opt_point(g.end), opt_point(g.center));
    }
    let ghost b4 = *b;
    if let Some(p) = g.at {
        grow(b, p);
    }
    proof {
        lemma_bbox_over_opt(b4, g.at);
        lemma_bbox_over_concat(b0, opt_point(g.start) + opt_point(g.end) + opt_point(g.center), opt_point(g.at));
    }
}

/// The bounding box of a board's outline.
pub fn edge_bbox(gs: &Vec<BoardGraphic>) -> (r: Option<Bbox>)
    ensures
        r == edge_box(gs@),
{
    let mut b: Option<Bbox> = None;
    let mut i: usize = 0;
    while i < gs.len()
        invariant
            i <= gs.len(),
            b == bbox_over(None, edges_points(gs@.take(i as int))),
        decreases gs.len() - i,
    {
        let ghost pre = gs@.take(i as int);
        let ghost next = gs@.take(i as int + 1);
        assert(next.drop_last() =~= pre);
        assert(next.last() == gs@[i as int]);
        grow_edge(&mut b, &gs[i]);
        proof {
            lemma_bbox_over_concat(None, edges_points(pre), edge_points(gs@[i as int]));
        }
        i = i + 1;
    }
    assert(gs@.take(gs.len() as int) =~= gs@);
    b
}

} // verus!
