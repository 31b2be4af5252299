//! Which symbol properties a part carries into the diff.

use vstd::prelude::*;

use crate::ids::{EntityId, PageName, Pin, Reference};
use crate::order::strictly_sorted;
use crate::semantic::geometry::{
    center_of, drawing_box, drawing_center, drawing_index, drawing_index_of, drawn_pins, drawn_pins_of,
    opt_chars, pin_rows_view, resolved, sheet_point, sheet_pos, LibSymbol,
};
use crate::semantic::part::{insert_text, strings_view, text_order};
use crate::semantic::table::{table_of, text_table, upsert};
use crate::semantic::{page_view, Entity, Point};
use crate::text::{chars_of, starts_with, starts_with_exec, str_eq, trim, trim_exec};

verus! {

/// Symbol properties worth diffing. Reference and Value have their own
/// change kinds, Datasheet and Description are documentation that never
/// changes what gets mounted, and `ki_*` is KiCad's internal bookkeeping.
pub open spec fn tracked_name(name: Seq<char>) -> bool {
    name != "Reference"@ && name != "Value"@ && name != "Datasheet"@ && name != "Description"@ && !starts_with(
        name,
        "ki_"@,
    )
}

/// Whether a symbol property is worth diffing.
pub fn tracked_property(name: &str) -> (r: bool)
    ensures
        r == tracked_name(name@),
{
    !(str_eq(name, "Reference") || str_eq(name, "Value") || str_eq(name, "Datasheet") || str_eq(name, "Description"))
        && !starts_with_exec(&chars_of(name), "ki_")
}

/// A property a part carries: a tracked name with a value that is neither
/// blank nor KiCad's "~" placeholder.
pub open spec fn kept_property(name: Seq<char>, value: Seq<char>) -> bool {
    tracked_name(name) && trim(value).len() > 0 && value != "~"@
}

/// Whether a part carries a symbol property.
pub fn keeps_property(name: &str, value: &str) -> (r: bool)
    ensures
        r == kept_property(name@, value@),
{
    tracked_property(name) && trim_exec(&chars_of(value)).len() > 0 && !str_eq(value, "~")
}


/// One entry of a symbol's `instances` block: the sheet instance path it
/// is placed under, with the reference and unit it has there.
pub struct SymInstance {
    pub path: Option<String>,
    pub reference: Option<String>,
    pub unit: Option<i32>,
}

/// A symbol placed on a schematic sheet, as the file gives it.
pub struct SchSymbol {
    pub lib_id: Option<String>,
    /// The anchor, in nanometres.
    pub at: Option<Point>,
    /// Orientation in billionths of a degree.
    pub angle: i64,
    pub mirror: Option<String>,
    pub unit: Option<i32>,
    pub uuid: Option<String>,
    pub reference: Option<String>,
    pub value: Option<String>,
    /// All properties, by name, in file order.
    pub properties: Vec<(String, String)>,
}

/// The first entry of `insts` for the sheet instance path `inst`.
pub open spec fn instance_in(insts: Seq<SymInstance>, inst: Seq<char>) -> Option<SymInstance>
    decreases insts.len(),
{
    if insts.len() == 0 {
        None
    } else if opt_chars(insts[0].path) == Some(inst) {
        Some(insts[0])
    } else {
        instance_in(insts.drop_first(), inst)
    }
}

/// A placed symbol's reference: its instance's, else its own.
pub open spec fn part_reference(s: SchSymbol, this: Option<SymInstance>) -> Option<Seq<char>> {
    match this {
        Some(i) => if i.reference is Some {
            opt_chars(i.reference)
        } else {
            opt_chars(s.reference)
        },
        None => opt_chars(s.reference),
    }
}

/// A placed symbol's unit: its instance's, else its own, else 1.
pub open spec fn part_unit(s: SchSymbol, this: Option<SymInstance>) -> int {
    match this {
        Some(i) => if i.unit is Some {
            i.unit->0 as int
        } else if s.unit is Some {
            s.unit->0 as int
        } else {
            1
        },
        None => if s.unit is Some {
            s.unit->0 as int
        } else {
            1
        },
    }
}

/// Symbols that make no part: no identity, no reference, or a power or
/// flag pseudo-symbol (`#PWR01`), which only adds netlist noise.
pub open spec fn skipped(s: SchSymbol, this: Option<SymInstance>) -> bool {
    s.uuid is None || part_reference(s, this) is None || starts_with(part_reference(s, this)->0, "#"@)
}

/// The library symbol whose drawing a placed symbol uses.
pub open spec fn symbol_drawing(s: SchSymbol, lib: Seq<LibSymbol>) -> Option<int> {
    match s.lib_id {
        Some(id) => drawing_index(lib, id@),
        None => None,
    }
}

/// Where a placed unit's marker goes: the centre of its drawing carried
/// onto the sheet, else the symbol's anchor.
pub open spec fn part_at(s: SchSymbol, lib: Seq<LibSymbol>, unit: int) -> Option<Point> {
    let center = match symbol_drawing(s, lib) {
        Some(d) => center_of(drawing_box(lib[d], unit)),
        None => None,
    };
    let placed = match (center, s.at) {
        (Some(c), Some(a)) => sheet_point(a, s.angle as int, opt_chars(s.mirror), c),
        _ => None,
    };
    match placed {
        Some(p) => Some(p),
        None => s.at,
    }
}

/// The pin rows of a placed unit's drawing.
pub open spec fn unit_rows(s: SchSymbol, lib: Seq<LibSymbol>, unit: int) -> Seq<(Seq<char>, Point, bool)> {
    match symbol_drawing(s, lib) {
        Some(d) => drawn_pins(lib[d], unit),
        None => seq![],
    }
}

/// The pins of a placed unit that land on the sheet, by number.
pub open spec fn placed_pins(rows: Seq<(Seq<char>, Point, bool)>, s: SchSymbol) -> Seq<(Seq<char>, Point)>
    decreases rows.len(),
{
    if rows.len() == 0 {
        seq![]
    } else {
        let rest = placed_pins(rows.drop_last(), s);
        match s.at {
            Some(a) => match sheet_point(a, s.angle as int, opt_chars(s.mirror), rows.last().1) {
                Some(q) => rest.push((rows.last().0, q)),
                None => rest,
            },
            None => rest,
        }
    }
}

/// The numbers of the hidden pins among `rows`.
pub open spec fn hidden_numbers(rows: Seq<(Seq<char>, Point, bool)>) -> Set<Seq<char>> {
    Set::new(|n: Seq<char>| exists|i: int| 0 <= i < rows.len() && #[trigger] rows[i].2 && rows[i].0 == n)
}

/// The properties a part carries, in file order.
pub open spec fn kept_props(props: Seq<(String, String)>) -> Seq<(Seq<char>, String)>
    decreases props.len(),
{
    if props.len() == 0 {
        seq![]
    } else {
        let rest = kept_props(props.drop_last());
        let (k, v) = props.last();
        if kept_property(k@, v@) {
            rest.push((k@, v))
        } else {
            rest
        }
    }
}

/// The numbers of a list of pins.
pub open spec fn pins_view(v: Seq<Pin>) -> Seq<Seq<char>> {
    v.map_values(|p: Pin| p@)
}

/// A pin table by the characters of each pin number.
pub open spec fn pin_table(v: Seq<(Pin, Point)>) -> Seq<(Seq<char>, Point)> {
    v.map_values(|e: (Pin, Point)| (e.0@, e.1))
}

/// `e` is the part a placed symbol makes on sheet `page`: its reference
/// and unit from the instance, its marker at the centre of its drawing,
/// its tracked properties and its pins (by number, where they land on the
/// sheet, the last of a number winning), both sorted by name.
pub open spec fn symbol_part(
    e: Entity,
    s: SchSymbol,
    this: Option<SymInstance>,
    page: Seq<char>,
    lib: Seq<LibSymbol>,
) -> bool {
    let unit = part_unit(s, this);
    let rows = unit_rows(s, lib, unit);
    &&& Some(e.reference@) == part_reference(s, this)
    &&& e.value == s.value
    &&& e.lib_id == s.lib_id
    &&& e.at == part_at(s, lib, unit)
    &&& e.rotation == s.angle
    &&& page_view(e.sheet) == Some(page)
    &&& e.layer is None
    &&& table_of(text_table(e.properties@), kept_props(s.properties@))
    &&& table_of(pin_table(e.pins@), placed_pins(rows, s))
    &&& strictly_sorted(pins_view(e.hidden_pins@), text_order())
    &&& pins_view(e.hidden_pins@).to_set() == hidden_numbers(rows)
}

/// The first instance entry for the sheet instance `inst`.
fn instance_of(insts: &Vec<SymInstance>, inst: &str) -> (r: Option<usize>)
    ensures
        match r {
            Some(i) => i < insts.len() && instance_in(insts@, inst@) == Some(insts@[i as int]),
            None => instance_in(insts@, inst@) is None,
        },
{
    let mut i: usize = 0;
    assert(insts@.skip(0) =~= insts@);
    while i < insts.len()
        invariant
            i <= insts.len(),
            instance_in(insts@, inst@) == instance_in(insts@.skip(i as int), inst@),
        decreases insts.len() - i,
    {
        let hit = match &insts[i].path {
            Some(p) => str_eq(p.as_str(), inst),
            None => false,
        };
        assert(insts@.skip(i as int)[0] == insts@[i as int]);
        if hit {
            return Some(i);
        }
        assert(insts@.skip(i as int).drop_first() =~= insts@.skip(i as int + 1));
        i = i + 1;
    }
    None
}

/// The tracked properties of a symbol, as a sorted table.
fn property_table(props: &Vec<(String, String)>) -> (r: Vec<(String, String)>)
    ensures
        table_of(text_table(r@), kept_props(props@)),
{
    let mut out: Vec<(String, String)> = Vec::new();
    let mut i: usize = 0;
    while i < props.len()
        invariant
            i <= props.len(),
            table_of(text_table(out@), kept_props(props@.take(i as int))),
        decreases props.len() - i,
    {
        let ghost pre = props@.take(i as int);
        let ghost next = props@.take(i as int + 1);
        assert(next.drop_last() =~= pre);
        assert(next.last() == props@[i as int]);
        if keeps_property(props[i].0.as_str(), props[i].1.as_str()) {
            upsert(&mut out, props[i].0.clone(), props[i].1.clone(), Ghost(kept_props(pre)));
        }
        i = i + 1;
    }
    assert(props@.take(props.len() as int) =~= props@);
    out
}


/// The pins of a placed unit that land on the sheet, as a sorted table.
fn pin_table_of(rows: &Vec<(String, Point, bool)>, s: &SchSymbol) -> (r: Vec<(Pin, Point)>)
    ensures
        table_of(pin_table(r@), placed_pins(pin_rows_view(rows@), *s)),
{
    let ghost rv = pin_rows_view(rows@);
    let mut t: Vec<(String, Point)> = Vec::new();
    let mut i: usize = 0;
    while i < rows.len()
        invariant
            i <= rows.len(),
            rv == pin_rows_view(rows@),
            table_of(text_table(t@), placed_pins(rv.take(i as int), *s)),
        decreases rows.len() - i,
    {
        let ghost pre = rv.take(i as int);
        let ghost next = rv.take(i as int + 1);
        assert(next.drop_last() =~= pre);
        assert(next.last() == rv[i as int]);
        assert(rv[i as int] == (rows@[i as int].0@, rows@[i as int].1, rows@[i as int].2));
        match s.at {
            Some(a) => match sheet_pos(a, s.angle, &s.mirror, rows[i].1) {
                Some(q) => {
                    upsert(&mut t, rows[i].0.clone(), q, Ghost(placed_pins(pre, *s)));
                },
                None => {},
            },
            None => {},
        }
        i = i + 1;
    }
    assert(rv.take(rows.len() as int) =~= rv);
    let mut out: Vec<(Pin, Point)> = Vec::new();
    let mut j: usize = 0;
    while j < t.len()
        invariant
            j <= t.len(),
            pin_table(out@) == text_table(t@).take(j as int),
        decreases t.len() - j,
    {
        let ghost before = pin_table(out@);
        let name = t[j].0.clone();
        let pin = Pin::from_string(name);
        assert(text_table(t@)[j as int] == (t@[j as int].0@, t@[j as int].1));
        out.push((pin, t[j].1));
        assert(pin_table(out@) =~= before.push((pin@, t@[j as int].1)));
        assert(pin_table(out@) =~= text_table(t@).take(j as int + 1));
        j = j + 1;
    }
    assert(text_table(t@).take(t.len() as int) =~= text_table(t@));
    out
}

/// The numbers of the hidden pins among `rows`, sorted.
fn hidden_of(rows: &Vec<(String, Point, bool)>) -> (r: Vec<Pin>)
    ensures
        strictly_sorted(pins_view(r@), text_order()),
        pins_view(r@).to_set() == hidden_numbers(pin_rows_view(rows@)),
{
    let ghost rv = pin_rows_view(rows@);
    let mut names: Vec<String> = Vec::new();
    let mut i: usize = 0;
    while i < rows.len()
        invariant
            i <= rows.len(),
            rv == pin_rows_view(rows@),
            strictly_sorted(strings_view(names@), text_order()),
            strings_view(names@).to_set() == Set::new(
                |n: Seq<char>| exists|j: int| 0 <= j < i && #[trigger] rv[j].2 && rv[j].0 == n,
            ),
        decreases rows.len() - i,
    {
        assert(rv[i as int] == (rows@[i as int].0@, rows@[i as int].1, rows@[i as int].2));
        let ghost old_set = strings_view(names@).to_set();
        if rows[i].2 {
            insert_text(&mut names, &rows[i].0);
        }
        proof {
            let prev = Set::new(|n: Seq<char>| exists|j: int| 0 <= j < i && #[trigger] rv[j].2 && rv[j].0 == n);
            let next = Set::new(|n: Seq<char>| exists|j: int| 0 <= j < i + 1 && #[trigger] rv[j].2 && rv[j].0 == n);
            assert forall|n: Seq<char>| next.contains(n) == (prev.contains(n) || (rv[i as int].2 && rv[i as int].0 == n)) by {
                if next.contains(n) {
                    let j = choose|j: int| 0 <= j < i + 1 && #[trigger] rv[j].2 && rv[j].0 == n;
                    if j < i {
                        assert(prev.contains(n));
                    }
                }
                if prev.contains(n) {
                    let j = choose|j: int| 0 <= j < i && #[trigger] rv[j].2 && rv[j].0 == n;
                    assert(0 <= j < i + 1 && rv[j].2 && rv[j].0 == n);
                }
            }
            assert(strings_view(names@).to_set() =~= next);
        }
        i = i + 1;
    }
    assert(Set::new(|n: Seq<char>| exists|j: int| 0 <= j < rows.len() && #[trigger] rv[j].2 && rv[j].0 == n)
        =~= hidden_numbers(rv));
    let mut out: Vec<Pin> = Vec::new();
    let mut j: usize = 0;
    while j < names.len()
        invariant
            j <= names.len(),
            pins_view(out@) == strings_view(names@).take(j as int),
        decreases names.len() - j,
    {
        let ghost before = pins_view(out@);
        let name = names[j].clone();
        let pin = Pin::from_string(name);
        assert(strings_view(names@)[j as int] == names@[j as int]@);
        out.push(pin);
        assert(pins_view(out@) =~= before.push(pin@));
        assert(pins_view(out@) =~= strings_view(names@).take(j as int + 1));
        j = j + 1;
    }
    assert(strings_view(names@).take(names.len() as int) =~= strings_view(names@));
    out
}

/// A copy of an optional text.
fn copy_text(o: &Option<String>) -> (r: Option<String>)
    ensures
        r == *o,
{
    match o {
        Some(s) => Some(s.clone()),
        None => None,
    }
}

/// The identity key of a placed symbol: its sheet instance path and UUID.
pub open spec fn part_key(inst: Seq<char>, uuid: Seq<char>) -> Seq<char> {
    inst + "/"@ + uuid
}

/// The text `inst/uuid`.
fn part_key_of(inst: &str, uuid: &str) -> (r: String)
    ensures
        r@ == part_key(inst@, uuid@),
{
    let mut v: Vec<char> = Vec::new();
    crate::text::push_str(&mut v, inst);
    v.push('/');
    crate::text::push_str(&mut v, uuid);
    assert(v@ =~= inst@ + "/"@ + uuid@) by {
        reveal_strlit("/");
    }
    crate::text::string_of(v.as_slice())
}

/// The part a placed symbol makes on sheet `page` of the sheet instance
/// `inst`, keyed by instance path and UUID; none for a symbol that makes
/// no part. `table` is the drawing resolution of `lib`.
pub fn symbol_part_of(
    s: &SchSymbol,
    insts: &Vec<SymInstance>,
    page: &PageName,
    inst: &str,
    lib: &Vec<LibSymbol>,
    table: &Vec<usize>,
) -> (r: Option<(String, Entity)>)
    requires
        table@.len() == lib@.len(),
        forall|j: int| 0 <= j < lib.len() ==> table@[j] as int == #[trigger] resolved(lib@, lib.len() as int)[j],
    ensures
        match r {
            None => skipped(*s, instance_in(insts@, inst@)),
            Some(kv) => {
                &&& !skipped(*s, instance_in(insts@, inst@))
                &&& kv.0@ == part_key(inst@, s.uuid->0@)
                &&& symbol_part(kv.1, *s, instance_in(insts@, inst@), page@, lib@)
            },
        },
{
    let uuid = match &s.uuid {
        Some(u) => u,
        None => return None,
    };
    let this = instance_of(insts, inst);
    let own = match this {
        Some(i) => match &insts[i].reference {
            Some(r) => Some(r.clone()),
            None => copy_text(&s.reference),
        },
        None => copy_text(&s.reference),
    };
    let reference = match own {
        Some(r) => r,
        None => return None,
    };
    proof {
        reveal_strlit("#");
    }
    if starts_with_exec(&chars_of(reference.as_str()), "#") {
        return None;
    }
    let unit: i32 = match this {
        Some(i) => match insts[i].unit {
            Some(u) => u,
            None => match s.unit {
                Some(u) => u,
                None => 1,
            },
        },
        None => match s.unit {
            Some(u) => u,
            None => 1,
        },
    };
    let d = match &s.lib_id {
        Some(id) => drawing_index_of(lib, table, id.as_str()),
        None => None,
    };
    let center = match d {
        Some(d) => drawing_center(&lib[d], unit),
        None => None,
    };
    let placed = match (center, s.at) {
        (Some(c), Some(a)) => sheet_pos(a, s.angle, &s.mirror, c),
        _ => None,
    };
    let at = match placed {
        Some(p) => Some(p),
        None => s.at,
    };
    let rows = match d {
        Some(d) => drawn_pins_of(&lib[d], unit),
        None => Vec::new(),
    };
    assert(pin_rows_view(rows@) == unit_rows(*s, lib@, part_unit(*s, instance_in(insts@, inst@)))) by {
        if d is None {
            assert(pin_rows_view(rows@) =~= Seq::<(Seq<char>, Point, bool)>::empty());
        }
    }
    let pins = pin_table_of(&rows, s);
    let hidden_pins = hidden_of(&rows);
    let properties = property_table(&s.properties);
    let key = part_key_of(inst, uuid.as_str());
    let e = Entity {
        reference: Reference::from_string(reference),
        value: copy_text(&s.value),
        lib_id: copy_text(&s.lib_id),
        at,
        rotation: s.angle,
        sheet: Some(page.clone()),
        layer: None,
        properties,
        pins,
        hidden_pins,
    };
    Some((key, e))
}


/// The instance block `t` gives the symbol `uuid` (the first entry).
pub open spec fn first_insts(t: Seq<(String, Vec<SymInstance>)>, uuid: Seq<char>) -> Seq<SymInstance>
    decreases t.len(),
{
    if t.len() == 0 {
        seq![]
    } else if t[0].0@ == uuid {
        t[0].1@
    } else {
        first_insts(t.drop_first(), uuid)
    }
}

/// The instance entries of a placed symbol.
pub open spec fn symbol_insts(t: Seq<(String, Vec<SymInstance>)>, s: SchSymbol) -> Seq<SymInstance> {
    match s.uuid {
        Some(u) => first_insts(t, u@),
        None => seq![],
    }
}

/// `r` holds, in order, the parts the symbols `syms` of one sheet make
/// on page `page` of the sheet instance `inst`.
pub open spec fn sheet_parts_ok(
    r: Seq<(String, Entity)>,
    syms: Seq<SchSymbol>,
    t: Seq<(String, Vec<SymInstance>)>,
    page: Seq<char>,
    inst: Seq<char>,
    lib: Seq<LibSymbol>,
) -> bool
    decreases syms.len(),
{
    if syms.len() == 0 {
        r.len() == 0
    } else {
        let s = syms.last();
        let this = instance_in(symbol_insts(t, s), inst);
        if skipped(s, this) {
            sheet_parts_ok(r, syms.drop_last(), t, page, inst, lib)
        } else {
            &&& r.len() > 0
            &&& r.last().0@ == part_key(inst, s.uuid->0@)
            &&& symbol_part(r.last().1, s, this, page, lib)
            &&& sheet_parts_ok(r.drop_last(), syms.drop_last(), t, page, inst, lib)
        }
    }
}

/// Where the instance block of the symbol `uuid` sits in `t`.
fn insts_index(t: &Vec<(String, Vec<SymInstance>)>, uuid: &str) -> (r: Option<usize>)
    ensures
        match r {
            Some(k) => k < t.len() && first_insts(t@, uuid@) == t@[k as int].1@,
            None => first_insts(t@, uuid@) == Seq::<SymInstance>::empty(),
        },
{
    let mut k: usize = 0;
    assert(t@.skip(0) =~= t@);
    while k < t.len()
        invariant
            k <= t.len(),
            first_insts(t@, uuid@) == first_insts(t@.skip(k as int), uuid@),
        decreases t.len() - k,
    {
        assert(t@.skip(k as int)[0] == t@[k as int]);
        if str_eq(t[k].0.as_str(), uuid) {
            return Some(k);
        }
        assert(t@.skip(k as int).drop_first() =~= t@.skip(k as int + 1));
        k = k + 1;
    }
    None
}

/// The parts the symbols of one sheet make on page `page` of the sheet
/// instance `inst`, in file order, each keyed by instance path and UUID.
/// `t` holds the symbols' instance blocks by UUID; `table` is the drawing
/// resolution of `lib`.
pub fn sheet_parts(
    syms: &Vec<SchSymbol>,
    t: &Vec<(String, Vec<SymInstance>)>,
    page: &PageName,
    inst: &str,
    lib: &Vec<LibSymbol>,
    table: &Vec<usize>,
) -> (r: Vec<(String, Entity)>)
    requires
        table@.len() == lib@.len(),
        forall|j: int| 0 <= j < lib.len() ==> table@[j] as int == #[trigger] resolved(lib@, lib.len() as int)[j],
    ensures
        sheet_parts_ok(r@, syms@, t@, page@, inst@, lib@),
{
    let mut out: Vec<(String, Entity)> = Vec::new();
    let empty: Vec<SymInstance> = Vec::new();
    let mut i: usize = 0;
    while i < syms.len()
        invariant
            i <= syms.len(),
            table@.len() == lib@.len(),
            forall|j: int| 0 <= j < lib.len() ==> table@[j] as int == #[trigger] resolved(lib@, lib.len() as int)[j],
            empty@.len() == 0,
            sheet_parts_ok(out@, syms@.take(i as int), t@, page@, inst@, lib@),
        decreases syms.len() - i,
    {
        let ghost pre = syms@.take(i as int);
        let ghost next = syms@.take(i as int + 1);
        assert(next.drop_last() =~= pre);
        assert(next.last() == syms@[i as int]);
        let s = &syms[i];
        let insts = match &s.uuid {
            Some(u) => match insts_index(t, u.as_str()) {
                Some(k) => &t[k].1,
                None => &empty,
            },
            None => &empty,
        };
        assert(insts@ == symbol_insts(t@, *s));
        match symbol_part_of(s, insts, page, inst, lib, table) {
            Some(kv) => {
                let ghost before = out@;
                out.push(kv);
                assert(out@.drop_last() =~= before);
            },
            None => {},
        }
        i = i + 1;
    }
    assert(syms@.take(syms.len() as int) =~= syms@);
    out
}

/// A sheet block of a schematic: the sub-sheet's page name, its file and
/// its UUID.
pub struct SchSheet {
    pub name: Option<String>,
    pub filename: Option<String>,
    pub uuid: Option<String>,
}

/// The sub-sheets a sheet instance leads to: for each sheet block with a
/// name, a file and a UUID, its file, its page name and its instance path.
pub open spec fn child_entries(sheets: Seq<SchSheet>, inst: Seq<char>) -> Seq<(Seq<char>, Seq<char>, Seq<char>)>
    decreases sheets.len(),
{
    if sheets.len() == 0 {
        seq![]
    } else {
        let rest = child_entries(sheets.drop_last(), inst);
        let b = sheets.last();
        match (b.name, b.filename, b.uuid) {
            (Some(name), Some(file), Some(uuid)) => rest.push((file@, name@, part_key(inst, uuid@))),
            _ => rest,
        }
    }
}

/// The view of sub-sheet entries.
pub open spec fn children_view(v: Seq<(String, PageName, String)>) -> Seq<(Seq<char>, Seq<char>, Seq<char>)> {
    v.map_values(|c: (String, PageName, String)| (c.0@, c.1@, c.2@))
}

/// The sub-sheets the sheet instance `inst` leads to: file, page name and
/// instance path of each.
pub fn child_sheets(sheets: &Vec<SchSheet>, inst: &str) -> (r: Vec<(String, PageName, String)>)
    ensures
        children_view(r@) == child_entries(sheets@, inst@),
{
    let mut out: Vec<(String, PageName, String)> = Vec::new();
    let mut i: usize = 0;
    while i < sheets.len()
        invariant
            i <= sheets.len(),
            children_view(out@) == child_entries(sheets@.take(i as int), inst@),
        decreases sheets.len() - i,
    {
        let ghost pre = sheets@.take(i as int);
        let ghost next = sheets@.take(i as int + 1);
        assert(next.drop_last() =~= pre);
        assert(next.last() == sheets@[i as int]);
        match (&sheets[i].name, &sheets[i].filename, &sheets[i].uuid) {
            (Some(name), Some(file), Some(uuid)) => {
                let ghost before = children_view(out@);
                let key = part_key_of(inst, uuid.as_str());
                let page = PageName::from_string(name.clone());
                out.push((file.clone(), page, key));
                assert(children_view(out@) =~= before.push((file@, name@, part_key(inst@, uuid@))));
            },
            _ => {},
        }
        i = i + 1;
    }
    assert(sheets@.take(sheets.len() as int) =~= sheets@);
    out
}

/// The instance path of a root sheet: `/` and its UUID.
pub open spec fn root_path(uuid: Option<String>) -> Seq<char> {
    "/"@ + match uuid {
        Some(u) => u@,
        None => seq![],
    }
}

/// The instance path of the root sheet of UUID `uuid`.
pub fn root_instance(uuid: &Option<String>) -> (r: String)
    ensures
        r@ == root_path(*uuid),
{
    let mut v: Vec<char> = Vec::new();
    v.push('/');
    match uuid {
        Some(u) => crate::text::push_str(&mut v, u.as_str()),
        None => {},
    }
    assert(v@ =~= root_path(*uuid)) by {
        reveal_strlit("/");
    }
    crate::text::string_of(v.as_slice())
}

/// A table of parts by the characters of each key.
pub open spec fn id_table(v: Seq<(EntityId, Entity)>) -> Seq<(Seq<char>, Entity)> {
    v.map_values(|e: (EntityId, Entity)| (e.0@, e.1))
}

/// A part with nothing in it, to stand in a slot while its owner is moved.
fn placeholder() -> (r: (String, Entity))
    ensures
        r.0@ == Seq::<char>::empty(),
        r.1.reference@ == Seq::<char>::empty(),
        r.1.value is None,
        r.1.lib_id is None,
        r.1.at is None,
        r.1.rotation == 0,
        r.1.sheet is None,
        r.1.layer is None,
        r.1.properties@ == Seq::<(String, String)>::empty(),
        r.1.pins@ == Seq::<(Pin, Point)>::empty(),
        r.1.hidden_pins@.len() == 0,
{
    proof {
        reveal_strlit("");
    }
    (
        String::new(),
        Entity {
            reference: Reference::new(""),
            value: None,
            lib_id: None,
            at: None,
            rotation: 0,
            sheet: None,
            layer: None,
            properties: Vec::new(),
            pins: Vec::new(),
            hidden_pins: Vec::new(),
        },
    )
}

/// The parts of one revision as a table sorted by key, a later part of a
/// key replacing an earlier one.
pub fn part_table(parts: Vec<(String, Entity)>) -> (r: Vec<(EntityId, Entity)>)
    ensures
        table_of(id_table(r@), text_table(parts@)),
{
    let ghost items = text_table(parts@);
    let mut parts = parts;
    let ghost orig = parts@;
    let mut t: Vec<(String, Entity)> = Vec::new();
    let mut i: usize = 0;
    while i < parts.len()
        invariant
            i <= parts.len(),
            parts@.len() == orig.len(),
            items == text_table(orig),
            forall|j: int| i <= j < orig.len() ==> parts@[j] == orig[j],
            table_of(text_table(t@), items.take(i as int)),
        decreases parts.len() - i,
    {
        let mut slot = placeholder();
        std::mem::swap(&mut parts[i], &mut slot);
        assert(slot == orig[i as int]);
        let ghost pre = items.take(i as int);
        assert(items.take(i as int + 1) =~= pre.push((slot.0@, slot.1)));
        upsert(&mut t, slot.0, slot.1, Ghost(pre));
        i = i + 1;
    }
    assert(items.take(orig.len() as int) =~= items);
    let mut out: Vec<(EntityId, Entity)> = Vec::new();
    let ghost tv = text_table(t@);
    let ghost tt = t@;
    while t.len() > 0
        invariant
            tv == text_table(tt),
            t@ =~= tt.skip(out@.len() as int),
            out@.len() <= tt.len(),
            id_table(out@) == tv.take(out@.len() as int),
        decreases t.len(),
    {
        let (k, e) = t.remove(0);
        let ghost before = id_table(out@);
        let ghost n = out@.len();
        assert(tt[n as int] == (k, e));
        out.push((EntityId::from_string(k), e));
        assert(t@ =~= tt.skip(out@.len() as int));
        assert(id_table(out@) =~= tv.take(out@.len() as int));
    }
    assert(tv.take(tt.len() as int) =~= tv);
    out
}


/// A footprint placed on a board, as the file gives it.
pub struct Footprint {
    pub uuid: Option<String>,
    pub reference: Option<String>,
    pub value: Option<String>,
    pub lib_id: Option<String>,
    /// Position, in nanometres.
    pub at: Option<Point>,
    /// Orientation in billionths of a degree.
    pub rotation: Option<i64>,
    pub layer: Option<String>,
}

/// `e` is the part a footprint makes: its reference, value, footprint,
/// position, orientation (0 when unset) and copper side.
pub open spec fn footprint_part(e: Entity, f: Footprint) -> bool {
    &&& Some(e.reference@) == opt_chars(f.reference)
    &&& e.value == f.value
    &&& e.lib_id == f.lib_id
    &&& e.at == f.at
    &&& e.rotation == (match f.rotation {
        Some(r) => r,
        None => 0i64,
    })
    &&& e.sheet is None
    &&& page_view(e.layer) == opt_chars(f.layer)
    &&& e.properties@.len() == 0
    &&& e.pins@.len() == 0
    &&& e.hidden_pins@.len() == 0
}

/// `r` holds, in order, the parts the footprints `fps` make, each keyed by
/// its UUID; a footprint without UUID or reference makes none.
pub open spec fn board_parts_ok(r: Seq<(String, Entity)>, fps: Seq<Footprint>) -> bool
    decreases fps.len(),
{
    if fps.len() == 0 {
        r.len() == 0
    } else {
        let f = fps.last();
        if f.uuid is None || f.reference is None {
            board_parts_ok(r, fps.drop_last())
        } else {
            &&& r.len() > 0
            &&& r.last().0@ == f.uuid->0@
            &&& footprint_part(r.last().1, f)
            &&& board_parts_ok(r.drop_last(), fps.drop_last())
        }
    }
}

/// The parts the footprints of a board make, in file order, each keyed by
/// its UUID.
pub fn board_parts(fps: &Vec<Footprint>) -> (r: Vec<(String, Entity)>)
    ensures
        board_parts_ok(r@, fps@),
{
    let mut out: Vec<(String, Entity)> = Vec::new();
    let mut i: usize = 0;
    while i < fps.len()
        invariant
            i <= fps.len(),
            board_parts_ok(out@, fps@.take(i as int)),
        decreases fps.len() - i,
    {
        let ghost pre = fps@.take(i as int);
        let ghost next = fps@.take(i as int + 1);
        assert(next.drop_last() =~= pre);
        assert(next.last() == fps@[i as int]);
        let f = &fps[i];
        match (&f.uuid, &f.reference) {
            (Some(uuid), Some(reference)) => {
                let e = Entity {
                    reference: Reference::from_string(reference.clone()),
                    value: copy_text(&f.value),
                    lib_id: copy_text(&f.lib_id),
                    at: f.at,
                    rotation: match f.rotation {
                        Some(r) => r,
                        None => 0,
                    },
                    sheet: None,
                    layer: match &f.layer {
                        Some(l) => Some(PageName::from_string(l.clone())),
                        None => None,
                    },
                    properties: Vec::new(),
                    pins: Vec::new(),
                    hidden_pins: Vec::new(),
                };
                let ghost before = out@;
                out.push((uuid.clone(), e));
                assert(out@.drop_last() =~= before);
            },
            _ => {},
        }
        i = i + 1;
    }
    assert(fps@.take(fps.len() as int) =~= fps@);
    out
}

} // verus!

verus! {

/// A board keeps each footprint's orientation: every footprint with a UUID
/// and a reference makes a part, keyed by that UUID, at the footprint's
/// place and turned by the footprint's rotation (0 only where the file gives
/// none).
pub proof fn law_footprints_keep_their_orientation(r: Seq<(String, Entity)>, fps: Seq<Footprint>)
    requires
        board_parts_ok(r, fps),
    ensures
        forall|t: int|
            0 <= t < fps.len() && (#[trigger] fps[t]).uuid is Some && fps[t].reference is Some ==> exists|k: int|
                0 <= k < r.len() && (#[trigger] r[k]).0@ == fps[t].uuid->0@ && r[k].1.at == fps[t].at
                    && r[k].1.rotation == (match fps[t].rotation {
                    Some(x) => x,
                    None => 0,
                }),
    decreases fps.len(),
{
    if fps.len() > 0 {
        let f = fps.last();
        let d = fps.drop_last();
        if f.uuid is None || f.reference is None {
            law_footprints_keep_their_orientation(r, d);
            assert forall|t: int|
                0 <= t < fps.len() && (#[trigger] fps[t]).uuid is Some && fps[t].reference is Some implies exists|k: int|
                    0 <= k < r.len() && (#[trigger] r[k]).0@ == fps[t].uuid->0@ && r[k].1.at == fps[t].at
                        && r[k].1.rotation == (match fps[t].rotation {
                        Some(x) => x,
                        None => 0,
                    }) by {
                assert(t < d.len());
                assert(d[t] == fps[t]);
            }
        } else {
            let rd = r.drop_last();
            law_footprints_keep_their_orientation(rd, d);
            assert forall|t: int|
                0 <= t < fps.len() && (#[trigger] fps[t]).uuid is Some && fps[t].reference is Some implies exists|k: int|
                    0 <= k < r.len() && (#[trigger] r[k]).0@ == fps[t].uuid->0@ && r[k].1.at == fps[t].at
                        && r[k].1.rotation == (match fps[t].rotation {
                        Some(x) => x,
                        None => 0,
                    }) by {
                if t < d.len() {
                    assert(d[t] == fps[t]);
                    let k = choose|k: int|
                        0 <= k < rd.len() && (#[trigger] rd[k]).0@ == d[t].uuid->0@ && rd[k].1.at == d[t].at
                            && rd[k].1.rotation == (match d[t].rotation {
                            Some(x) => x,
                            None => 0,
                        });
                    assert(r[k] == rd[k]);
                } else {
                    assert(fps[t] == f);
                    assert(r[r.len() - 1] == r.last());
                }
            }
        }
    }
}

} // verus!
